//! The threshold instant and the local-time rendering of stamps, both
//! through chrono.

use vstd::prelude::*;
use vstd::string::StringExecFns;

verus! {

/// The last whole second of the year 9999, a stamp chrono's calendar
/// still places: far beyond any modification time a filesystem hands
/// out, and well inside the range its day arithmetic accepts.
pub const PLACEABLE_MAX_SECS: i64 = 253_402_300_799;

/// Relies on chrono's `Local::now` and `DateTime::timestamp`: the
/// current instant, as whole seconds since the Unix epoch. `Local::now`
/// refuses to answer (it panics) when the system clock stands before
/// the epoch, so a returned instant is never negative; beyond that,
/// of the value nothing is assumed.
#[verifier::external_body]
fn now_unix_secs() -> (r: i64)
    ensures
        r >= 0,
{
    chrono::Local::now().timestamp()
}

/// Relies on chrono's `TimeZone::timestamp_opt` and on its `Display`
/// for `DateTime`: the stamp as local time. `timestamp_opt` answers
/// `None` only for a stamp outside its calendar's day range, so every
/// stamp from the epoch through the year 9999 is placed; a placed one
/// always shows its date, time and offset, so the text is never empty.
#[verifier::external_body]
fn render_local_stamp(secs: i64) -> (r: Option<String>)
    ensures
        r matches Some(s) ==> s@.len() > 0,
        0 <= secs <= PLACEABLE_MAX_SECS ==> r is Some,
{
    match chrono::TimeZone::timestamp_opt(&chrono::Local, secs, 0) {
        chrono::LocalResult::Single(dt) => Some(format!("{}", dt)),
        chrono::LocalResult::Ambiguous(dt, _) => Some(format!("{}", dt)),
        chrono::LocalResult::None => None,
    }
}

/// The threshold is the reference instant less the duration.
pub fn threshold_secs(now: i64, duration: i64) -> (t: i64)
    requires
        i64::MIN <= now - duration <= i64::MAX,
    ensures
        t == now - duration,
{
    now - duration
}

/// The cutoff for the present run: the current instant, less `duration`
/// seconds. The pair holds that instant and the threshold; `None` comes
/// back only when the subtraction leaves `i64`.
pub fn current_threshold(duration: i64) -> (r: Option<(i64, i64)>)
    ensures
        r matches Some(p) ==> p.1 == p.0 - duration,
        r matches Some(p) ==> p.0 >= 0,
        duration >= 0 ==> r is Some,
{
    let now = now_unix_secs();
    if duration > 0 && now < i64::MIN + duration {
        None
    } else if duration < 0 && now > i64::MAX + duration {
        None
    } else {
        Some((now, threshold_secs(now, duration)))
    }
}

/// A modification time read from the filesystem, as whole seconds since
/// the Unix epoch, narrowed to the signed stamp the report keys on.
pub fn stamp_from_epoch(secs: u64) -> (r: i64)
    ensures
        r == secs as i64,
{
    #[verifier::truncate]
    (secs as i64)
}

/// One report line: the stamp written as local time, one space, then
/// the path. `None` only when the calendar cannot place the stamp, and
/// never for one between the epoch and the year 9999.
pub fn render_line(secs: i64, path: &str) -> (r: Option<String>)
    ensures
        r matches Some(s) ==> exists|pre: Seq<char>|
            pre.len() > 0 && s@ == pre + seq![' '] + path@,
        0 <= secs <= PLACEABLE_MAX_SECS ==> r is Some,
{
    match render_local_stamp(secs) {
        None => None,
        Some(stamp) => {
            let mut line = stamp;
            let ghost pre = line@;
            line.append(" ");
            line.append(path);
            proof {
                reveal_strlit(" ");
                assert(" "@ =~= seq![' ']);
                assert(line@ == pre + seq![' '] + path@);
            }
            Some(line)
        },
    }
}

/// Render every pair of a report, line for pair. A line is owed for
/// every stamp between the epoch and the year 9999; only a stamp the
/// calendar cannot place yields `None` at its pair's place.
pub fn render_report(pairs: &Vec<(i64, String)>) -> (r: Vec<Option<String>>)
    ensures
        r@.len() == pairs@.len(),
        forall|i: int|
            0 <= i < r@.len() ==> ((#[trigger] r@[i]) matches Some(s) ==> exists|pre: Seq<char>|
                pre.len() > 0 && s@ == pre + seq![' '] + pairs@[i].1@),
        forall|i: int|
            0 <= i < r@.len() && 0 <= pairs@[i].0 <= PLACEABLE_MAX_SECS ==> (#[trigger] r@[i])
                is Some,
{
    let mut lines: Vec<Option<String>> = Vec::new();
    let mut i: usize = 0;
    while i < pairs.len()
        invariant
            i <= pairs@.len(),
            lines@.len() == i as int,
            forall|j: int|
                0 <= j < i as int ==> ((#[trigger] lines@[j]) matches Some(s) ==> exists|
                    pre: Seq<char>,
                |
                    pre.len() > 0 && s@ == pre + seq![' '] + pairs@[j].1@),
            forall|j: int|
                0 <= j < i as int && 0 <= pairs@[j].0 <= PLACEABLE_MAX_SECS ==> (
                #[trigger] lines@[j]) is Some,
        decreases pairs@.len() - i,
    {
        let p = &pairs[i];
        let line = render_line(p.0, p.1.as_str());
        lines.push(line);
        i += 1;
    }
    lines
}

} // verus!
