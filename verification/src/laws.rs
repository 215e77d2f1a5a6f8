//! Laws of the report, proved of any output that meets the report's
//! contract.

use vstd::prelude::*;
use crate::report::FileStamp;
use crate::report::at_or_after;
use crate::report::distinct_paths;
use crate::report::group_of;
use crate::report::has_stamp;
use crate::report::lines_with_path;
use crate::report::names_path;
use crate::report::pair_path;
use crate::report::paths_at;
use crate::report::recent;
use crate::report::record_path;
use crate::report::report_matches;
use crate::report::sorted_by_stamp;
use crate::report::stamped;
use crate::seq_facts::lemma_filter_equiv;
use crate::seq_facts::lemma_filter_filter;
use crate::seq_facts::lemma_map_filter_commute;
use crate::seq_facts::lemma_map_values_contains;
use crate::seq_facts::lemma_single_match_filter;

verus! {

/// Holds of a path equal to `p`.
spec fn eq_path(p: Seq<char>) -> spec_fn(Seq<char>) -> bool {
    |s: Seq<char>| s == p
}

/// Holds of a record that names the path `p`.
spec fn record_names(p: Seq<char>) -> spec_fn(FileStamp) -> bool {
    |r: FileStamp| r.path@ == p
}

/// Holds of a report pair stamped `k` that names the path `p`.
spec fn stamp_and_path(k: int, p: Seq<char>) -> spec_fn((i64, String)) -> bool {
    |e: (i64, String)| e.0 as int == k && e.1@ == p
}

/// Holds of a record stamped exactly `k`, at or after `t`.
spec fn kept_stamped(t: int, k: int) -> spec_fn(FileStamp) -> bool {
    |r: FileStamp| r.secs as int >= t && r.secs as int == k
}

/// Holds of a record stamped exactly `k`, at or after `t`, naming `p`.
spec fn kept_stamped_named(t: int, k: int, p: Seq<char>) -> spec_fn(FileStamp) -> bool {
    |r: FileStamp| (r.secs as int >= t && r.secs as int == k) && r.path@ == p
}

/// Two records that name one path are one record.
proof fn lemma_same_path_same_index(records: Seq<FileStamp>, i: int, n: int)
    requires
        distinct_paths(records),
        0 <= i < records.len(),
        0 <= n < records.len(),
        records[i].path@ == records[n].path@,
    ensures
        i == n,
{
    if i < n {
        assert(records[i].path@ != records[n].path@);
    } else if n < i {
        assert(records[n].path@ != records[i].path@);
    }
}

/// Every line of a report that meets the contract stems from a record
/// with its path and its stamp, one at or after the threshold.
proof fn lemma_line_source(records: Seq<FileStamp>, t: int, out: Seq<(i64, String)>, j: int)
    requires
        report_matches(records, t, out),
        0 <= j < out.len(),
    ensures
        exists|n: int|
            0 <= n < records.len() && (#[trigger] records[n]).path@ == out[j].1@
                && records[n].secs == out[j].0 && records[n].secs as int >= t,
{
    let k = out[j].0 as int;
    let line = out[j];
    out.lemma_filter_contains(has_stamp(k), j);
    lemma_map_values_contains(out.filter(has_stamp(k)), pair_path(), line);
    assert(paths_at(out, k).contains(line.1@));
    assert(group_of(records, t, k).contains(line.1@));
    let grp = recent(records, t).filter(stamped(k));
    let idx = choose|idx: int| 0 <= idx < grp.len() && grp.map_values(record_path())[idx] == line.1@;
    assert(grp.map_values(record_path())[idx] == record_path()(grp[idx]));
    let rec = grp[idx];
    assert(rec.path@ == line.1@);
    recent(records, t).lemma_filter_pred(stamped(k), idx);
    assert(rec.secs as int == k);
    recent(records, t).lemma_filter_contains_rev(stamped(k), rec);
    assert(recent(records, t).contains(rec));
    let idx2 = choose|idx2: int| 0 <= idx2 < recent(records, t).len() && recent(records, t)[idx2] == rec;
    records.lemma_filter_pred(at_or_after(t), idx2);
    assert(rec.secs as int >= t);
    records.lemma_filter_contains_rev(at_or_after(t), rec);
    let n = choose|n: int| 0 <= n < records.len() && records[n] == rec;
    assert(records[n].path@ == out[j].1@);
}

/// Law: a file stamped at or after the threshold appears in the report
/// exactly once.
pub proof fn lemma_recent_path_reported_once(
    records: Seq<FileStamp>,
    t: int,
    out: Seq<(i64, String)>,
    i: int,
)
    requires
        distinct_paths(records),
        report_matches(records, t, out),
        0 <= i < records.len(),
        records[i].secs as int >= t,
    ensures
        lines_with_path(out, records[i].path@).len() == 1,
{
    let p = records[i].path@;
    let k = records[i].secs as int;
    assert forall|j: int| 0 <= j < out.len() && (names_path(p))(out[j]) implies (stamp_and_path(
        k,
        p,
    ))(out[j]) by {
        lemma_line_source(records, t, out, j);
        let n = choose|n: int|
            0 <= n < records.len() && (#[trigger] records[n]).path@ == out[j].1@
                && records[n].secs == out[j].0 && records[n].secs as int >= t;
        lemma_same_path_same_index(records, i, n);
    }
    lemma_filter_equiv(out, names_path(p), stamp_and_path(k, p));
    lemma_filter_filter(out, has_stamp(k), names_path(p), stamp_and_path(k, p));
    assert(lines_with_path(out, p) == out.filter(has_stamp(k)).filter(names_path(p)));
    lemma_map_filter_commute(out.filter(has_stamp(k)), pair_path(), eq_path(p), names_path(p));
    assert(paths_at(out, k).filter(eq_path(p)) == out.filter(has_stamp(k)).filter(
        names_path(p),
    ).map_values(pair_path()));
    assert(lines_with_path(out, p).len() == paths_at(out, k).filter(eq_path(p)).len());
    assert(paths_at(out, k) == group_of(records, t, k));
    let grp = recent(records, t).filter(stamped(k));
    lemma_map_filter_commute(grp, record_path(), eq_path(p), record_names(p));
    assert(group_of(records, t, k).filter(eq_path(p)).len() == grp.filter(record_names(p)).len());
    lemma_filter_filter(records, at_or_after(t), stamped(k), kept_stamped(t, k));
    assert(grp == records.filter(kept_stamped(t, k)));
    lemma_filter_filter(records, kept_stamped(t, k), record_names(p), kept_stamped_named(t, k, p));
    assert(grp.filter(record_names(p)) == records.filter(kept_stamped_named(t, k, p)));
    assert((kept_stamped_named(t, k, p))(records[i]));
    assert forall|n: int|
        0 <= n < records.len() && (kept_stamped_named(t, k, p))(records[n]) implies n == i by {
        lemma_same_path_same_index(records, i, n);
    }
    lemma_single_match_filter(records, kept_stamped_named(t, k, p), i);
}

/// Law: a file stamped before the threshold never appears in the
/// report.
pub proof fn lemma_stale_path_never_reported(
    records: Seq<FileStamp>,
    t: int,
    out: Seq<(i64, String)>,
    i: int,
)
    requires
        distinct_paths(records),
        report_matches(records, t, out),
        0 <= i < records.len(),
        (records[i].secs as int) < t,
    ensures
        lines_with_path(out, records[i].path@).len() == 0,
{
    let p = records[i].path@;
    assert forall|j: int| 0 <= j < out.len() implies !(names_path(p))(out[j]) by {
        if out[j].1@ == p {
            lemma_line_source(records, t, out, j);
            let n = choose|n: int|
                0 <= n < records.len() && (#[trigger] records[n]).path@ == out[j].1@
                    && records[n].secs == out[j].0 && records[n].secs as int >= t;
            lemma_same_path_same_index(records, i, n);
        }
    }
    assert(out.all(|e: (i64, String)| !(names_path(p))(e)));
    out.lemma_all_neg_filter_empty(names_path(p));
}

/// Law: lines that share a stamp stand consecutively in an ordered
/// report; between two lines of one stamp no other stamp intervenes.
pub proof fn lemma_equal_stamps_consecutive(out: Seq<(i64, String)>, i: int, j: int, m: int)
    requires
        sorted_by_stamp(out),
        0 <= i <= m <= j < out.len(),
        out[i].0 == out[j].0,
    ensures
        out[m].0 == out[i].0,
{
}

} // verus!
