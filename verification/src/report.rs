//! The timestamp-to-paths map and the report built from it.
//!
//! A record is one file seen during the walk. Records whose stamp is at
//! or after the threshold are kept and grouped by exact stamp; the
//! report lists the groups in ascending stamp order, each group's paths
//! in the order they were discovered.

use vstd::prelude::*;

verus! {

/// One file seen during the walk: its path and its last-modification
/// time, in whole seconds since the Unix epoch.
pub struct FileStamp {
    pub secs: i64,
    pub path: String,
}

/// Holds of a report pair stamped exactly `k`.
pub open spec fn has_stamp(k: int) -> spec_fn((i64, String)) -> bool {
    |e: (i64, String)| e.0 as int == k
}

/// Holds of a report pair that names the path `p`.
pub open spec fn names_path(p: Seq<char>) -> spec_fn((i64, String)) -> bool {
    |e: (i64, String)| e.1@ == p
}

/// The path of a report pair.
pub open spec fn pair_path() -> spec_fn((i64, String)) -> Seq<char> {
    |e: (i64, String)| e.1@
}

/// Holds of a record stamped at or after the threshold `t`.
pub open spec fn at_or_after(t: int) -> spec_fn(FileStamp) -> bool {
    |r: FileStamp| r.secs as int >= t
}

/// Holds of a record stamped exactly `k`.
pub open spec fn stamped(k: int) -> spec_fn(FileStamp) -> bool {
    |r: FileStamp| r.secs as int == k
}

/// The path of a record.
pub open spec fn record_path() -> spec_fn(FileStamp) -> Seq<char> {
    |r: FileStamp| r.path@
}

/// The stamps of the report never decrease from one line to the next.
pub open spec fn sorted_by_stamp(s: Seq<(i64, String)>) -> bool {
    forall|i: int, j: int| 0 <= i <= j < s.len() ==> s[i].0 <= s[j].0
}

/// The paths a report holds under the stamp `k`, in report order.
pub open spec fn paths_at(s: Seq<(i64, String)>, k: int) -> Seq<Seq<char>> {
    s.filter(has_stamp(k)).map_values(pair_path())
}

/// The records stamped at or after the threshold, in discovery order.
pub open spec fn recent(records: Seq<FileStamp>, t: int) -> Seq<FileStamp> {
    records.filter(at_or_after(t))
}

/// The paths of the recent records stamped exactly `k`, in discovery
/// order.
pub open spec fn group_of(records: Seq<FileStamp>, t: int, k: int) -> Seq<Seq<char>> {
    recent(records, t).filter(stamped(k)).map_values(record_path())
}

/// The pairs `out` report exactly the records of `records` stamped at
/// or after `t`: the stamps never decrease, and under each stamp stand
/// exactly the qualifying paths, in discovery order.
pub open spec fn report_matches(
    records: Seq<FileStamp>,
    t: int,
    out: Seq<(i64, String)>,
) -> bool {
    &&& sorted_by_stamp(out)
    &&& forall|k: int| paths_at(out, k) == group_of(records, t, k)
}

/// `after` is `before` with one more path under the stamp `k`: the path
/// joined the end of that stamp's group and every other group is
/// untouched.
pub open spec fn appended_under(
    before: Seq<(i64, String)>,
    k: int,
    p: Seq<char>,
    after: Seq<(i64, String)>,
) -> bool {
    &&& after.len() == before.len() + 1
    &&& paths_at(after, k) == paths_at(before, k).push(p)
    &&& forall|j: int| j != k ==> paths_at(after, j) == paths_at(before, j)
}

/// No two records name the same path, as holds of the files of a walk:
/// each file is met once and carries one modification time.
pub open spec fn distinct_paths(records: Seq<FileStamp>) -> bool {
    forall|i: int, j: int| 0 <= i < j < records.len() ==> records[i].path@ != records[j].path@
}

/// The lines of a report that name the path `p`.
pub open spec fn lines_with_path(out: Seq<(i64, String)>, p: Seq<char>) -> Seq<(i64, String)> {
    out.filter(names_path(p))
}

/// The timestamp-to-paths map: pairs of stamp and path, kept ordered by
/// stamp. A new path enters at the end of its stamp's run, so each
/// stamp's group keeps discovery order, and a fresh stamp opens a group
/// of its own between its neighbours.
pub struct StampMap {
    pairs: Vec<(i64, String)>,
}

impl StampMap {
    /// The pairs the map holds, in report order.
    pub closed spec fn entries(self) -> Seq<(i64, String)> {
        self.pairs@
    }

    /// The map's invariant: its pairs are ordered by stamp.
    pub open spec fn wf(self) -> bool {
        sorted_by_stamp(self.entries())
    }

    /// The map starts empty.
    pub fn new() -> (m: StampMap)
        ensures
            m.wf(),
            m.entries() == Seq::<(i64, String)>::empty(),
    {
        StampMap { pairs: Vec::new() }
    }

    /// Put `path` under the stamp `secs`: it joins the end of that
    /// stamp's group; every other group is untouched.
    pub fn insert(&mut self, secs: i64, path: String)
        requires
            old(self).wf(),
        ensures
            final(self).wf(),
            appended_under(old(self).entries(), secs as int, path@, final(self).entries()),
    {
        let n = self.pairs.len();
        let mut pos: usize = 0;
        while pos < n && self.pairs[pos].0 <= secs
            invariant
                pos <= n,
                n == self.pairs.len(),
                forall|m: int| 0 <= m < pos ==> self.pairs@[m].0 <= secs,
                self == old(self),
            decreases n - pos,
        {
            pos += 1;
        }
        proof {
            lemma_stable_position(self.pairs@, secs as int, pos as int);
        }
        self.pairs.insert(pos, (secs, path));
        proof {
            lemma_insert_effect(old(self).pairs@, secs, path, pos as int);
        }
    }

    /// The walker's decision for one file: a stamp at or after the
    /// threshold joins the map; an older one is left out.
    pub fn record_if_recent(&mut self, secs: i64, path: String, threshold: i64)
        requires
            old(self).wf(),
        ensures
            final(self).wf(),
            secs >= threshold ==> appended_under(
                old(self).entries(),
                secs as int,
                path@,
                final(self).entries(),
            ),
            secs < threshold ==> final(self).entries() == old(self).entries(),
    {
        if secs >= threshold {
            self.insert(secs, path);
        }
    }

    /// Give the map up as the ordered pair list of the report.
    pub fn into_pairs(self) -> (out: Vec<(i64, String)>)
        ensures
            out@ == self.entries(),
    {
        self.pairs
    }
}

/// The whole pipeline on one batch of records: keep those stamped at or
/// after `threshold`, group them by exact stamp, and order the groups
/// by stamp, each group's paths in discovery order.
pub fn build_report(records: &Vec<FileStamp>, threshold: i64) -> (out: Vec<(i64, String)>)
    ensures
        report_matches(records@, threshold as int, out@),
        out@.len() == recent(records@, threshold as int).len(),
{
    let ghost t = threshold as int;
    let mut map = StampMap::new();
    proof {
        lemma_no_records_no_groups(t);
        assert(records@.take(0) =~= Seq::<FileStamp>::empty());
    }
    let mut i: usize = 0;
    while i < records.len()
        invariant
            i as int <= records@.len(),
            map.wf(),
            map.entries().len() == recent(records@.take(i as int), t).len(),
            forall|k: int| paths_at(map.entries(), k) == group_of(records@.take(i as int), t, k),
            t == threshold as int,
        decreases records@.len() - i,
    {
        let r = &records[i];
        let ghost prev = map.entries();
        map.record_if_recent(r.secs, r.path.clone(), threshold);
        proof {
            lemma_group_step(records@, t, i as int);
            let rec = records@[i as int];
            assert forall|k: int|
                paths_at(map.entries(), k) == group_of(
                    records@.take(i as int + 1),
                    t,
                    k,
                ) by {
                if rec.secs >= threshold {
                    if k != rec.secs as int {
                        assert(paths_at(map.entries(), k) == paths_at(prev, k));
                    }
                } else {
                    assert(map.entries() == prev);
                }
            }
        }
        i += 1;
    }
    proof {
        assert(records@.take(records@.len() as int) =~= records@);
    }
    map.into_pairs()
}

/// With no records there are no recent records and every group is
/// empty, as they are in the empty map.
proof fn lemma_no_records_no_groups(t: int)
    ensures
        recent(Seq::<FileStamp>::empty(), t).len() == 0,
        forall|k: int|
            paths_at(Seq::<(i64, String)>::empty(), k) == group_of(
                Seq::<FileStamp>::empty(),
                t,
                k,
            ),
{
    assert forall|k: int|
        paths_at(Seq::<(i64, String)>::empty(), k) == group_of(
            Seq::<FileStamp>::empty(),
            t,
            k,
        ) by {
        assert(Seq::<(i64, String)>::empty().filter(has_stamp(k)).len() == 0);
        assert(Seq::<FileStamp>::empty().filter(at_or_after(t)).len() == 0);
        assert(recent(Seq::<FileStamp>::empty(), t).filter(stamped(k)).len() == 0);
        assert(paths_at(Seq::<(i64, String)>::empty(), k) =~= group_of(
            Seq::<FileStamp>::empty(),
            t,
            k,
        ));
    }
}

/// Taking one more record extends its stamp's group by its path, when
/// it qualifies, and changes nothing else.
proof fn lemma_group_step(records: Seq<FileStamp>, t: int, i: int)
    requires
        0 <= i < records.len(),
    ensures
        recent(records.take(i + 1), t).len() == recent(records.take(i), t).len() + (
        if records[i].secs as int >= t {
            1int
        } else {
            0int
        }),
        forall|k: int|
            group_of(records.take(i + 1), t, k) == (if records[i].secs as int >= t
                && records[i].secs as int == k {
                group_of(records.take(i), t, k).push(records[i].path@)
            } else {
                group_of(records.take(i), t, k)
            }),
{
    broadcast use Seq::lemma_filter_push;
    broadcast use Seq::lemma_filter_len_push;
    broadcast use Seq::lemma_push_map_commute;

    let r = records[i];
    let pre = records.take(i);
    assert(records.take(i + 1) =~= pre.push(r));
    let keep = at_or_after(t);
    assert(pre.push(r).filter(keep) == if keep(r) {
        pre.filter(keep).push(r)
    } else {
        pre.filter(keep)
    });
    assert forall|k: int|
        group_of(records.take(i + 1), t, k) == (if records[i].secs as int >= t
            && records[i].secs as int == k {
            group_of(records.take(i), t, k).push(records[i].path@)
        } else {
            group_of(records.take(i), t, k)
        }) by {
        let q = stamped(k);
        let m = record_path();
        if keep(r) {
            assert(pre.filter(keep).push(r).filter(q) == if q(r) {
                pre.filter(keep).filter(q).push(r)
            } else {
                pre.filter(keep).filter(q)
            });
            if q(r) {
                assert(pre.filter(keep).filter(q).push(r).map_values(m) =~= pre.filter(
                    keep,
                ).filter(q).map_values(m).push(m(r)));
            }
        }
    }
}

/// At `pos`, everything before carries a stamp at most `k` and, the
/// pairs being ordered, everything from `pos` on a greater one.
proof fn lemma_stable_position(s: Seq<(i64, String)>, k: int, pos: int)
    requires
        sorted_by_stamp(s),
        0 <= pos <= s.len(),
        forall|m: int| 0 <= m < pos ==> s[m].0 <= k,
        pos < s.len() ==> s[pos].0 > k,
    ensures
        forall|m: int| pos <= m < s.len() ==> s[m].0 > k,
{
}

/// Inserting a pair at a stable position keeps the order, appends its
/// path to its stamp's group, and leaves every other group untouched.
proof fn lemma_insert_effect(s: Seq<(i64, String)>, secs: i64, path: String, pos: int)
    requires
        sorted_by_stamp(s),
        0 <= pos <= s.len(),
        forall|m: int| 0 <= m < pos ==> s[m].0 <= secs,
        forall|m: int| pos <= m < s.len() ==> s[m].0 > secs,
    ensures
        sorted_by_stamp(s.insert(pos, (secs, path))),
        appended_under(s, secs as int, path@, s.insert(pos, (secs, path))),
{
    broadcast use Seq::filter_distributes_over_add;
    broadcast use Seq::lemma_filter_push;
    broadcast use Seq::lemma_push_map_commute;

    let e = (secs, path);
    let lo = s.subrange(0, pos);
    let hi = s.subrange(pos, s.len() as int);
    let out = s.insert(pos, e);
    assert(out == lo.push(e) + hi);
    assert(s =~= lo + hi);
    assert(sorted_by_stamp(out)) by {
        assert forall|i: int, j: int| 0 <= i <= j < out.len() implies out[i].0 <= out[j].0 by {
            if i < pos {
                assert(out[i] == s[i]);
            }
            if j < pos {
                assert(out[j] == s[j]);
            }
            if i > pos {
                assert(out[i] == s[i - 1]);
            }
            if j > pos {
                assert(out[j] == s[j - 1]);
            }
        }
    }
    assert forall|j: int| j != secs as int implies paths_at(out, j) == paths_at(s, j) by {
        let q = has_stamp(j);
        assert(!q(e));
        assert(lo.push(e).filter(q) == lo.filter(q));
        assert((lo.push(e) + hi).filter(q) == lo.filter(q) + hi.filter(q));
        assert((lo + hi).filter(q) == lo.filter(q) + hi.filter(q));
    }
    assert(paths_at(out, secs as int) == paths_at(s, secs as int).push(path@)) by {
        let q = has_stamp(secs as int);
        let m = pair_path();
        assert(q(e));
        assert(hi.all(|x: (i64, String)| !q(x))) by {
            assert forall|i: int| 0 <= i < hi.len() implies !q(hi[i]) by {
                assert(hi[i] == s[pos + i]);
            }
        }
        hi.lemma_all_neg_filter_empty(q);
        assert(hi.filter(q) =~= Seq::<(i64, String)>::empty());
        assert(lo.push(e).filter(q) == lo.filter(q).push(e));
        assert((lo.push(e) + hi).filter(q) == lo.filter(q).push(e) + hi.filter(q));
        assert(out.filter(q) =~= lo.filter(q).push(e));
        assert((lo + hi).filter(q) == lo.filter(q) + hi.filter(q));
        assert(s.filter(q) =~= lo.filter(q));
        assert(lo.filter(q).push(e).map_values(m) =~= lo.filter(q).map_values(m).push(m(e)));
        assert(m(e) == path@);
    }
}

} // verus!
