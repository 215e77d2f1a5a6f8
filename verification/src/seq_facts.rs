//! General facts about filtering and mapping sequences, used to reason
//! about the grouped report.

use vstd::prelude::*;

verus! {

/// Two predicates that agree on every element of a sequence filter it
/// to the same subsequence.
pub(crate) proof fn lemma_filter_equiv<A>(s: Seq<A>, p: spec_fn(A) -> bool, q: spec_fn(A) -> bool)
    requires
        forall|i: int| 0 <= i < s.len() ==> (p(s[i]) <==> q(s[i])),
    ensures
        s.filter(p) == s.filter(q),
    decreases s.len(),
{
    reveal(Seq::filter);
    if s.len() != 0 {
        let rest = s.drop_last();
        assert forall|i: int| 0 <= i < rest.len() implies (p(rest[i]) <==> q(rest[i])) by {
            assert(rest[i] == s[i]);
        }
        lemma_filter_equiv(rest, p, q);
        assert(p(s.last()) <==> q(s.last()));
    }
}

/// Filtering by `p` and then by `q` is filtering by their conjunction
/// `both`.
pub(crate) proof fn lemma_filter_filter<A>(
    s: Seq<A>,
    p: spec_fn(A) -> bool,
    q: spec_fn(A) -> bool,
    both: spec_fn(A) -> bool,
)
    requires
        forall|x: A| #[trigger] both(x) == (p(x) && q(x)),
    ensures
        s.filter(p).filter(q) == s.filter(both),
    decreases s.len(),
{
    broadcast use Seq::lemma_filter_push;

    if s.len() == 0 {
        reveal(Seq::filter);
    } else {
        let rest = s.drop_last();
        let last = s.last();
        lemma_filter_filter(rest, p, q, both);
        assert(s =~= rest.push(last));
        assert(both(last) == (p(last) && q(last)));
        assert(rest.push(last).filter(p) == if p(last) {
            rest.filter(p).push(last)
        } else {
            rest.filter(p)
        });
        if p(last) {
            assert(rest.filter(p).push(last).filter(q) == if q(last) {
                rest.filter(p).filter(q).push(last)
            } else {
                rest.filter(p).filter(q)
            });
        }
        assert(rest.push(last).filter(both) == if both(last) {
            rest.filter(both).push(last)
        } else {
            rest.filter(both)
        });
    }
}

/// Mapping and then filtering keeps the same elements as filtering the
/// preimages `pre` and then mapping.
pub(crate) proof fn lemma_map_filter_commute<A, B>(
    s: Seq<A>,
    f: spec_fn(A) -> B,
    q: spec_fn(B) -> bool,
    pre: spec_fn(A) -> bool,
)
    requires
        forall|x: A| #[trigger] pre(x) == q(f(x)),
    ensures
        s.map_values(f).filter(q) == s.filter(pre).map_values(f),
    decreases s.len(),
{
    broadcast use Seq::lemma_filter_push;
    broadcast use Seq::lemma_push_map_commute;

    if s.len() == 0 {
        reveal(Seq::filter);
        assert(s.map_values(f).len() == 0);
        assert(s.filter(pre).map_values(f).len() == 0);
        assert(s.map_values(f).filter(q) =~= s.filter(pre).map_values(f));
    } else {
        let rest = s.drop_last();
        let last = s.last();
        lemma_map_filter_commute(rest, f, q, pre);
        assert(s =~= rest.push(last));
        assert(pre(last) == q(f(last)));
        assert(rest.push(last).map_values(f) == rest.map_values(f).push(f(last)));
        assert(rest.map_values(f).push(f(last)).filter(q) == if q(f(last)) {
            rest.map_values(f).filter(q).push(f(last))
        } else {
            rest.map_values(f).filter(q)
        });
        assert(rest.push(last).filter(pre) == if pre(last) {
            rest.filter(pre).push(last)
        } else {
            rest.filter(pre)
        });
        if pre(last) {
            assert(rest.filter(pre).push(last).map_values(f) == rest.filter(pre).map_values(
                f,
            ).push(f(last)));
        }
    }
}

/// A sequence whose only match of `q` stands at index `i` filters to a
/// single element.
pub(crate) proof fn lemma_single_match_filter<A>(s: Seq<A>, q: spec_fn(A) -> bool, i: int)
    requires
        0 <= i < s.len(),
        q(s[i]),
        forall|j: int| 0 <= j < s.len() && q(s[j]) ==> j == i,
    ensures
        s.filter(q).len() == 1,
    decreases s.len(),
{
    broadcast use Seq::lemma_filter_push;

    let rest = s.drop_last();
    let last = s.last();
    assert(s =~= rest.push(last));
    assert(rest.push(last).filter(q) == if q(last) {
        rest.filter(q).push(last)
    } else {
        rest.filter(q)
    });
    if i == s.len() - 1 {
        assert(rest.all(|x: A| !q(x))) by {
            assert forall|j: int| 0 <= j < rest.len() implies !q(rest[j]) by {
                assert(rest[j] == s[j]);
            }
        }
        rest.lemma_all_neg_filter_empty(q);
    } else {
        assert(rest[i] == s[i]);
        assert forall|j: int| 0 <= j < rest.len() && q(rest[j]) implies j == i by {
            assert(rest[j] == s[j]);
        }
        lemma_single_match_filter(rest, q, i);
        assert(!q(last));
    }
}

/// Every value of a sequence keeps its image in the mapped sequence.
pub(crate) proof fn lemma_map_values_contains<A, B>(s: Seq<A>, f: spec_fn(A) -> B, x: A)
    requires
        s.contains(x),
    ensures
        s.map_values(f).contains(f(x)),
{
    let i = choose|i: int| 0 <= i < s.len() && s[i] == x;
    assert(s.map_values(f)[i] == f(x));
}

} // verus!
