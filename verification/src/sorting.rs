//! Sorting of index pairs in lexicographic order.

use vstd::prelude::*;
use vstd::relations::{sorted_by, total_ordering};
use vstd::seq_lib::{
    group_to_multiset_ensures, lemma_multiset_commutative, lemma_sorted_unique, to_multiset_build,
};

verus! {

/// The lexicographic order on pairs: by row, then by column.
pub open spec fn pair_le(a: (usize, usize), b: (usize, usize)) -> bool {
    a.0 < b.0 || (a.0 == b.0 && a.1 <= b.1)
}

/// `pair_le` as a relation.
pub open spec fn pair_order() -> spec_fn((usize, usize), (usize, usize)) -> bool {
    |a: (usize, usize), b: (usize, usize)| pair_le(a, b)
}

/// The pairs stand in lexicographic order; equal pairs may repeat.
pub open spec fn is_sorted(s: Seq<(usize, usize)>) -> bool {
    forall|i: int, j: int| 0 <= i < j < s.len() ==> pair_le(#[trigger] s[i], #[trigger] s[j])
}

/// The pairs of `s` in lexicographic order.
pub open spec fn sorted_pairs(s: Seq<(usize, usize)>) -> Seq<(usize, usize)> {
    s.sort_by(pair_order())
}

/// The lexicographic order is a total order.
pub proof fn lemma_pair_order_total()
    ensures
        total_ordering(pair_order()),
{
    let r = pair_order();
    assert forall|x: (usize, usize), y: (usize, usize)| #[trigger] r(x, y) && #[trigger] r(y, x)
        implies x == y by {
        assert(x.0 == y.0 && x.1 == y.1);
    }
}

/// `sorted_pairs(s)` is the one sorted sequence with the pairs of `s`.
pub proof fn lemma_sorted_pairs(s: Seq<(usize, usize)>)
    ensures
        is_sorted(sorted_pairs(s)),
        sorted_pairs(s).to_multiset() == s.to_multiset(),
        sorted_pairs(s).len() == s.len(),
{
    broadcast use group_to_multiset_ensures;

    lemma_pair_order_total();
    s.lemma_sort_by_ensures(pair_order());
    let t = sorted_pairs(s);
    assert(t.len() == t.to_multiset().len());
    assert(s.len() == s.to_multiset().len());
    assert forall|i: int, j: int| 0 <= i < j < t.len() implies pair_le(
        #[trigger] t[i],
        #[trigger] t[j],
    ) by {
        assert(pair_order()(t[i], t[j]));
    }
}

/// Sorting neither adds nor drops a pair.
pub proof fn lemma_sorted_pairs_contains(s: Seq<(usize, usize)>)
    ensures
        forall|p: (usize, usize)| #[trigger] sorted_pairs(s).contains(p) <==> s.contains(p),
{
    broadcast use group_to_multiset_ensures;

    lemma_sorted_pairs(s);
    let t = sorted_pairs(s);
    assert forall|p: (usize, usize)| #[trigger] t.contains(p) <==> s.contains(p) by {
        assert(t.contains(p) <==> t.to_multiset().count(p) > 0);
        assert(s.contains(p) <==> s.to_multiset().count(p) > 0);
    }
}

/// Two sorted sequences with the same pairs are the same sequence.
pub proof fn lemma_sorted_same_pairs(a: Seq<(usize, usize)>, b: Seq<(usize, usize)>)
    requires
        is_sorted(a),
        is_sorted(b),
        a.to_multiset() == b.to_multiset(),
    ensures
        a == b,
{
    lemma_pair_order_total();
    assert(sorted_by(a, pair_order()));
    assert(sorted_by(b, pair_order()));
    lemma_sorted_unique(a, b, pair_order());
}

/// Sorting leaves a sorted sequence as it is.
pub proof fn lemma_sorted_pairs_of_sorted(s: Seq<(usize, usize)>)
    requires
        is_sorted(s),
    ensures
        sorted_pairs(s) == s,
{
    lemma_sorted_pairs(s);
    lemma_sorted_same_pairs(sorted_pairs(s), s);
}

/// Sorting depends on the pairs alone, not on their order.
pub proof fn lemma_sorted_pairs_of_same_pairs(a: Seq<(usize, usize)>, b: Seq<(usize, usize)>)
    requires
        a.to_multiset() == b.to_multiset(),
    ensures
        sorted_pairs(a) == sorted_pairs(b),
{
    lemma_sorted_pairs(a);
    lemma_sorted_pairs(b);
    lemma_sorted_same_pairs(sorted_pairs(a), sorted_pairs(b));
}

/// Compares two pairs lexicographically.
pub fn pair_le_exec(a: (usize, usize), b: (usize, usize)) -> (r: bool)
    ensures
        r == pair_le(a, b),
{
    a.0 < b.0 || (a.0 == b.0 && a.1 <= b.1)
}

/// Tells whether the pairs stand in lexicographic order.
pub fn is_sorted_pairs(v: &[(usize, usize)]) -> (r: bool)
    ensures
        r == is_sorted(v@),
{
    let n = v.len();
    if n <= 1 {
        return true;
    }
    let mut i: usize = 1;
    while i < n
        invariant
            n == v@.len(),
            1 <= i <= n,
            forall|a: int, b: int| 0 <= a < b < i ==> pair_le(#[trigger] v@[a], #[trigger] v@[b]),
        decreases n - i,
    {
        if !pair_le_exec(v[i - 1], v[i]) {
            return false;
        }
        assert forall|a: int, b: int| 0 <= a < b < i + 1 implies pair_le(
            #[trigger] v@[a],
            #[trigger] v@[b],
        ) by {
            if b == i && a < i - 1 {
                assert(pair_le(v@[a], v@[i - 1]));
            }
        }
        i += 1;
    }
    true
}

/// Merges two sorted runs into one.
fn merge(a: &Vec<(usize, usize)>, b: &Vec<(usize, usize)>) -> (out: Vec<(usize, usize)>)
    requires
        is_sorted(a@),
        is_sorted(b@),
    ensures
        is_sorted(out@),
        out@.to_multiset() == a@.to_multiset().add(b@.to_multiset()),
{
    broadcast use group_to_multiset_ensures;

    let mut out: Vec<(usize, usize)> = Vec::new();
    let mut i: usize = 0;
    let mut j: usize = 0;
    assert(a@.take(0) =~= Seq::empty());
    assert(b@.take(0) =~= Seq::empty());
    while i < a.len() || j < b.len()
        invariant
            i <= a@.len(),
            j <= b@.len(),
            is_sorted(a@),
            is_sorted(b@),
            is_sorted(out@),
            out@.to_multiset() == a@.take(i as int).to_multiset().add(
                b@.take(j as int).to_multiset(),
            ),
            forall|k: int| 0 <= k < out@.len() && i < a@.len() ==> pair_le(#[trigger] out@[k], a@[i as int]),
            forall|k: int| 0 <= k < out@.len() && j < b@.len() ==> pair_le(#[trigger] out@[k], b@[j as int]),
        decreases a@.len() - i + b@.len() - j,
    {
        let from_a = if i >= a.len() {
            false
        } else if j >= b.len() {
            true
        } else {
            pair_le_exec(a[i], b[j])
        };
        let ghost prev = out@;
        if from_a {
            let x = a[i];
            out.push(x);
            proof {
                assert(a@.take(i + 1) =~= a@.take(i as int).push(x));
                assert(out@ =~= prev.push(x));
                to_multiset_build(prev, x);
                to_multiset_build(a@.take(i as int), x);
                assert(out@.to_multiset() =~= a@.take(i + 1).to_multiset().add(
                    b@.take(j as int).to_multiset(),
                ));
                assert forall|p: int, q: int| 0 <= p < q < out@.len() implies pair_le(
                    #[trigger] out@[p],
                    #[trigger] out@[q],
                ) by {
                    if q == prev.len() {
                        assert(pair_le(prev[p], x));
                    } else {
                        assert(pair_le(prev[p], prev[q]));
                    }
                }
                assert forall|k: int| 0 <= k < out@.len() && i + 1 < a@.len() implies pair_le(
                    #[trigger] out@[k],
                    a@[i + 1],
                ) by {
                    assert(pair_le(a@[i as int], a@[i + 1]));
                    if k < prev.len() {
                        assert(pair_le(prev[k], x));
                    }
                }
                assert forall|k: int| 0 <= k < out@.len() && j < b@.len() implies pair_le(
                    #[trigger] out@[k],
                    b@[j as int],
                ) by {
                    if k < prev.len() {
                        assert(pair_le(prev[k], b@[j as int]));
                    }
                }
            }
            i += 1;
        } else {
            let x = b[j];
            out.push(x);
            proof {
                assert(b@.take(j + 1) =~= b@.take(j as int).push(x));
                assert(out@ =~= prev.push(x));
                to_multiset_build(prev, x);
                to_multiset_build(b@.take(j as int), x);
                assert(out@.to_multiset() =~= a@.take(i as int).to_multiset().add(
                    b@.take(j + 1).to_multiset(),
                ));
                assert forall|p: int, q: int| 0 <= p < q < out@.len() implies pair_le(
                    #[trigger] out@[p],
                    #[trigger] out@[q],
                ) by {
                    if q == prev.len() {
                        assert(pair_le(prev[p], x));
                    } else {
                        assert(pair_le(prev[p], prev[q]));
                    }
                }
                assert forall|k: int| 0 <= k < out@.len() && j + 1 < b@.len() implies pair_le(
                    #[trigger] out@[k],
                    b@[j + 1],
                ) by {
                    assert(pair_le(b@[j as int], b@[j + 1]));
                    if k < prev.len() {
                        assert(pair_le(prev[k], x));
                    }
                }
                assert forall|k: int| 0 <= k < out@.len() && i < a@.len() implies pair_le(
                    #[trigger] out@[k],
                    a@[i as int],
                ) by {
                    if k < prev.len() {
                        assert(pair_le(prev[k], a@[i as int]));
                    }
                }
            }
            j += 1;
        }
    }
    assert(a@.take(i as int) =~= a@);
    assert(b@.take(j as int) =~= b@);
    out
}

/// Merge sort on the part of `v` from `lo` up to `hi`.
fn sort_range(v: &Vec<(usize, usize)>, lo: usize, hi: usize) -> (out: Vec<(usize, usize)>)
    requires
        lo <= hi <= v@.len(),
    ensures
        is_sorted(out@),
        out@.to_multiset() == v@.subrange(lo as int, hi as int).to_multiset(),
    decreases hi - lo,
{
    broadcast use group_to_multiset_ensures;

    let ghost part = v@.subrange(lo as int, hi as int);
    if hi - lo <= 1 {
        let mut out: Vec<(usize, usize)> = Vec::new();
        if hi - lo == 1 {
            out.push(v[lo]);
        }
        assert(out@ =~= part);
        out
    } else {
        let mid = lo + (hi - lo) / 2;
        let left = sort_range(v, lo, mid);
        let right = sort_range(v, mid, hi);
        proof {
            let l = v@.subrange(lo as int, mid as int);
            let r = v@.subrange(mid as int, hi as int);
            assert(part =~= l + r);
            lemma_multiset_commutative(l, r);
        }
        merge(&left, &right)
    }
}

/// The pairs of `v` in lexicographic order.
pub fn sort_pairs(v: Vec<(usize, usize)>) -> (out: Vec<(usize, usize)>)
    ensures
        out@ == sorted_pairs(v@),
{
    let out = sort_range(&v, 0, v.len());
    proof {
        assert(v@.subrange(0, v@.len() as int) =~= v@);
        lemma_sorted_pairs(v@);
        lemma_sorted_same_pairs(out@, sorted_pairs(v@));
    }
    out
}

} // verus!
