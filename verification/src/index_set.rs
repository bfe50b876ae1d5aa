//! Sets of indices, kept in balanced trees, and the set algebra on them.

use std::collections::BTreeSet;
use vstd::prelude::*;
use vstd::std_specs::btree::increasing_seq;
use vstd::std_specs::cmp::OrdSpec;

verus! {

/// Each entry is smaller than the next.
pub open spec fn strictly_increasing(s: Seq<usize>) -> bool {
    forall|i: int, j: int| 0 <= i < j < s.len() ==> #[trigger] s[i] < #[trigger] s[j]
}

/// What the tree calls increasing is increasing as numbers.
proof fn lemma_increasing(s: Seq<&usize>)
    requires
        increasing_seq(s),
    ensures
        forall|i: int, j: int| 0 <= i < j < s.len() ==> *s[i] < *s[j],
{
    assert(vstd::laws_cmp::obeys_cmp::<usize>());
    assert(vstd::laws_cmp::obeys_cmp::<&usize>());
    assert forall|i: int, j: int| 0 <= i < j < s.len() implies *s[i] < *s[j] by {
        assert(OrdSpec::cmp_spec(&s[i], &s[j]) is Less);
    }
}

/// The members of the set in increasing order.
pub fn to_sorted_vec(s: &BTreeSet<usize>) -> (v: Vec<usize>)
    ensures
        strictly_increasing(v@),
        v@.to_set() == s@,
{
    let mut out: Vec<usize> = Vec::new();
    for x in it: s.iter()
        invariant
            it.seq().unref().to_set() == s@,
            increasing_seq(it.seq()),
            out@.len() == it.index(),
            forall|j: int| 0 <= j < it.index() ==> out@[j] == *it.seq()[j],
            forall|v: usize| out@.contains(v) ==> s@.contains(v),
            strictly_increasing(out@),
        ensures
            forall|v: usize| s@.contains(v) <==> out@.contains(v),
    {
        proof {
            let u = it.seq().unref();
            assert(u[it.index()] == *x);
            assert(u.contains(*x));
            lemma_increasing(it.seq());
        }
        out.push(*x);
    }
    assert(out@.to_set() =~= s@);
    out
}

/// The set of the entries of `v`.
pub fn from_slice(v: &[usize]) -> (s: BTreeSet<usize>)
    ensures
        s@ == v@.to_set(),
{
    let mut out: BTreeSet<usize> = BTreeSet::new();
    let mut i: usize = 0;
    while i < v.len()
        invariant
            i <= v@.len(),
            out@ == v@.take(i as int).to_set(),
        decreases v@.len() - i,
    {
        out.insert(v[i]);
        proof {
            let before = v@.take(i as int);
            let after = v@.take(i + 1);
            assert(after =~= before.push(v@[i as int]));
            assert forall|x: usize| after.to_set().contains(x) <==> before.to_set().insert(
                v@[i as int],
            ).contains(x) by {
                if before.contains(x) {
                    let k = choose|k: int| 0 <= k < before.len() && before[k] == x;
                    assert(after[k] == x);
                }
                if x == v@[i as int] {
                    assert(after[i as int] == x);
                }
                if after.contains(x) {
                    let k = choose|k: int| 0 <= k < after.len() && after[k] == x;
                    if k < i {
                        assert(before[k] == x);
                    }
                }
            }
            assert(after.to_set() =~= before.to_set().insert(v@[i as int]));
        }
        i += 1;
    }
    assert(v@.take(v@.len() as int) =~= v@);
    out
}

/// The members of `s` together with the entries of `v`.
pub fn extended(s: BTreeSet<usize>, v: &[usize]) -> (r: BTreeSet<usize>)
    ensures
        r@ == s@.union(v@.to_set()),
{
    let mut out = s;
    let mut i: usize = 0;
    while i < v.len()
        invariant
            i <= v@.len(),
            forall|x: usize|
                out@.contains(x) <==> s@.contains(x) || exists|k: int| 0 <= k < i && v@[k] == x,
        decreases v@.len() - i,
    {
        out.insert(v[i]);
        i += 1;
    }
    assert forall|x: usize| out@.contains(x) <==> s@.union(v@.to_set()).contains(x) by {
        if v@.contains(x) {
            let k = choose|k: int| 0 <= k < v@.len() && v@[k] == x;
            assert(v@[k] == x);
        }
        if out@.contains(x) && !s@.contains(x) {
            let k = choose|k: int| 0 <= k < i && v@[k] == x;
            assert(v@.contains(x));
        }
    }
    assert(out@ =~= s@.union(v@.to_set()));
    out
}

/// The members of `a` together with those of `b`.
pub fn union(a: &BTreeSet<usize>, b: &BTreeSet<usize>) -> (s: BTreeSet<usize>)
    ensures
        s@ == a@.union(b@),
{
    let members = to_sorted_vec(b);
    extended(a.clone(), members.as_slice())
}

/// The members of `a` that `b` does not hold.
pub fn difference(a: &BTreeSet<usize>, b: &BTreeSet<usize>) -> (s: BTreeSet<usize>)
    ensures
        s@ == a@.difference(b@),
{
    let members = to_sorted_vec(a);
    let mut out: BTreeSet<usize> = BTreeSet::new();
    let mut i: usize = 0;
    while i < members.len()
        invariant
            i <= members@.len(),
            members@.to_set() == a@,
            forall|x: usize|
                out@.contains(x) <==> !b@.contains(x) && exists|k: int|
                    0 <= k < i && members@[k] == x,
        decreases members@.len() - i,
    {
        let x = members[i];
        if !b.contains(&x) {
            out.insert(x);
        }
        i += 1;
    }
    assert forall|x: usize| out@.contains(x) <==> a@.difference(b@).contains(x) by {
        if a@.contains(x) {
            assert(members@.contains(x));
            let k = choose|k: int| 0 <= k < members@.len() && members@[k] == x;
        }
        if out@.contains(x) {
            let k = choose|k: int| 0 <= k < members@.len() && members@[k] == x;
            assert(members@.contains(x));
        }
    }
    assert(out@ =~= a@.difference(b@));
    out
}

/// Tells whether `b` holds every member of `a`.
pub fn is_subset(a: &BTreeSet<usize>, b: &BTreeSet<usize>) -> (r: bool)
    ensures
        r == a@.subset_of(b@),
{
    let members = to_sorted_vec(a);
    let mut i: usize = 0;
    while i < members.len()
        invariant
            i <= members@.len(),
            members@.to_set() == a@,
            forall|k: int| 0 <= k < i ==> b@.contains(#[trigger] members@[k]),
        decreases members@.len() - i,
    {
        let x = members[i];
        if !b.contains(&x) {
            proof {
                assert(members@.contains(x));
                assert(a@.contains(x));
            }
            return false;
        }
        i += 1;
    }
    assert forall|x: usize| a@.contains(x) implies b@.contains(x) by {
        assert(members@.contains(x));
        let k = choose|k: int| 0 <= k < members@.len() && members@[k] == x;
    }
    true
}

/// Tells whether `a` and `b` hold the same members.
pub fn same_members(a: &BTreeSet<usize>, b: &BTreeSet<usize>) -> (r: bool)
    ensures
        r == (a@ == b@),
{
    let r = is_subset(a, b) && is_subset(b, a);
    proof {
        if r {
            assert(a@ =~= b@);
        }
    }
    r
}

} // verus!
