//! Every permutation of half-edges falls into orbits, and in one way only.
//!
//! The walk from a half-edge of a permutation comes back to it, because the
//! walk never leaves the finitely many half-edges and never joins a path
//! that it has not started on. So each half-edge lies on one cycle, and the
//! cycles, each read from its smallest half-edge, make up the partition
//! that [`orbits_of`] names. An orbit is known by any of its half-edges,
//! so there is no other partition.

use crate::permutation::{
    canonical, is_cycle, is_orbit, is_orbit_partition, is_permutation,
    lemma_canonical_cycle_is_orbit, lemma_successor_injective, lemma_twin_involution, occurs,
    orbits_of, owner, owns, successor, Walk,
};
use vstd::prelude::*;
use vstd::set_lib::{lemma_int_range, lemma_len_subset, set_int_range};

verus! {

/// Two orbits agree as far as both reach, if they start alike.
proof fn lemma_orbits_agree(next: Seq<usize>, walk: Walk, o: Seq<usize>, p: Seq<usize>, j: int)
    requires
        is_orbit(next, walk, o),
        is_orbit(next, walk, p),
        o[0] == p[0],
        0 <= j < o.len(),
        j < p.len(),
    ensures
        o[j] == p[j],
    decreases j,
{
    if j > 0 {
        lemma_orbits_agree(next, walk, o, p, j - 1);
        assert(o[j] == successor(next, walk, o[j - 1] as int));
        assert(p[j] == successor(next, walk, p[j - 1] as int));
    }
}

/// An orbit is known by its first half-edge.
pub proof fn lemma_orbit_by_first(next: Seq<usize>, walk: Walk, o: Seq<usize>, p: Seq<usize>)
    requires
        is_orbit(next, walk, o),
        is_orbit(next, walk, p),
        o[0] == p[0],
    ensures
        o == p,
{
    if o.len() < p.len() {
        let m = o.len() as int;
        lemma_orbits_agree(next, walk, o, p, m - 1);
        assert(p[m] == successor(next, walk, p[m - 1] as int));
        assert(p[0] < p[m]);
    } else if p.len() < o.len() {
        let m = p.len() as int;
        lemma_orbits_agree(next, walk, o, p, m - 1);
        assert(o[m] == successor(next, walk, o[m - 1] as int));
        assert(o[0] < o[m]);
    } else {
        assert forall|j: int| 0 <= j < o.len() implies o[j] == p[j] by {
            lemma_orbits_agree(next, walk, o, p, j);
        }
        assert(o =~= p);
    }
}

/// An orbit that holds a half-edge of another orbit holds the first
/// half-edge of that orbit.
proof fn lemma_reach_first(
    next: Seq<usize>,
    walk: Walk,
    o: Seq<usize>,
    path: Seq<usize>,
    t: int,
) -> (at: int)
    requires
        is_orbit(next, walk, o),
        is_orbit(next, walk, path),
        0 <= t < path.len(),
        o.contains(path[t]),
    ensures
        0 <= at < o.len(),
        o[at] == path[0],
    decreases path.len() - t,
{
    let here = choose|here: int| 0 <= here < o.len() && o[here] == path[t];
    let onward = if here < o.len() - 1 {
        here + 1
    } else {
        0
    };
    assert(o[onward] == successor(next, walk, o[here] as int)) by {
        if here < o.len() - 1 {
            assert(o[here + 1] == successor(next, walk, o[here] as int));
        }
    }
    if t == path.len() - 1 {
        onward
    } else {
        assert(path[t + 1] == successor(next, walk, path[t] as int));
        assert(o.contains(path[t + 1]));
        lemma_reach_first(next, walk, o, path, t + 1)
    }
}

/// Two orbits with a half-edge in common are the same orbit.
pub proof fn lemma_orbit_through(
    next: Seq<usize>,
    walk: Walk,
    o: Seq<usize>,
    p: Seq<usize>,
    h: usize,
)
    requires
        is_orbit(next, walk, o),
        is_orbit(next, walk, p),
        o.contains(h),
        p.contains(h),
    ensures
        o == p,
{
    let t = choose|t: int| 0 <= t < p.len() && p[t] == h;
    let u = choose|u: int| 0 <= u < o.len() && o[u] == h;
    let at = lemma_reach_first(next, walk, o, p, t);
    let back = lemma_reach_first(next, walk, p, o, u);
    if at > 0 {
        assert(o[0] < o[at]);
    }
    if back > 0 {
        assert(p[0] < p[back]);
    }
    lemma_orbit_by_first(next, walk, o, p);
}

/// The half-edge that the walk reaches from `h` after `k` steps.
pub open spec fn walked(next: Seq<usize>, walk: Walk, h: int, k: nat) -> int
    decreases k,
{
    if k == 0 {
        h
    } else {
        successor(next, walk, walked(next, walk, h, (k - 1) as nat))
    }
}

/// The walk over a permutation stays among its half-edges.
pub proof fn lemma_walk_in_range(next: Seq<usize>, walk: Walk, h: int, k: nat)
    requires
        is_permutation(next),
        0 <= h < next.len(),
    ensures
        0 <= walked(next, walk, h, k) < next.len(),
    decreases k,
{
    if k > 0 {
        lemma_walk_in_range(next, walk, h, (k - 1) as nat);
        lemma_twin_involution(walked(next, walk, h, (k - 1) as nat), next.len() as int);
    }
}

/// Where the walk from `h` is at the same half-edge after `a` and after
/// `b` steps, it is back at `h` after `b - a` steps.
proof fn lemma_walk_back(next: Seq<usize>, walk: Walk, h: int, a: nat, b: nat)
    requires
        is_permutation(next),
        0 <= h < next.len(),
        a <= b,
        walked(next, walk, h, a) == walked(next, walk, h, b),
    ensures
        walked(next, walk, h, (b - a) as nat) == h,
    decreases a,
{
    if a > 0 {
        let x = walked(next, walk, h, (a - 1) as nat);
        let y = walked(next, walk, h, (b - 1) as nat);
        lemma_walk_in_range(next, walk, h, (a - 1) as nat);
        lemma_walk_in_range(next, walk, h, (b - 1) as nat);
        lemma_successor_injective(next, walk, x, y);
        lemma_walk_back(next, walk, h, (a - 1) as nat, (b - 1) as nat);
    }
}

/// More than `n` numbers below `n` hold one number twice.
proof fn lemma_pigeonhole(s: Seq<int>, n: int) -> (r: (int, int))
    requires
        0 <= n < s.len(),
        forall|i: int| 0 <= i < s.len() ==> 0 <= #[trigger] s[i] < n,
    ensures
        0 <= r.0 < r.1 < s.len(),
        s[r.0] == s[r.1],
{
    if s.no_duplicates() {
        s.unique_seq_to_set();
        lemma_int_range(0, n);
        assert forall|x: int| s.to_set().contains(x) implies set_int_range(0, n).contains(x) by {
            let i = choose|i: int| 0 <= i < s.len() && s[i] == x;
            assert(0 <= s[i] < n);
        }
        lemma_len_subset(s.to_set(), set_int_range(0, n));
        assert(false);
    }
    let (i, j) = choose|i: int, j: int|
        0 <= i < s.len() && 0 <= j < s.len() && i != j && s[i] == s[j];
    if i < j {
        (i, j)
    } else {
        (j, i)
    }
}

/// The walk from a half-edge of a permutation is back at the half-edge
/// after at most as many steps as there are half-edges.
proof fn lemma_returns(next: Seq<usize>, walk: Walk, h: int) -> (k: nat)
    requires
        is_permutation(next),
        0 <= h < next.len(),
    ensures
        1 <= k <= next.len(),
        walked(next, walk, h, k) == h,
{
    let n = next.len() as int;
    let s = Seq::new((n + 1) as nat, |j: int| walked(next, walk, h, j as nat));
    assert forall|i: int| 0 <= i < s.len() implies 0 <= #[trigger] s[i] < n by {
        lemma_walk_in_range(next, walk, h, i as nat);
    }
    let (a, b) = lemma_pigeonhole(s, n);
    lemma_walk_back(next, walk, h, a as nat, b as nat);
    (b - a) as nat
}

/// The walk from `h` is back at `h` after `p` steps, and not before.
pub open spec fn returns_first_at(next: Seq<usize>, walk: Walk, h: int, p: nat) -> bool {
    &&& p >= 1
    &&& walked(next, walk, h, p) == h
    &&& forall|j: nat| 0 < j < p ==> #[trigger] walked(next, walk, h, j) != h
}

proof fn lemma_first_return(next: Seq<usize>, walk: Walk, h: int, k: nat) -> (p: nat)
    requires
        k >= 1,
        walked(next, walk, h, k) == h,
    ensures
        returns_first_at(next, walk, h, p),
        p <= k,
    decreases k,
{
    if exists|j: nat| 0 < j < k && #[trigger] walked(next, walk, h, j) == h {
        let j = choose|j: nat| 0 < j < k && #[trigger] walked(next, walk, h, j) == h;
        lemma_first_return(next, walk, h, j)
    } else {
        k
    }
}

/// The number of steps after which the walk from `h` is first back at `h`.
pub open spec fn period(next: Seq<usize>, walk: Walk, h: int) -> nat {
    choose|p: nat| returns_first_at(next, walk, h, p)
}

/// The cycle through `h`, listed from `h` on.
pub open spec fn cycle_from(next: Seq<usize>, walk: Walk, h: int) -> Seq<usize> {
    Seq::new(period(next, walk, h), |j: int| walked(next, walk, h, j as nat) as usize)
}

/// The orbit through `h`: its cycle, listed from its smallest half-edge on.
pub open spec fn orbit_from(next: Seq<usize>, walk: Walk, h: int) -> Seq<usize> {
    canonical(cycle_from(next, walk, h))
}

/// Each half-edge of a permutation lies on a cycle.
pub proof fn lemma_cycle_from(next: Seq<usize>, walk: Walk, h: int)
    requires
        is_permutation(next),
        0 <= h < next.len(),
    ensures
        is_cycle(next, walk, cycle_from(next, walk, h)),
        cycle_from(next, walk, h)[0] == h,
        cycle_from(next, walk, h).len() <= next.len(),
{
    let k = lemma_returns(next, walk, h);
    let q = lemma_first_return(next, walk, h, k);
    let p = period(next, walk, h);
    assert(returns_first_at(next, walk, h, p));
    if p > k {
        assert(walked(next, walk, h, k) != h);
    }
    let c = cycle_from(next, walk, h);
    assert forall|j: int| 0 <= j < c.len() implies #[trigger] c[j] < next.len() && c[j]
        == walked(next, walk, h, j as nat) by {
        lemma_walk_in_range(next, walk, h, j as nat);
    }
    assert forall|j: int| 0 <= j < c.len() - 1 implies c[j + 1] == #[trigger] successor(
        next,
        walk,
        c[j] as int,
    ) by {
        assert(c[j] < next.len());
        assert(c[j + 1] < next.len());
        assert(walked(next, walk, h, (j + 1) as nat) == successor(
            next,
            walk,
            walked(next, walk, h, j as nat),
        ));
    }
    assert(successor(next, walk, c[c.len() - 1] as int) == c[0]) by {
        assert(c[p - 1] < next.len());
        assert(c[0] < next.len());
        assert(walked(next, walk, h, p) == successor(
            next,
            walk,
            walked(next, walk, h, (p - 1) as nat),
        ));
    }
    assert forall|a: int, b: int| 0 <= a < b < c.len() implies #[trigger] c[a] != #[trigger] c[b] by {
        assert(c[a] < next.len());
        assert(c[b] < next.len());
        if c[a] == c[b] {
            lemma_walk_back(next, walk, h, a as nat, b as nat);
            assert(walked(next, walk, h, (b - a) as nat) != h);
        }
    }
    assert(c[0] < next.len());
}

/// Each half-edge of a permutation lies in an orbit, whose first half-edge
/// is not larger.
pub proof fn lemma_orbit_from(next: Seq<usize>, walk: Walk, h: int)
    requires
        is_permutation(next),
        0 <= h < next.len(),
    ensures
        is_orbit(next, walk, orbit_from(next, walk, h)),
        h <= usize::MAX,
        orbit_from(next, walk, h).contains(h as usize),
        orbit_from(next, walk, h)[0] <= h,
{
    lemma_cycle_from(next, walk, h);
    let c = cycle_from(next, walk, h);
    lemma_canonical_cycle_is_orbit(next, walk, c);
    assert(c[0] == h);
    assert(c.contains(h as usize));
    let o = orbit_from(next, walk, h);
    let at = choose|at: int| 0 <= at < o.len() && o[at] == h as usize;
    if at > 0 {
        assert(o[0] < o[at]);
    }
}

/// An orbit follows the walk from its first half-edge.
proof fn lemma_orbit_walks(next: Seq<usize>, walk: Walk, o: Seq<usize>, j: int)
    requires
        is_orbit(next, walk, o),
        0 <= j < o.len(),
    ensures
        o[j] == walked(next, walk, o[0] as int, j as nat),
    decreases j,
{
    if j > 0 {
        lemma_orbit_walks(next, walk, o, j - 1);
        assert(o[j] == successor(next, walk, o[j - 1] as int));
    }
}

/// An orbit of a permutation holds no half-edge twice.
pub proof fn lemma_orbit_no_duplicates(next: Seq<usize>, walk: Walk, o: Seq<usize>, a: int, b: int)
    requires
        is_permutation(next),
        is_orbit(next, walk, o),
        0 <= a < b < o.len(),
    ensures
        o[a] != o[b],
{
    lemma_orbit_walks(next, walk, o, a);
    lemma_orbit_walks(next, walk, o, b);
    lemma_orbit_walks(next, walk, o, b - a);
    assert(o[0] < next.len());
    if o[a] == o[b] {
        lemma_walk_back(next, walk, o[0] as int, a as nat, b as nat);
        assert(o[0] < o[b - a]);
    }
}

/// The orbits whose first half-edge lies below `seed`, in increasing order
/// of their first half-edges.
pub open spec fn orbits_below(next: Seq<usize>, walk: Walk, seed: nat) -> Seq<Seq<usize>>
    decreases seed,
{
    if seed == 0 {
        Seq::empty()
    } else {
        let before = orbits_below(next, walk, (seed - 1) as nat);
        let orbit = orbit_from(next, walk, seed - 1);
        if orbit[0] == seed - 1 {
            before.push(orbit)
        } else {
            before
        }
    }
}

proof fn lemma_orbits_below(next: Seq<usize>, walk: Walk, seed: nat)
    requires
        is_permutation(next),
        seed <= next.len(),
    ensures
        forall|i: int|
            0 <= i < orbits_below(next, walk, seed).len() ==> is_orbit(
                next,
                walk,
                #[trigger] orbits_below(next, walk, seed)[i],
            ) && orbits_below(next, walk, seed)[i][0] < seed,
        forall|i: int, j: int|
            0 <= i < j < orbits_below(next, walk, seed).len() ==> (#[trigger] orbits_below(
                next,
                walk,
                seed,
            )[i])[0] < (#[trigger] orbits_below(next, walk, seed)[j])[0],
        forall|h: int|
            0 <= h < next.len() && (#[trigger] orbit_from(next, walk, h))[0] < seed ==> exists|
                i: int,
            |
                0 <= i < orbits_below(next, walk, seed).len() && #[trigger] orbits_below(
                    next,
                    walk,
                    seed,
                )[i] == orbit_from(next, walk, h),
    decreases seed,
{
    if seed > 0 {
        let top = seed - 1;
        let before = orbits_below(next, walk, top as nat);
        let all = orbits_below(next, walk, seed);
        let fresh = orbit_from(next, walk, top);
        lemma_orbits_below(next, walk, top as nat);
        lemma_orbit_from(next, walk, top);
        if fresh[0] == top {
            assert(all == before.push(fresh));
            assert forall|i: int| 0 <= i < all.len() implies is_orbit(next, walk, #[trigger] all[i])
                && all[i][0] < seed by {
                if i < before.len() {
                    assert(all[i] == before[i]);
                }
            }
            assert forall|i: int, j: int| 0 <= i < j < all.len() implies (#[trigger] all[i])[0] < (
            #[trigger] all[j])[0] by {
                assert(all[i] == before[i]);
                if j < before.len() {
                    assert(all[j] == before[j]);
                }
            }
            assert forall|h: int|
                0 <= h < next.len() && (#[trigger] orbit_from(next, walk, h))[0]
                    < seed implies exists|i: int|
                0 <= i < all.len() && #[trigger] all[i] == orbit_from(next, walk, h) by {
                let o = orbit_from(next, walk, h);
                lemma_orbit_from(next, walk, h);
                if o[0] < top {
                    let i = choose|i: int| 0 <= i < before.len() && #[trigger] before[i] == o;
                    assert(all[i] == o);
                } else {
                    lemma_orbit_by_first(next, walk, o, fresh);
                    assert(all[before.len() as int] == o);
                }
            }
        } else {
            assert(all == before);
            assert forall|h: int|
                0 <= h < next.len() && (#[trigger] orbit_from(next, walk, h))[0]
                    < seed implies exists|i: int|
                0 <= i < all.len() && #[trigger] all[i] == orbit_from(next, walk, h) by {
                let o = orbit_from(next, walk, h);
                lemma_orbit_from(next, walk, h);
                if o[0] == top {
                    assert(o.contains(top as usize));
                    lemma_orbit_through(next, walk, o, fresh, top as usize);
                    assert(false);
                }
                let i = choose|i: int| 0 <= i < before.len() && #[trigger] before[i] == o;
                assert(all[i] == o);
            }
        }
    }
}

/// The orbits of a permutation are a partition of its half-edges into
/// orbits.
pub proof fn lemma_orbits_exist(next: Seq<usize>, walk: Walk)
    requires
        is_permutation(next),
    ensures
        is_orbit_partition(next, walk, orbits_of(next, walk)),
{
    let all = orbits_below(next, walk, next.len());
    lemma_orbits_below(next, walk, next.len());
    assert forall|h: int| 0 <= h < next.len() implies occurs(all, h) by {
        let o = orbit_from(next, walk, h);
        lemma_orbit_from(next, walk, h);
        assert(orbit_from(next, walk, h)[0] < next.len());
        assert(exists|i: int| 0 <= i < all.len() && #[trigger] all[i] == o);
        let i = choose|i: int| 0 <= i < all.len() && #[trigger] all[i] == o;
        let j = choose|j: int| 0 <= j < o.len() && o[j] == h as usize;
        assert(all[i][j] == h);
    }
    assert forall|i1: int, j1: int, i2: int, j2: int|
        0 <= i1 < all.len() && 0 <= j1 < all[i1].len() && 0 <= i2 < all.len() && 0 <= j2
            < all[i2].len() && #[trigger] all[i1][j1] == #[trigger] all[i2][j2] implies i1 == i2
        && j1 == j2 by {
        let x = all[i1][j1];
        assert(is_orbit(next, walk, all[i1]));
        assert(is_orbit(next, walk, all[i2]));
        assert(all[i1].contains(x));
        assert(all[i2].contains(x));
        lemma_orbit_through(next, walk, all[i1], all[i2], x);
        if i1 < i2 {
            assert(all[i1][0] < all[i2][0]);
        } else if i2 < i1 {
            assert(all[i2][0] < all[i1][0]);
        }
        if j1 < j2 {
            lemma_orbit_no_duplicates(next, walk, all[i1], j1, j2);
        } else if j2 < j1 {
            lemma_orbit_no_duplicates(next, walk, all[i1], j2, j1);
        }
    }
    assert(is_orbit_partition(next, walk, all));
}

/// An orbit that holds the start of a walk along another orbit holds all
/// of that walk.
proof fn lemma_walk_stays(
    next: Seq<usize>,
    walk: Walk,
    o: Seq<usize>,
    path: Seq<usize>,
    t: int,
) -> (at: int)
    requires
        is_orbit(next, walk, o),
        is_orbit(next, walk, path),
        o.contains(path[0]),
        0 <= t < path.len(),
    ensures
        0 <= at < o.len(),
        o[at] == path[t],
    decreases t,
{
    if t == 0 {
        choose|at: int| 0 <= at < o.len() && o[at] == path[0]
    } else {
        let before = lemma_walk_stays(next, walk, o, path, t - 1);
        assert(path[t] == successor(next, walk, path[t - 1] as int));
        if before < o.len() - 1 {
            assert(o[before + 1] == successor(next, walk, o[before] as int));
            before + 1
        } else {
            0
        }
    }
}

/// The first half-edge of an orbit of one partition is the first
/// half-edge of an orbit of every other.
proof fn lemma_first_is_first(
    next: Seq<usize>,
    walk: Walk,
    a: Seq<Seq<usize>>,
    b: Seq<Seq<usize>>,
    i: int,
) -> (k: int)
    requires
        is_orbit_partition(next, walk, a),
        is_orbit_partition(next, walk, b),
        0 <= i < a.len(),
    ensures
        0 <= k < b.len(),
        b[k] == a[i],
{
    assert(is_orbit(next, walk, a[i]));
    let h = a[i][0];
    assert(a[i][0] < next.len());
    assert(occurs(b, h as int));
    let (k, j) = choose|k: int, j: int|
        0 <= k < b.len() && 0 <= j < b[k].len() && #[trigger] b[k][j] == h;
    assert(is_orbit(next, walk, b[k]));
    if j > 0 {
        let m = b[k][0];
        assert(m < h);
        assert(b[k][0] < next.len());
        assert(occurs(a, m as int));
        let (u, v) = choose|u: int, v: int|
            0 <= u < a.len() && 0 <= v < a[u].len() && #[trigger] a[u][v] == m;
        assert(is_orbit(next, walk, a[u]));
        assert(a[u].contains(b[k][0]));
        let at = lemma_walk_stays(next, walk, a[u], b[k], j);
        assert(a[u][at] == a[i][0]);
        assert(u == i && at == 0);
        assert(a[i][v] == m);
        if v > 0 {
            assert(a[i][0] < a[i][v]);
        }
        assert(false);
    }
    lemma_orbit_by_first(next, walk, a[i], b[k]);
    k
}

/// Two partitions into orbits agree orbit by orbit.
proof fn lemma_partitions_agree(
    next: Seq<usize>,
    walk: Walk,
    a: Seq<Seq<usize>>,
    b: Seq<Seq<usize>>,
    i: int,
)
    requires
        is_orbit_partition(next, walk, a),
        is_orbit_partition(next, walk, b),
        0 <= i < a.len(),
    ensures
        i < b.len(),
        a[i] == b[i],
    decreases i,
{
    let k = lemma_first_is_first(next, walk, a, b, i);
    if k < i {
        lemma_partitions_agree(next, walk, a, b, k);
        assert(a[k][0] < a[i][0]);
        assert(false);
    }
    if k > i {
        let u = lemma_first_is_first(next, walk, b, a, i);
        if u < i {
            lemma_partitions_agree(next, walk, a, b, u);
            assert(b[u][0] < b[i][0]);
            assert(false);
        }
        if u > i {
            assert(a[i][0] < a[u][0]);
            assert(b[i][0] < b[k][0]);
            assert(false);
        }
    }
}

/// A walk has one partition into orbits, and no other.
pub proof fn lemma_orbits_unique(next: Seq<usize>, walk: Walk, orbits: Seq<Seq<usize>>)
    requires
        is_orbit_partition(next, walk, orbits),
    ensures
        orbits == orbits_of(next, walk),
{
    let other = orbits_of(next, walk);
    assert(is_orbit_partition(next, walk, other));
    if orbits.len() > 0 {
        lemma_partitions_agree(next, walk, orbits, other, orbits.len() - 1);
    }
    if other.len() > 0 {
        lemma_partitions_agree(next, walk, other, orbits, other.len() - 1);
    }
    assert forall|i: int| 0 <= i < orbits.len() implies orbits[i] == other[i] by {
        lemma_partitions_agree(next, walk, orbits, other, i);
    }
    assert(orbits =~= other);
}

/// In a partition into orbits, every half-edge has one owner: the orbit in
/// which it stands.
pub proof fn lemma_owner(next: Seq<usize>, walk: Walk, orbits: Seq<Seq<usize>>, h: int)
    requires
        is_orbit_partition(next, walk, orbits),
        0 <= h < next.len(),
    ensures
        owns(orbits, owner(orbits, h), h),
        forall|i: int| owns(orbits, i, h) ==> i == owner(orbits, h),
{
    assert(occurs(orbits, h));
    let (a, b) = choose|a: int, b: int|
        0 <= a < orbits.len() && 0 <= b < orbits[a].len() && #[trigger] orbits[a][b] == h;
    assert(owns(orbits, a, h));
    let o = owner(orbits, h);
    assert forall|i: int| owns(orbits, i, h) implies i == o by {
        let x = choose|x: int| 0 <= x < orbits[i].len() && #[trigger] orbits[i][x] == h;
        let y = choose|y: int| 0 <= y < orbits[o].len() && #[trigger] orbits[o][y] == h;
        assert(orbits[i][x] == orbits[o][y]);
    }
}

proof fn lemma_firsts_grow(next: Seq<usize>, walk: Walk, orbits: Seq<Seq<usize>>, i: int)
    requires
        is_orbit_partition(next, walk, orbits),
        0 <= i < orbits.len(),
    ensures
        orbits[i][0] >= i,
    decreases i,
{
    if i > 0 {
        lemma_firsts_grow(next, walk, orbits, i - 1);
        assert(orbits[i - 1][0] < orbits[i][0]);
    }
}

/// A partition of `n` half-edges has at most `n` orbits.
pub proof fn lemma_orbit_count(next: Seq<usize>, walk: Walk, orbits: Seq<Seq<usize>>)
    requires
        is_orbit_partition(next, walk, orbits),
    ensures
        orbits.len() <= next.len(),
{
    if orbits.len() > 0 {
        let last = orbits.len() - 1;
        lemma_firsts_grow(next, walk, orbits, last);
        assert(is_orbit(next, walk, orbits[last]));
        assert(orbits[last][0] < next.len());
    }
}

} // verus!
