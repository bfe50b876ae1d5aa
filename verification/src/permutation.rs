//! Orbits of a half-edge permutation.
//!
//! A mesh of `n` half-edges is given by one array `next`: `next[h]` is the
//! half-edge that follows `h` around its face. Half-edges come in twin pairs
//! `(2k, 2k + 1)`. Walking `h -> next[h]` runs around a face; walking
//! `h -> next[twin(h)]` rotates around a vertex. The cycles of these two maps
//! are the faces and the vertices of the mesh.

use crate::cycles::lemma_orbits_unique;
use crate::error::MeshError;
use vstd::prelude::*;

verus! {

/// The twin of half-edge `h`: the same edge with the opposite orientation.
pub open spec fn twin_of(h: int) -> int {
    if h % 2 == 0 {
        h + 1
    } else {
        h - 1
    }
}

/// Twins pair up the indices below any even bound, and pairing twice gives
/// back the half-edge.
pub proof fn lemma_twin_involution(h: int, n: int)
    requires
        0 <= h < n,
        n % 2 == 0,
    ensures
        0 <= twin_of(h) < n,
        twin_of(h) != h,
        twin_of(twin_of(h)) == h,
{
}

/// The twin of a half-edge index, which is the index with its lowest bit
/// flipped. Every index has a twin; the twins of the indices below an even
/// bound lie below that bound.
pub fn twin(index: usize) -> (t: usize)
    ensures
        t == twin_of(index as int),
        t == index ^ 1,
{
    assert(index % 2 == 0 ==> index + 1 == index ^ 1) by (bit_vector);
    assert(index % 2 != 0 ==> index - 1 == index ^ 1) by (bit_vector);
    if index % 2 == 0 {
        index + 1
    } else {
        index - 1
    }
}

/// `k` is the first position of `s` that holds its minimum.
pub open spec fn is_first_min(s: Seq<usize>, k: int) -> bool {
    &&& 0 <= k < s.len()
    &&& forall|j: int| 0 <= j < s.len() ==> s[k] <= s[j]
    &&& forall|j: int| 0 <= j < k ==> s[k] < s[j]
}

/// The first position of `s` that holds its minimum.
pub open spec fn first_min(s: Seq<usize>) -> int {
    choose|k: int| is_first_min(s, k)
}

/// `s` read cyclically from position `k` on.
pub open spec fn rotate(s: Seq<usize>, k: int) -> Seq<usize> {
    s.subrange(k, s.len() as int) + s.subrange(0, k)
}

/// The canonical form of a cyclic sequence: rotated so that its minimum
/// comes first.
pub open spec fn canonical(s: Seq<usize>) -> Seq<usize> {
    rotate(s, first_min(s))
}

/// A sequence that starts with its minimum.
pub open spec fn is_canonical(s: Seq<usize>) -> bool {
    &&& s.len() > 0
    &&& forall|j: int| 0 <= j < s.len() ==> s[0] <= #[trigger] s[j]
}

/// Position `a` of `s` holds a minimum of `s`.
pub open spec fn is_min_at(s: Seq<usize>, a: int) -> bool {
    &&& 0 <= a < s.len()
    &&& forall|j: int| 0 <= j < s.len() ==> s[a] <= s[j]
}

/// The cyclic sequence reads the same from each of its minima. This holds
/// in particular when the minimum occurs once.
pub open spec fn minima_alike(s: Seq<usize>) -> bool {
    forall|a: int, b: int| is_min_at(s, a) && is_min_at(s, b) ==> rotate(s, a) == rotate(s, b)
}

proof fn lemma_prefix_min(s: Seq<usize>, n: int) -> (k: int)
    requires
        0 < n <= s.len(),
    ensures
        0 <= k < n,
        forall|j: int| 0 <= j < n ==> s[k] <= s[j],
        forall|j: int| 0 <= j < k ==> s[k] < s[j],
    decreases n,
{
    if n == 1 {
        0
    } else {
        let k = lemma_prefix_min(s, n - 1);
        if s[n - 1] < s[k] {
            n - 1
        } else {
            k
        }
    }
}

/// Every non-empty sequence has a first minimum, and only one.
pub proof fn lemma_first_min(s: Seq<usize>)
    requires
        s.len() > 0,
    ensures
        is_first_min(s, first_min(s)),
        forall|k: int| is_first_min(s, k) ==> k == first_min(s),
{
    let k = lemma_prefix_min(s, s.len() as int);
    assert(is_first_min(s, k));
}

/// The canonical form is a rotation that starts with the minimum of the
/// sequence.
pub proof fn lemma_canonical_starts_with_minimum(s: Seq<usize>)
    requires
        s.len() > 0,
    ensures
        canonical(s).len() == s.len(),
        is_canonical(canonical(s)),
        s.contains(canonical(s)[0]),
        forall|j: int| 0 <= j < s.len() ==> canonical(s)[0] <= #[trigger] s[j],
{
    lemma_first_min(s);
    let k = first_min(s);
    let c = canonical(s);
    assert(c[0] == s[k]);
    assert forall|j: int| 0 <= j < c.len() implies c[0] <= #[trigger] c[j] by {
        if j < s.len() - k {
            assert(c[j] == s[k + j]);
        } else {
            assert(c[j] == s[j - (s.len() - k)]);
        }
    }
}

/// Rotating twice is rotating once by the sum, taken around the cycle.
pub proof fn lemma_rotate_rotate(s: Seq<usize>, a: int, b: int)
    requires
        0 <= a < s.len(),
        0 <= b < s.len(),
    ensures
        rotate(rotate(s, a), b) == rotate(
            s,
            if a + b < s.len() {
                a + b
            } else {
                a + b - s.len()
            },
        ),
{
    let n = s.len() as int;
    let c = if a + b < n {
        a + b
    } else {
        a + b - n
    };
    let lhs = rotate(rotate(s, a), b);
    let rhs = rotate(s, c);
    assert(lhs.len() == rhs.len());
    assert forall|i: int| 0 <= i < n implies lhs[i] == rhs[i] by {
        let r = rotate(s, a);
        let at = if i < n - b {
            b + i
        } else {
            i - (n - b)
        };
        assert(lhs[i] == r[at]);
    }
    assert(lhs =~= rhs);
}

/// The canonical form does not depend on where the cycle is cut: for every
/// rotation of a sequence that reads the same from each of its minima, the
/// rotation and the sequence have the same canonical form.
pub proof fn lemma_canonical_rotation_invariant(s: Seq<usize>, k: int)
    requires
        0 <= k < s.len(),
        minima_alike(s),
    ensures
        canonical(rotate(s, k)) == canonical(s),
{
    let n = s.len() as int;
    let r = rotate(s, k);
    lemma_first_min(s);
    lemma_first_min(r);
    let m = first_min(s);
    let mr = first_min(r);
    let p = if k + mr < n {
        k + mr
    } else {
        k + mr - n
    };
    lemma_rotate_rotate(s, k, mr);
    assert(r[mr] == s[p]);
    assert forall|j: int| 0 <= j < n implies s[p] <= s[j] by {
        let at = if j >= k {
            j - k
        } else {
            j + (n - k)
        };
        assert(r[at] == s[j]);
    }
    assert(is_min_at(s, p));
    assert(is_min_at(s, m));
}

/// A sequence whose minimum occurs once reads the same from each of its
/// minima.
pub proof fn lemma_single_minimum_alike(s: Seq<usize>)
    requires
        forall|a: int, b: int| is_min_at(s, a) && is_min_at(s, b) ==> a == b,
    ensures
        minima_alike(s),
{
}

/// `a` and `b` agree before position `k`, and there `a` ends or is smaller.
pub open spec fn differ_first_at(a: Seq<usize>, b: Seq<usize>, k: int) -> bool {
    &&& 0 <= k <= a.len()
    &&& k < b.len()
    &&& forall|j: int| 0 <= j < k ==> a[j] == b[j]
    &&& (k == a.len() || a[k] < b[k])
}

/// `a` comes before `b` in lexicographic order.
pub open spec fn lex_less(a: Seq<usize>, b: Seq<usize>) -> bool {
    exists|k: int| differ_first_at(a, b, k)
}

/// Where two sequences agree before position `k`, what stands at `k`
/// decides their order.
pub proof fn lemma_lex_decided(a: Seq<usize>, b: Seq<usize>, k: usize)
    requires
        k <= a.len(),
        k <= b.len(),
        forall|j: int| 0 <= j < k ==> a[j] == b[j],
    ensures
        k < a.len() && k < b.len() && a[k as int] < b[k as int] ==> lex_less(a, b) && a != b,
        k < a.len() && k < b.len() && a[k as int] > b[k as int] ==> !lex_less(a, b) && a != b,
        k == a.len() && k < b.len() ==> lex_less(a, b) && a != b,
        k < a.len() && k == b.len() ==> !lex_less(a, b) && a != b,
        k == a.len() && k == b.len() ==> a == b,
{
    let at = k as int;
    if at == a.len() && at == b.len() {
        assert(a =~= b);
    } else if at == a.len() || (at < b.len() && a[at] < b[at]) {
        assert(differ_first_at(a, b, at));
    } else if at == b.len() || a[at] > b[at] {
        assert forall|w: int| !differ_first_at(a, b, w) by {
            if differ_first_at(a, b, w) {
                if w > at {
                    assert(a[at] == b[at]);
                } else if w < at {
                    assert(a[w] == b[w]);
                }
            }
        }
    }
}

/// A cycle of half-edges, stored with its minimum first.
#[derive(Debug, Ord)]
pub struct Orbit {
    /// rotated so that the minimum comes first
    edges: Vec<usize>,
}

impl View for Orbit {
    type V = Seq<usize>;

    closed spec fn view(&self) -> Seq<usize> {
        self.edges@
    }
}

impl Orbit {
    #[verifier::type_invariant]
    spec fn well_formed(&self) -> bool {
        is_canonical(self.edges@)
    }

    /// The orbit through the half-edges `edges`, which are listed in cyclic
    /// order starting anywhere.
    pub fn new(edges: &[usize]) -> (o: Self)
        requires
            edges@.len() > 0,
        ensures
            o@ == canonical(edges@),
            o@.len() == edges@.len(),
            forall|j: int| 0 <= j < edges@.len() ==> o@[0] <= #[trigger] edges@[j],
    {
        let n = edges.len();
        let mut argmin: usize = 0;
        let mut min: usize = edges[0];
        let mut i: usize = 1;
        while i < n
            invariant
                n == edges@.len(),
                1 <= i <= n,
                argmin < i,
                min == edges@[argmin as int],
                forall|j: int| 0 <= j < i ==> min <= edges@[j],
                forall|j: int| 0 <= j < argmin ==> min < edges@[j],
            decreases n - i,
        {
            if min > edges[i] {
                argmin = i;
                min = edges[i];
            }
            i += 1;
        }
        proof {
            assert(is_first_min(edges@, argmin as int));
            lemma_first_min(edges@);
            lemma_canonical_starts_with_minimum(edges@);
        }
        let mut rotated: Vec<usize> = Vec::with_capacity(n);
        let mut j: usize = argmin;
        while j < n
            invariant
                n == edges@.len(),
                argmin <= j <= n,
                rotated@ == edges@.subrange(argmin as int, j as int),
            decreases n - j,
        {
            rotated.push(edges[j]);
            assert(rotated@ =~= edges@.subrange(argmin as int, j + 1));
            j += 1;
        }
        let mut j: usize = 0;
        while j < argmin
            invariant
                n == edges@.len(),
                j <= argmin < n,
                rotated@ == edges@.subrange(argmin as int, n as int) + edges@.subrange(0, j as int),
            decreases argmin - j,
        {
            rotated.push(edges[j]);
            assert(rotated@ =~= edges@.subrange(argmin as int, n as int) + edges@.subrange(
                0,
                j + 1,
            ));
            j += 1;
        }
        Orbit { edges: rotated }
    }

    /// The half-edges of the orbit in cyclic order, the smallest first.
    pub fn indices(&self) -> (s: &[usize])
        ensures
            s@ == self@,
            is_canonical(self@),
    {
        proof {
            use_type_invariant(self);
        }
        self.edges.as_slice()
    }
}

impl Clone for Orbit {
    fn clone(&self) -> (o: Self)
        ensures
            o@ == self@,
    {
        proof {
            use_type_invariant(self);
        }
        let edges = self.edges.clone();
        assert(edges@ =~= self.edges@);
        Orbit { edges }
    }
}

/// The two walks over the half-edges: around a face, or around a vertex.
#[derive(Debug, Clone, Copy, PartialEq, Eq, Structural)]
pub enum Walk {
    /// `h -> next[h]`
    Face,
    /// `h -> next[twin(h)]`
    Vertex,
}

/// The half-edge that the walk reaches from `h` in one step.
pub open spec fn successor(next: Seq<usize>, walk: Walk, h: int) -> int {
    match walk {
        Walk::Face => next[h] as int,
        Walk::Vertex => next[twin_of(h)] as int,
    }
}

/// `next` has even length and is a permutation of its own indices.
pub open spec fn is_permutation(next: Seq<usize>) -> bool {
    &&& next.len() % 2 == 0
    &&& forall|i: int| 0 <= i < next.len() ==> next[i] < next.len()
    &&& forall|i: int, j: int| 0 <= i < j < next.len() ==> next[i] != next[j]
}

/// An array of odd length, or with an entry that is no index of the array,
/// or with an entry that stands at two places, is no permutation.
pub proof fn lemma_malformed_is_no_permutation(next: Seq<usize>)
    ensures
        next.len() % 2 != 0 ==> !is_permutation(next),
        (exists|i: int| 0 <= i < next.len() && next[i] >= next.len()) ==> !is_permutation(next),
        (exists|i: int, j: int| 0 <= i < j < next.len() && next[i] == next[j]) ==> !is_permutation(
            next,
        ),
{
}

/// In a permutation no two half-edges have the same successor.
pub proof fn lemma_successor_injective(next: Seq<usize>, walk: Walk, a: int, b: int)
    requires
        is_permutation(next),
        0 <= a < next.len(),
        0 <= b < next.len(),
        successor(next, walk, a) == successor(next, walk, b),
    ensures
        a == b,
{
    let n = next.len() as int;
    lemma_twin_involution(a, n);
    lemma_twin_involution(b, n);
}

/// `c` is a whole cycle of the walk, listed in walking order from any of
/// its half-edges.
pub open spec fn is_cycle(next: Seq<usize>, walk: Walk, c: Seq<usize>) -> bool {
    &&& c.len() > 0
    &&& forall|j: int| 0 <= j < c.len() ==> #[trigger] c[j] < next.len()
    &&& forall|j: int|
        0 <= j < c.len() - 1 ==> c[j + 1] == #[trigger] successor(next, walk, c[j] as int)
    &&& successor(next, walk, c[c.len() - 1] as int) == c[0]
    &&& forall|a: int, b: int| 0 <= a < b < c.len() ==> #[trigger] c[a] != #[trigger] c[b]
}

/// `o` is a whole cycle of the walk, listed in walking order from its
/// smallest half-edge.
pub open spec fn is_orbit(next: Seq<usize>, walk: Walk, o: Seq<usize>) -> bool {
    &&& o.len() > 0
    &&& forall|j: int| 0 <= j < o.len() ==> #[trigger] o[j] < next.len()
    &&& forall|j: int|
        0 <= j < o.len() - 1 ==> o[j + 1] == #[trigger] successor(next, walk, o[j] as int)
    &&& successor(next, walk, o[o.len() - 1] as int) == o[0]
    &&& forall|j: int| 0 < j < o.len() ==> o[0] < #[trigger] o[j]
}

/// A cycle read from its smallest half-edge on is an orbit.
pub proof fn lemma_canonical_cycle_is_orbit(next: Seq<usize>, walk: Walk, c: Seq<usize>)
    requires
        is_cycle(next, walk, c),
    ensures
        is_orbit(next, walk, canonical(c)),
        forall|h: usize| c.contains(h) <==> canonical(c).contains(h),
{
    lemma_first_min(c);
    let n = c.len() as int;
    let k = first_min(c);
    let r = canonical(c);
    assert(r.len() == n);
    assert forall|j: int| 0 <= j < n implies r[j] == c[if j < n - k {
        k + j
    } else {
        j - (n - k)
    }] by {}
    assert forall|j: int| 0 <= j < r.len() implies #[trigger] r[j] < next.len() by {
        let at = if j < n - k {
            k + j
        } else {
            j - (n - k)
        };
        assert(r[j] == c[at]);
    }
    assert forall|j: int| 0 <= j < r.len() - 1 implies r[j + 1] == #[trigger] successor(
        next,
        walk,
        r[j] as int,
    ) by {
        if j < n - k - 1 {
            assert(r[j] == c[k + j]);
            assert(r[j + 1] == c[k + j + 1]);
            assert(c[k + j + 1] == successor(next, walk, c[k + j] as int));
        } else if j == n - k - 1 {
            assert(r[j] == c[n - 1]);
            assert(r[j + 1] == c[0]);
        } else {
            let at = j - (n - k);
            assert(r[j] == c[at]);
            assert(r[j + 1] == c[at + 1]);
            assert(c[at + 1] == successor(next, walk, c[at] as int));
        }
    }
    assert(successor(next, walk, r[r.len() - 1] as int) == r[0]) by {
        assert(r[0] == c[k]);
        if k == 0 {
            assert(r[n - 1] == c[n - 1]);
        } else {
            assert(r[n - 1] == c[k - 1]);
            assert(c[k] == successor(next, walk, c[k - 1] as int));
        }
    }
    assert forall|j: int| 0 < j < r.len() implies r[0] < #[trigger] r[j] by {
        let at = if j < n - k {
            k + j
        } else {
            j - (n - k)
        };
        assert(r[j] == c[at]);
        assert(r[0] == c[k]);
        assert(c[k] <= c[at]);
        if at < k {
            assert(c[at] != c[k]);
        } else {
            assert(c[k] != c[at]);
        }
    }
    assert forall|h: usize| c.contains(h) <==> r.contains(h) by {
        if c.contains(h) {
            let at = choose|at: int| 0 <= at < n && c[at] == h;
            let j = if at >= k {
                at - k
            } else {
                at + (n - k)
            };
            assert(r[j] == h);
        }
        if r.contains(h) {
            let j = choose|j: int| 0 <= j < n && r[j] == h;
            let at = if j < n - k {
                k + j
            } else {
                j - (n - k)
            };
            assert(c[at] == h);
        }
    }
}

/// Half-edge `h` stands somewhere in one of the orbits.
pub open spec fn occurs(orbits: Seq<Seq<usize>>, h: int) -> bool {
    exists|i: int, j: int|
        0 <= i < orbits.len() && 0 <= j < orbits[i].len() && #[trigger] orbits[i][j] == h
}

/// `orbits` lists the cycles of the walk: each entry is an orbit, the
/// entries come in increasing order of their first half-edge, and every
/// half-edge stands at exactly one place in exactly one entry.
pub open spec fn is_orbit_partition(next: Seq<usize>, walk: Walk, orbits: Seq<Seq<usize>>) -> bool {
    &&& forall|i: int| 0 <= i < orbits.len() ==> is_orbit(next, walk, #[trigger] orbits[i])
    &&& forall|i: int, j: int|
        0 <= i < j < orbits.len() ==> (#[trigger] orbits[i])[0] < (#[trigger] orbits[j])[0]
    &&& forall|h: int| 0 <= h < next.len() ==> occurs(orbits, h)
    &&& forall|i1: int, j1: int, i2: int, j2: int|
        0 <= i1 < orbits.len() && 0 <= j1 < orbits[i1].len() && 0 <= i2 < orbits.len() && 0 <= j2
            < orbits[i2].len() && #[trigger] orbits[i1][j1] == #[trigger] orbits[i2][j2] ==> i1
            == i2 && j1 == j2
}

/// The half-edge sequences of a list of orbits.
pub open spec fn orbit_seqs(orbits: Seq<Orbit>) -> Seq<Seq<usize>> {
    Seq::new(orbits.len(), |i: int| orbits[i]@)
}

/// The cycles of the walk over `next`, each listed from its smallest
/// half-edge on, in increasing order of their smallest half-edges.
pub open spec fn orbits_of(next: Seq<usize>, walk: Walk) -> Seq<Seq<usize>> {
    choose|orbits: Seq<Seq<usize>>| is_orbit_partition(next, walk, orbits)
}

/// Orbit `i` holds half-edge `h`.
pub open spec fn owns(orbits: Seq<Seq<usize>>, i: int, h: int) -> bool {
    0 <= i < orbits.len() && exists|j: int|
        0 <= j < orbits[i].len() && #[trigger] orbits[i][j] == h
}

/// The index of the orbit that holds half-edge `h`.
pub open spec fn owner(orbits: Seq<Seq<usize>>, h: int) -> int {
    choose|i: int| owns(orbits, i, h)
}

/// The orbits come in lexicographic order: each differs from the next at
/// its first half-edge, and is smaller there.
pub proof fn lemma_orbits_ascend(next: Seq<usize>, walk: Walk, orbits: Seq<Seq<usize>>)
    requires
        is_orbit_partition(next, walk, orbits),
    ensures
        forall|i: int, j: int|
            0 <= i < j < orbits.len() ==> lex_less(#[trigger] orbits[i], #[trigger] orbits[j]),
{
    assert forall|i: int, j: int| 0 <= i < j < orbits.len() implies lex_less(
        #[trigger] orbits[i],
        #[trigger] orbits[j],
    ) by {
        assert(is_orbit(next, walk, orbits[i]));
        assert(is_orbit(next, walk, orbits[j]));
        assert(differ_first_at(orbits[i], orbits[j], 0));
    }
}

/// Tells whether `next` has even length and is a permutation of its indices.
pub fn is_valid_permutation(next: &[usize]) -> (b: bool)
    ensures
        b == is_permutation(next@),
{
    let n = next.len();
    if n % 2 != 0 {
        return false;
    }
    let mut seen: Vec<bool> = vec![false; n];
    let mut i: usize = 0;
    while i < n
        invariant
            n == next@.len(),
            seen@.len() == n,
            i <= n,
            forall|k: int| 0 <= k < i ==> next@[k] < n,
            forall|a: int, b: int| 0 <= a < b < i ==> next@[a] != next@[b],
            forall|v: int|
                0 <= v < n ==> (#[trigger] seen@[v] <==> exists|k: int|
                    0 <= k < i && next@[k] == v),
        decreases n - i,
    {
        let target = next[i];
        if target >= n {
            return false;
        }
        if seen[target] {
            proof {
                let k = choose|k: int| 0 <= k < i && next@[k] == target;
                assert(next@[k] == next@[i as int]);
            }
            return false;
        }
        seen[target] = true;
        i += 1;
    }
    true
}

/// How many entries of `marks` are still `false`.
spec fn unmarked(marks: Seq<bool>) -> nat
    decreases marks.len(),
{
    if marks.len() == 0 {
        0
    } else {
        unmarked(marks.drop_last()) + if marks.last() {
            0nat
        } else {
            1nat
        }
    }
}

proof fn lemma_mark_one(marks: Seq<bool>, i: int)
    requires
        0 <= i < marks.len(),
        !marks[i],
    ensures
        unmarked(marks.update(i, true)) + 1 == unmarked(marks),
    decreases marks.len(),
{
    let after = marks.update(i, true);
    if i == marks.len() - 1 {
        assert(after.drop_last() =~= marks.drop_last());
    } else {
        assert(after.drop_last() =~= marks.drop_last().update(i, true));
        lemma_mark_one(marks.drop_last(), i);
    }
}

proof fn lemma_occurs_push(orbits: Seq<Seq<usize>>, o: Seq<usize>, h: int)
    ensures
        occurs(orbits.push(o), h) <==> occurs(orbits, h) || exists|k: int|
            0 <= k < o.len() && o[k] == h,
{
    let more = orbits.push(o);
    if occurs(orbits, h) {
        let (i, j) = choose|i: int, j: int|
            0 <= i < orbits.len() && 0 <= j < orbits[i].len() && #[trigger] orbits[i][j] == h;
        assert(more[i][j] == h);
    }
    if exists|k: int| 0 <= k < o.len() && o[k] == h {
        let k = choose|k: int| 0 <= k < o.len() && o[k] == h;
        assert(more[orbits.len() as int][k] == h);
    }
    if occurs(more, h) {
        let (i, j) = choose|i: int, j: int|
            0 <= i < more.len() && 0 <= j < more[i].len() && #[trigger] more[i][j] == h;
        if i < orbits.len() {
            assert(orbits[i][j] == h);
        } else {
            assert(o[j] == h);
        }
    }
}

fn step(next: &[usize], walk: Walk, h: usize) -> (r: usize)
    requires
        is_permutation(next@),
        h < next@.len(),
    ensures
        r == successor(next@, walk, h as int),
        r < next@.len(),
{
    proof {
        lemma_twin_involution(h as int, next@.len() as int);
    }
    match walk {
        Walk::Face => next[h],
        Walk::Vertex => next[twin(h)],
    }
}

/// Walks from `seed`, which no finished cycle holds, until the walk is back
/// at `seed`, and marks what it passes.
fn trace(
    next: &[usize],
    walk: Walk,
    seed: usize,
    visited: &mut Vec<bool>,
    Ghost(done): Ghost<Seq<Seq<usize>>>,
) -> (orbit: Vec<usize>)
    requires
        is_permutation(next@),
        seed < next@.len(),
        old(visited)@.len() == next@.len(),
        !old(visited)@[seed as int],
        forall|i: int| 0 <= i < done.len() ==> is_cycle(next@, walk, #[trigger] done[i]),
        forall|h: int| 0 <= h < next@.len() ==> (#[trigger] old(visited)@[h] <==> occurs(done, h)),
    ensures
        is_cycle(next@, walk, orbit@),
        orbit@[0] == seed,
        final(visited)@.len() == next@.len(),
        forall|h: int|
            0 <= h < next@.len() ==> (#[trigger] final(visited)@[h] <==> old(visited)@[h]
                || exists|k: int| 0 <= k < orbit@.len() && orbit@[k] == h),
        forall|k: int| 0 <= k < orbit@.len() ==> !old(visited)@[#[trigger] orbit@[k] as int],
{
    let ghost before = visited@;
    let ghost n = next@.len() as int;
    let mut orbit: Vec<usize> = Vec::new();
    orbit.push(seed);
    visited[seed] = true;
    let mut current = step(next, walk, seed);
    proof {
        assert forall|h: int| 0 <= h < n implies (#[trigger] visited@[h] <==> before[h]
            || exists|k: int| 0 <= k < orbit@.len() && orbit@[k] == h) by {
            if h == seed {
                assert(orbit@[0] == h);
            }
        }
    }
    while current != seed
        invariant
            is_permutation(next@),
            n == next@.len(),
            seed < n,
            before.len() == n,
            visited@.len() == n,
            forall|i: int| 0 <= i < done.len() ==> is_cycle(next@, walk, #[trigger] done[i]),
            forall|h: int| 0 <= h < n ==> (#[trigger] before[h] <==> occurs(done, h)),
            orbit@.len() > 0,
            orbit@[0] == seed,
            current < n,
            current == successor(next@, walk, orbit@[orbit@.len() - 1] as int),
            forall|j: int| 0 <= j < orbit@.len() ==> #[trigger] orbit@[j] < n,
            forall|j: int|
                0 <= j < orbit@.len() - 1 ==> orbit@[j + 1] == #[trigger] successor(
                    next@,
                    walk,
                    orbit@[j] as int,
                ),
            forall|a: int, b: int|
                0 <= a < b < orbit@.len() ==> #[trigger] orbit@[a] != #[trigger] orbit@[b],
            forall|k: int| 0 <= k < orbit@.len() ==> !before[#[trigger] orbit@[k] as int],
            forall|h: int|
                0 <= h < n ==> (#[trigger] visited@[h] <==> before[h] || exists|k: int|
                    0 <= k < orbit@.len() && orbit@[k] == h),
        decreases unmarked(visited@),
    {
        let ghost len = orbit@.len() as int;
        let ghost last = orbit@[len - 1] as int;
        proof {
            if visited@[current as int] {
                if before[current as int] {
                    let (i, j) = choose|i: int, j: int|
                        0 <= i < done.len() && 0 <= j < done[i].len() && #[trigger] done[i][j]
                            == current;
                    let o = done[i];
                    let pj = if j == 0 {
                        o.len() - 1
                    } else {
                        j - 1
                    };
                    assert(o[pj] < n);
                    assert(successor(next@, walk, o[pj] as int) == o[j]);
                    lemma_successor_injective(next@, walk, o[pj] as int, last);
                    assert(done[i][pj] == last);
                    assert(occurs(done, last));
                    assert(before[last]);
                    assert(false);
                } else {
                    let k = choose|k: int| 0 <= k < len && orbit@[k] == current;
                    assert(k > 0);
                    assert(orbit@[k - 1] < n);
                    assert(successor(next@, walk, orbit@[k - 1] as int) == orbit@[k]);
                    lemma_successor_injective(next@, walk, orbit@[k - 1] as int, last);
                    assert(false);
                }
            }
            lemma_mark_one(visited@, current as int);
        }
        let ghost marks = visited@;
        let ghost path = orbit@;
        visited[current] = true;
        orbit.push(current);
        proof {
            assert(orbit@[len] == current);
            assert forall|h: int| 0 <= h < n implies (#[trigger] visited@[h] <==> before[h]
                || exists|k: int| 0 <= k < orbit@.len() && orbit@[k] == h) by {
                if h == current {
                } else if marks[h] && !before[h] {
                    let k = choose|k: int| 0 <= k < path.len() && path[k] == h;
                    assert(orbit@[k] == h);
                } else if exists|k: int| 0 <= k < orbit@.len() && orbit@[k] == h {
                    let k = choose|k: int| 0 <= k < orbit@.len() && orbit@[k] == h;
                    assert(path[k] == h);
                }
            }
        }
        current = step(next, walk, current);
    }
    orbit
}

/// The cycle of the walk through `init`, listed from `init` on.
pub(crate) fn cycle_through(next: &[usize], walk: Walk, init: usize) -> (cycle: Vec<usize>)
    requires
        is_permutation(next@),
        init < next@.len(),
    ensures
        is_cycle(next@, walk, cycle@),
        cycle@[0] == init,
{
    let mut visited: Vec<bool> = vec![false; next.len()];
    trace(next, walk, init, &mut visited, Ghost(Seq::empty()))
}

/// The cycles of the walk over a permutation. Half-edges that a cycle has
/// passed are marked, so that each half-edge is walked over once.
pub(crate) fn orbits_of_permutation(next: &[usize], walk: Walk) -> (out: Vec<Orbit>)
    requires
        is_permutation(next@),
    ensures
        orbit_seqs(out@) == orbits_of(next@, walk),
        is_orbit_partition(next@, walk, orbit_seqs(out@)),
{
    let n = next.len();
    let mut visited: Vec<bool> = vec![false; n];
    let mut out: Vec<Orbit> = Vec::new();
    let mut seed: usize = 0;
    while seed < n
        invariant
            is_permutation(next@),
            n == next@.len(),
            seed <= n,
            visited@.len() == n,
            forall|i: int|
                0 <= i < out@.len() ==> is_orbit(next@, walk, #[trigger] orbit_seqs(out@)[i]),
            forall|i: int, j: int|
                0 <= i < j < out@.len() ==> (#[trigger] orbit_seqs(out@)[i])[0] < (
                #[trigger] orbit_seqs(out@)[j])[0],
            forall|i: int| 0 <= i < out@.len() ==> (#[trigger] orbit_seqs(out@)[i])[0] < seed,
            forall|h: int| 0 <= h < n ==> (#[trigger] visited@[h] <==> occurs(orbit_seqs(out@), h)),
            forall|h: int| 0 <= h < seed ==> #[trigger] visited@[h],
            forall|i1: int, j1: int, i2: int, j2: int|
                0 <= i1 < out@.len() && 0 <= j1 < orbit_seqs(out@)[i1].len() && 0 <= i2
                    < out@.len() && 0 <= j2 < orbit_seqs(out@)[i2].len()
                    && #[trigger] orbit_seqs(out@)[i1][j1] == #[trigger] orbit_seqs(
                    out@,
                )[i2][j2] ==> i1 == i2 && j1 == j2,
        decreases n - seed,
    {
        if !visited[seed] {
            let ghost done = orbit_seqs(out@);
            let ghost before = visited@;
            proof {
                assert forall|i: int| 0 <= i < done.len() implies is_cycle(
                    next@,
                    walk,
                    #[trigger] done[i],
                ) by {
                    assert(is_orbit(next@, walk, done[i]));
                    assert forall|a: int, b: int| 0 <= a < b < done[i].len() implies #[trigger] done[i][a]
                        != #[trigger] done[i][b] by {}
                }
            }
            let orbit = trace(next, walk, seed, &mut visited, Ghost(done));
            let ghost fresh = orbit@;
            proof {
                assert forall|j: int| 0 < j < fresh.len() implies fresh[0] < #[trigger] fresh[j] by {
                    assert(!before[fresh[j] as int]);
                    assert(fresh[0] != fresh[j]);
                }
                assert(is_orbit(next@, walk, fresh));
                assert forall|j: int| 0 <= j < fresh.len() implies fresh[0] <= #[trigger] fresh[j] by {
                    if j > 0 {
                        assert(fresh[0] < fresh[j]);
                    }
                }
                assert(is_canonical(fresh));
            }
            out.push(Orbit { edges: orbit });
            proof {
                let all = orbit_seqs(out@);
                assert(all =~= done.push(fresh));
                assert forall|h: int| 0 <= h < n implies (#[trigger] visited@[h] <==> occurs(
                    all,
                    h,
                )) by {
                    lemma_occurs_push(done, fresh, h);
                }
                assert forall|i1: int, j1: int, i2: int, j2: int|
                    0 <= i1 < all.len() && 0 <= j1 < all[i1].len() && 0 <= i2 < all.len() && 0
                        <= j2 < all[i2].len() && #[trigger] all[i1][j1]
                        == #[trigger] all[i2][j2] implies i1 == i2 && j1 == j2 by {
                    let h = all[i1][j1] as int;
                    if i1 < done.len() && i2 < done.len() {
                        assert(done[i1][j1] == done[i2][j2]);
                    } else if i1 < done.len() {
                        assert(done[i1][j1] == h);
                        assert(is_orbit(next@, walk, done[i1]));
                        assert(occurs(done, h));
                        assert(fresh[j2] == h);
                        assert(false);
                    } else if i2 < done.len() {
                        assert(done[i2][j2] == h);
                        assert(is_orbit(next@, walk, done[i2]));
                        assert(occurs(done, h));
                        assert(fresh[j1] == h);
                        assert(false);
                    } else {
                        assert(fresh[j1] == fresh[j2]);
                    }
                }
            }
        }
        seed += 1;
    }
    proof {
        let all = orbit_seqs(out@);
        assert(forall|i: int| 0 <= i < all.len() ==> is_orbit(next@, walk, #[trigger] all[i]));
        assert(forall|i: int, j: int|
            0 <= i < j < all.len() ==> (#[trigger] all[i])[0] < (#[trigger] all[j])[0]);
        assert forall|h: int| 0 <= h < next@.len() implies occurs(all, h) by {
            assert(visited@[h]);
        }
        assert(forall|i1: int, j1: int, i2: int, j2: int|
            0 <= i1 < all.len() && 0 <= j1 < all[i1].len() && 0 <= i2 < all.len() && 0 <= j2
                < all[i2].len() && #[trigger] all[i1][j1] == #[trigger] all[i2][j2] ==> i1 == i2
                && j1 == j2);
        lemma_orbits_unique(next@, walk, all);
    }
    out
}

/// The cycles of the walk over `next`, or the refusal of an array that is
/// no permutation.
fn gather(next: &[usize], walk: Walk) -> (res: Result<Vec<Orbit>, MeshError>)
    ensures
        res is Ok <==> is_permutation(next@),
        res matches Err(e) ==> e == MeshError::InvalidPermutation,
        res matches Ok(orbits) ==> orbit_seqs(orbits@) == orbits_of(next@, walk)
            && is_orbit_partition(next@, walk, orbit_seqs(orbits@)),
{
    if is_valid_permutation(next) {
        Ok(orbits_of_permutation(next, walk))
    } else {
        Err(MeshError::InvalidPermutation)
    }
}

/// The vertices of the mesh: the cycles of `h -> next[twin(h)]`, each listing
/// the half-edges that leave one vertex in rotational order.
///
/// An array of odd length, or one that is no permutation of its indices, is
/// refused before any walk starts, so that every walk comes back to where
/// it started.
pub fn gather_vertices(permutation: &[usize]) -> (res: Result<Vec<Orbit>, MeshError>)
    ensures
        res is Ok <==> is_permutation(permutation@),
        res matches Err(e) ==> e == MeshError::InvalidPermutation,
        res matches Ok(orbits) ==> orbit_seqs(orbits@) == orbits_of(permutation@, Walk::Vertex)
            && is_orbit_partition(permutation@, Walk::Vertex, orbit_seqs(orbits@)),
{
    gather(permutation, Walk::Vertex)
}

/// The faces of the mesh: the cycles of `h -> next[h]`, each listing the
/// half-edges that bound one face in the order of the face loop.
///
/// An array of odd length, or one that is no permutation of its indices, is
/// refused before any walk starts, so that every walk comes back to where
/// it started.
pub fn gather_faces(permutation: &[usize]) -> (res: Result<Vec<Orbit>, MeshError>)
    ensures
        res is Ok <==> is_permutation(permutation@),
        res matches Err(e) ==> e == MeshError::InvalidPermutation,
        res matches Ok(orbits) ==> orbit_seqs(orbits@) == orbits_of(permutation@, Walk::Face)
            && is_orbit_partition(permutation@, Walk::Face, orbit_seqs(orbits@)),
{
    gather(permutation, Walk::Face)
}

} // verus!
