//! The directed graph of a half-edge permutation: one node for each vertex
//! of the mesh, one edge for each half-edge, from the vertex that the
//! half-edge leaves to the vertex that its twin leaves.

use crate::cycles::{lemma_orbit_count, lemma_orbit_through, lemma_orbits_exist, lemma_owner};
use crate::error::MeshError;
use crate::permutation::{
    cycle_through, is_orbit, is_orbit_partition, is_permutation, is_valid_permutation,
    lemma_canonical_cycle_is_orbit, lemma_twin_involution, occurs, orbit_seqs, orbits_of,
    orbits_of_permutation, owner, owns, twin, twin_of, Orbit, Walk,
};
use petgraph::graph::{node_index, Graph};
use vstd::prelude::*;

verus! {

/// A vertex of the mesh is the orbit of the half-edges that leave it.
pub type Vertex = Orbit;

/// `petgraph::graph::Graph`, an adjacency list of nodes and edges with
/// weights. Nothing of its inside is known here.
#[verifier::external_type_specification]
#[verifier::external_body]
#[verifier::reject_recursive_types(N)]
#[verifier::reject_recursive_types(E)]
#[verifier::reject_recursive_types(Ty)]
#[verifier::reject_recursive_types(Ix)]
pub struct ExGraph<N, E, Ty, Ix>(Graph<N, E, Ty, Ix>);

/// `petgraph::Directed`, the marker of graphs with directed edges.
#[verifier::external_type_specification]
#[verifier::external_body]
pub struct ExDirected(petgraph::Directed);

/// The weights of the nodes of a graph, in the order of their indices.
pub uninterp spec fn graph_nodes(g: Graph<usize, usize>) -> Seq<usize>;

/// The edges of a graph in the order of their indices, each as the index of
/// its source node, the index of its target node, and its weight.
pub uninterp spec fn graph_edges(g: Graph<usize, usize>) -> Seq<(usize, usize, usize)>;

/// `Graph::new`: a directed graph without nodes and edges.
#[verifier::external_body]
fn graph_new() -> (g: Graph<usize, usize>)
    ensures
        graph_nodes(g) == Seq::<usize>::empty(),
        graph_edges(g) == Seq::<(usize, usize, usize)>::empty(),
{
    Graph::new()
}

/// `Graph::add_node`: appends a node with the given weight and leaves the
/// edges alone. The graph indexes by `u32`, and the call panics when the
/// index of the new node would be `u32::MAX`.
#[verifier::external_body]
fn graph_add_node(g: &mut Graph<usize, usize>, weight: usize)
    requires
        graph_nodes(*old(g)).len() < u32::MAX,
    ensures
        graph_nodes(*final(g)) == graph_nodes(*old(g)).push(weight),
        graph_edges(*final(g)) == graph_edges(*old(g)),
{
    g.add_node(weight);
}

/// `Graph::add_edge`: appends an edge from node `a` to node `b` with the
/// given weight and leaves the nodes alone. The call panics when one of
/// the nodes does not exist, or when the index of the new edge would be
/// `u32::MAX`.
#[verifier::external_body]
fn graph_add_edge(g: &mut Graph<usize, usize>, a: usize, b: usize, weight: usize)
    requires
        graph_nodes(*old(g)).len() <= u32::MAX,
        a < graph_nodes(*old(g)).len(),
        b < graph_nodes(*old(g)).len(),
        graph_edges(*old(g)).len() < u32::MAX,
    ensures
        graph_nodes(*final(g)) == graph_nodes(*old(g)),
        graph_edges(*final(g)) == graph_edges(*old(g)).push((a, b, weight)),
{
    g.add_edge(node_index(a), node_index(b), weight);
}

/// The two ends of a half-edge, as indices of vertices.
#[derive(Debug, Clone, Copy, PartialEq, Eq)]
pub struct Edge {
    /// the vertex that the half-edge leaves, `None` if not set
    pub start: Option<usize>,
    /// the vertex that the half-edge reaches, `None` if not set
    pub end: Option<usize>,
}

impl Edge {
    /// An edge with neither end set.
    pub fn new() -> (e: Self)
        ensures
            e.start is None,
            e.end is None,
    {
        Edge { start: None, end: None }
    }
}

/// `ends` names for every half-edge of `next` the vertex that it leaves and
/// the vertex that its twin leaves, and `count` is the number of vertices.
pub open spec fn is_ends_of(next: Seq<usize>, count: usize, ends: Seq<Edge>) -> bool {
    let vertices = orbits_of(next, Walk::Vertex);
    &&& count == vertices.len()
    &&& ends.len() == next.len()
    &&& forall|h: int|
        0 <= h < next.len() ==> {
            &&& (#[trigger] ends[h]).start == Some(owner(vertices, h) as usize)
            &&& ends[h].end == Some(owner(vertices, twin_of(h)) as usize)
        }
}

/// The graph with the nodes `nodes` and the edges `edges` is the graph of
/// the permutation `next`: node `i` weighs `i`, and edge `h` runs from the
/// vertex that half-edge `h` leaves to the vertex that its twin leaves, and
/// weighs `h`.
pub open spec fn is_graph_of(
    next: Seq<usize>,
    nodes: Seq<usize>,
    edges: Seq<(usize, usize, usize)>,
) -> bool {
    let vertices = orbits_of(next, Walk::Vertex);
    &&& nodes == Seq::new(vertices.len(), |i: int| i as usize)
    &&& edges == Seq::new(
        next.len(),
        |h: int| (owner(vertices, h) as usize, owner(vertices, twin_of(h)) as usize, h as usize),
    )
}

/// A half-edge has been dealt with when the walk over the orbits, now at
/// place `j` of orbit `i`, has passed it.
spec fn passed(orbits: Seq<Seq<usize>>, i: int, j: int, h: int) -> bool {
    exists|a: int, b: int|
        0 <= a < orbits.len() && 0 <= b < orbits[a].len() && (a < i || (a == i && b < j))
            && #[trigger] orbits[a][b] == h
}

/// A permutation of half-edges, of even length.
#[derive(Debug)]
pub struct Permutations {
    next: Vec<usize>,
}

impl View for Permutations {
    type V = Seq<usize>;

    closed spec fn view(&self) -> Seq<usize> {
        self.next@
    }
}

impl Clone for Permutations {
    fn clone(&self) -> (p: Self)
        ensures
            p@ == self@,
    {
        proof {
            use_type_invariant(self);
        }
        let next = self.next.clone();
        assert(next@ =~= self.next@);
        Permutations { next }
    }
}

impl Permutations {
    #[verifier::type_invariant]
    pub closed spec fn well_formed(&self) -> bool {
        is_permutation(self.next@)
    }

    /// Takes the array as a permutation of half-edges, if it is one.
    pub fn new(next: &[usize]) -> (res: Result<Self, MeshError>)
        ensures
            match res {
                Ok(p) => is_permutation(next@) && p@ == next@,
                Err(e) => !is_permutation(next@) && e == MeshError::InvalidPermutation,
            },
    {
        if is_valid_permutation(next) {
            Ok(Permutations { next: vstd::slice::slice_to_vec(next) })
        } else {
            Err(MeshError::InvalidPermutation)
        }
    }

    /// The number of half-edges.
    pub fn len(&self) -> (n: usize)
        ensures
            n == self@.len(),
            is_permutation(self@),
    {
        proof {
            use_type_invariant(self);
        }
        self.next.len()
    }

    /// The vertex that half-edge `init` leaves: the orbit of `init` under
    /// the step from a half-edge to the successor of its twin.
    pub fn next_twin_orbit(&self, init: usize) -> (v: Vertex)
        requires
            init < self@.len(),
        ensures
            v@ == orbits_of(self@, Walk::Vertex)[owner(
                orbits_of(self@, Walk::Vertex),
                init as int,
            )],
            is_orbit(self@, Walk::Vertex, v@),
            v@.contains(init),
    {
        proof {
            use_type_invariant(self);
        }
        let cycle = cycle_through(self.next.as_slice(), Walk::Vertex, init);
        let vertex = Orbit::new(cycle.as_slice());
        proof {
            lemma_canonical_cycle_is_orbit(self.next@, Walk::Vertex, cycle@);
            assert(cycle@[0] == init);
            assert(cycle@.contains(init));
            lemma_orbits_exist(self.next@, Walk::Vertex);
            let vertices = orbits_of(self@, Walk::Vertex);
            lemma_owner(self@, Walk::Vertex, vertices, init as int);
            let o = owner(vertices, init as int);
            let j = choose|j: int| 0 <= j < vertices[o].len() && #[trigger] vertices[o][j] == init;
            assert(vertices[o].contains(init));
            assert(is_orbit(self@, Walk::Vertex, vertices[o]));
            lemma_orbit_through(self@, Walk::Vertex, vertex@, vertices[o], init);
        }
        vertex
    }

    /// The number of vertices, and for every half-edge the vertex that it
    /// leaves and the vertex that it reaches.
    pub fn ends(&self) -> (r: (usize, Vec<Edge>))
        ensures
            is_ends_of(self@, r.0, r.1@),
            r.0 <= self@.len(),
    {
        proof {
            use_type_invariant(self);
        }
        let n = self.next.len();
        let vs = orbits_of_permutation(self.next.as_slice(), Walk::Vertex);
        let ghost vertices = orbit_seqs(vs@);
        proof {
            lemma_orbit_count(self.next@, Walk::Vertex, vertices);
        }
        let mut es: Vec<Edge> = Vec::new();
        let mut k: usize = 0;
        while k < n
            invariant
                k <= n,
                es@.len() == k,
            decreases n - k,
        {
            es.push(Edge::new());
            k += 1;
        }
        let mut i: usize = 0;
        while i < vs.len()
            invariant
                n == self.next@.len(),
                is_permutation(self.next@),
                vertices == orbit_seqs(vs@),
                is_orbit_partition(self.next@, Walk::Vertex, vertices),
                i <= vs@.len(),
                es@.len() == n,
                forall|h: int|
                    0 <= h < n && passed(vertices, i as int, 0, h) ==> (#[trigger] es@[h]).start
                        == Some(owner(vertices, h) as usize),
                forall|h: int|
                    0 <= h < n && passed(vertices, i as int, 0, twin_of(h)) ==> (
                    #[trigger] es@[h]).end == Some(owner(vertices, twin_of(h)) as usize),
            decreases vs@.len() - i,
        {
            let members = vs[i].indices();
            let mut j: usize = 0;
            while j < members.len()
                invariant
                    n == self.next@.len(),
                    is_permutation(self.next@),
                    vertices == orbit_seqs(vs@),
                    is_orbit_partition(self.next@, Walk::Vertex, vertices),
                    i < vs@.len(),
                    members@ == vertices[i as int],
                    j <= members@.len(),
                    es@.len() == n,
                    forall|h: int|
                        0 <= h < n && passed(vertices, i as int, j as int, h) ==> (
                        #[trigger] es@[h]).start == Some(owner(vertices, h) as usize),
                    forall|h: int|
                        0 <= h < n && passed(vertices, i as int, j as int, twin_of(h)) ==> (
                        #[trigger] es@[h]).end == Some(owner(vertices, twin_of(h)) as usize),
                decreases members@.len() - j,
            {
                let id = members[j];
                proof {
                    assert(is_orbit(self.next@, Walk::Vertex, vertices[i as int]));
                    assert(vertices[i as int][j as int] < n);
                    lemma_twin_involution(id as int, n as int);
                    lemma_owner(self.next@, Walk::Vertex, vertices, id as int);
                    assert(owns(vertices, i as int, id as int));
                }
                let t = twin(id);
                let ghost before = es@;
                let leaving = es[id];
                es[id] = Edge { start: Some(i), end: leaving.end };
                let reaching = es[t];
                es[t] = Edge { start: reaching.start, end: Some(i) };
                proof {
                    assert forall|h: int|
                        0 <= h < n && passed(vertices, i as int, j + 1, h) implies (
                    #[trigger] es@[h]).start == Some(owner(vertices, h) as usize) by {
                        if h == id {
                        } else {
                            let (a, b) = choose|a: int, b: int|
                                0 <= a < vertices.len() && 0 <= b < vertices[a].len() && (a < i
                                    || (a == i && b < j + 1)) && #[trigger] vertices[a][b] == h;
                            assert(a < i || (a == i && b < j));
                            assert(passed(vertices, i as int, j as int, h));
                            assert(before[h].start == Some(owner(vertices, h) as usize));
                        }
                    }
                    assert forall|h: int|
                        0 <= h < n && passed(vertices, i as int, j + 1, twin_of(h)) implies (
                    #[trigger] es@[h]).end == Some(owner(vertices, twin_of(h)) as usize) by {
                        lemma_twin_involution(h, n as int);
                        if h == t {
                        } else {
                            let w = twin_of(h);
                            let (a, b) = choose|a: int, b: int|
                                0 <= a < vertices.len() && 0 <= b < vertices[a].len() && (a < i
                                    || (a == i && b < j + 1)) && #[trigger] vertices[a][b] == w;
                            assert(w != id);
                            assert(a < i || (a == i && b < j));
                            assert(passed(vertices, i as int, j as int, w));
                            assert(before[h].end == Some(owner(vertices, w) as usize));
                        }
                    }
                }
                j += 1;
            }
            proof {
                assert forall|h: int| passed(vertices, i + 1, 0, h) implies passed(
                    vertices,
                    i as int,
                    members@.len() as int,
                    h,
                ) by {
                    let (a, b) = choose|a: int, b: int|
                        0 <= a < vertices.len() && 0 <= b < vertices[a].len() && (a < i + 1 || (a
                            == i + 1 && b < 0)) && #[trigger] vertices[a][b] == h;
                    assert(a < i || (a == i && b < members@.len()));
                }
                assert forall|h: int|
                    0 <= h < n && passed(vertices, i + 1, 0, twin_of(h)) implies (
                #[trigger] es@[h]).end == Some(owner(vertices, twin_of(h)) as usize) by {
                    assert(passed(vertices, i as int, members@.len() as int, twin_of(h)));
                }
            }
            i += 1;
        }
        proof {
            assert forall|h: int| 0 <= h < n implies passed(vertices, vs@.len() as int, 0, h) by {
                assert(occurs(vertices, h));
                let (a, b) = choose|a: int, b: int|
                    0 <= a < vertices.len() && 0 <= b < vertices[a].len()
                        && #[trigger] vertices[a][b] == h;
                assert(a < vs@.len() && vertices[a][b] == h);
            }
            assert forall|h: int| 0 <= h < n implies {
                &&& (#[trigger] es@[h]).start == Some(owner(vertices, h) as usize)
                &&& es@[h].end == Some(owner(vertices, twin_of(h)) as usize)
            } by {
                lemma_twin_involution(h, n as int);
                assert(passed(vertices, vs@.len() as int, 0, h));
                assert(passed(vertices, vs@.len() as int, 0, twin_of(h)));
            }
        }
        (vs.len(), es)
    }

    /// The graph of the permutation. It indexes its nodes and edges by
    /// `u32`, which bounds the number of half-edges.
    pub fn to_graph(&self) -> (g: Graph<usize, usize>)
        requires
            self@.len() < u32::MAX,
        ensures
            is_graph_of(self@, graph_nodes(g), graph_edges(g)),
    {
        let n = self.len();
        let (count, es) = self.ends();
        let ghost vertices = orbits_of(self@, Walk::Vertex);
        let mut g = graph_new();
        let mut i: usize = 0;
        while i < count
            invariant
                i <= count <= n < u32::MAX,
                graph_nodes(g) == Seq::new(i as nat, |k: int| k as usize),
                graph_edges(g) == Seq::<(usize, usize, usize)>::empty(),
            decreases count - i,
        {
            graph_add_node(&mut g, i);
            proof {
                assert(graph_nodes(g) =~= Seq::new((i + 1) as nat, |k: int| k as usize));
            }
            i += 1;
        }
        proof {
            lemma_orbits_exist(self@, Walk::Vertex);
            assert forall|h: int| 0 <= h < n implies {
                &&& 0 <= #[trigger] owner(vertices, h) < count
                &&& 0 <= owner(vertices, twin_of(h)) < count
            } by {
                lemma_twin_involution(h, n as int);
                lemma_owner(self@, Walk::Vertex, vertices, h);
                lemma_owner(self@, Walk::Vertex, vertices, twin_of(h));
            }
        }
        let mut h: usize = 0;
        while h < n
            invariant
                h <= n < u32::MAX,
                n == self@.len(),
                count <= n,
                vertices == orbits_of(self@, Walk::Vertex),
                is_ends_of(self@, count, es@),
                forall|k: int|
                    0 <= k < n ==> {
                        &&& 0 <= #[trigger] owner(vertices, k) < count
                        &&& 0 <= owner(vertices, twin_of(k)) < count
                    },
                graph_nodes(g) == Seq::new(count as nat, |k: int| k as usize),
                graph_edges(g) == Seq::new(
                    h as nat,
                    |k: int|
                        (
                            owner(vertices, k) as usize,
                            owner(vertices, twin_of(k)) as usize,
                            k as usize,
                        ),
                ),
            decreases n - h,
        {
            let e = es[h];
            proof {
                assert(es@[h as int].start == Some(owner(vertices, h as int) as usize));
                assert(0 <= owner(vertices, h as int) < count);
            }
            graph_add_edge(&mut g, e.start.unwrap(), e.end.unwrap(), h);
            proof {
                assert(graph_edges(g) =~= Seq::new(
                    (h + 1) as nat,
                    |k: int|
                        (
                            owner(vertices, k) as usize,
                            owner(vertices, twin_of(k)) as usize,
                            k as usize,
                        ),
                ));
            }
            h += 1;
        }
        g
    }
}

} // verus!
