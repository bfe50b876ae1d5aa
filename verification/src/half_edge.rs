//! Half-edge meshes and the algebra of their simplices.
//!
//! A mesh is two incidence matrices, vertices against edges and edges
//! against faces, kept together with their transposes. A selection of
//! simplices is three sets of indices into one mesh; star, closure and link
//! make new selections from old ones.

use crate::connection_matrix::{
    column_count, lemma_max_column, lemma_max_column_bounds, lemma_sorted_columns,
    lemma_swapped_contains, lemma_transposed_rows, max_column, swapped, ConnectionMatrix,
};
use crate::cycles::{lemma_orbit_count, lemma_orbits_exist};
use crate::error::MeshError;
use crate::index_set::{difference, from_slice, is_subset, same_members, to_sorted_vec, union};
use crate::permutation::{
    is_orbit, is_permutation, is_valid_permutation, occurs, orbit_seqs, orbits_of,
    orbits_of_permutation, Orbit, Walk,
};
use crate::sorting::{lemma_sorted_pairs_contains, sorted_pairs};
use std::collections::BTreeSet;
use vstd::prelude::*;

verus! {

/// The pairs `(i, h)` for every half-edge `h` of the orbit with index `i`,
/// orbit after orbit.
pub open spec fn owner_pairs(orbits: Seq<Seq<usize>>) -> Seq<(usize, usize)>
    decreases orbits.len(),
{
    if orbits.len() == 0 {
        Seq::empty()
    } else {
        owner_pairs(orbits.drop_last()) + Seq::new(
            orbits.last().len(),
            |j: int| ((orbits.len() - 1) as usize, orbits.last()[j]),
        )
    }
}

/// A pair is among the owner pairs exactly if its half-edge stands in the
/// orbit that it names.
pub proof fn lemma_owner_pairs_contains(orbits: Seq<Seq<usize>>, i: usize, h: usize)
    requires
        orbits.len() <= usize::MAX,
    ensures
        owner_pairs(orbits).contains((i, h)) <==> i < orbits.len() && orbits[i as int].contains(h),
    decreases orbits.len(),
{
    if orbits.len() > 0 {
        let n = orbits.len() as int;
        let rest = orbits.drop_last();
        let tail = Seq::new(orbits.last().len(), |j: int| ((n - 1) as usize, orbits.last()[j]));
        let all = owner_pairs(orbits);
        let before = owner_pairs(rest);
        lemma_owner_pairs_contains(rest, i, h);
        if all.contains((i, h)) {
            let k = choose|k: int| 0 <= k < all.len() && all[k] == (i, h);
            if k < before.len() {
                assert(before[k] == (i, h));
                assert(rest[i as int] == orbits[i as int]);
            } else {
                assert(tail[k - before.len()] == (i, h));
                assert(orbits[n - 1][k - before.len()] == h);
            }
        }
        if i < n && orbits[i as int].contains(h) {
            let j = choose|j: int| 0 <= j < orbits[i as int].len() && orbits[i as int][j] == h;
            if i < n - 1 {
                assert(rest[i as int] == orbits[i as int]);
                let k = choose|k: int| 0 <= k < before.len() && before[k] == (i, h);
                assert(all[k] == (i, h));
            } else {
                assert(tail[j] == (i, h));
                assert(all[before.len() + j] == (i, h));
            }
        }
    }
}

/// Where the orbits hold exactly the half-edges below `n`, the owner pairs
/// have the column bound `n`, or one if there is no half-edge.
proof fn lemma_owner_pairs_columns(orbits: Seq<Seq<usize>>, n: int)
    requires
        orbits.len() <= usize::MAX,
        0 <= n <= usize::MAX,
        forall|i: int, j: int|
            0 <= i < orbits.len() && 0 <= j < orbits[i].len() ==> #[trigger] orbits[i][j] < n,
        forall|h: int| 0 <= h < n ==> occurs(orbits, h),
    ensures
        column_count(owner_pairs(orbits)) == if n == 0 {
            1
        } else {
            n
        },
        forall|k: int|
            0 <= k < owner_pairs(orbits).len() ==> (#[trigger] owner_pairs(orbits)[k]).1 < n && (
            owner_pairs(orbits)[k]).0 < orbits.len(),
{
    let pairs = owner_pairs(orbits);
    assert forall|k: int| 0 <= k < pairs.len() implies (#[trigger] pairs[k]).1 < n && pairs[k].0
        < orbits.len() by {
        let p = pairs[k];
        assert(pairs.contains(p));
        lemma_owner_pairs_contains(orbits, p.0, p.1);
        let j = choose|j: int| 0 <= j < orbits[p.0 as int].len() && orbits[p.0 as int][j] == p.1;
        assert(orbits[p.0 as int][j] < n);
    }
    if n == 0 {
        lemma_max_column_bounds(pairs);
        if max_column(pairs) != 0 {
            let k = choose|k: int|
                0 <= k < pairs.len() && (#[trigger] pairs[k]).1 == max_column(pairs);
            assert(pairs[k].1 < n);
        }
    } else {
        let top = (n - 1) as usize;
        assert(occurs(orbits, n - 1));
        let (i, j) = choose|i: int, j: int|
            0 <= i < orbits.len() && 0 <= j < orbits[i].len() && #[trigger] orbits[i][j] == n - 1;
        assert(orbits[i].contains(top));
        lemma_owner_pairs_contains(orbits, i as usize, top);
        let k = choose|k: int| 0 <= k < pairs.len() && pairs[k] == (i as usize, top);
        assert(pairs[k].1 == n - 1);
        lemma_max_column(pairs, n - 1);
    }
}

/// The incidences that the half-edge permutation `next` stands for: each
/// vertex with the half-edges that leave it, and each half-edge with the
/// face that it bounds.
pub open spec fn is_mesh_of(
    next: Seq<usize>,
    vertex_edge: Seq<(usize, usize)>,
    edge_face: Seq<(usize, usize)>,
) -> bool {
    &&& vertex_edge == sorted_pairs(owner_pairs(orbits_of(next, Walk::Vertex)))
    &&& edge_face == sorted_pairs(swapped(owner_pairs(orbits_of(next, Walk::Face))))
}

/// Sets of vertices, edges and faces.
#[verifier::ext_equal]
pub struct Selection {
    /// the selected vertices
    pub vertices: Set<usize>,
    /// the selected edges
    pub edges: Set<usize>,
    /// the selected faces
    pub faces: Set<usize>,
}

/// What `a` selects and `b` does not, dimension by dimension.
pub open spec fn minus(a: Selection, b: Selection) -> Selection {
    Selection {
        vertices: a.vertices.difference(b.vertices),
        edges: a.edges.difference(b.edges),
        faces: a.faces.difference(b.faces),
    }
}

/// `a` selects all that `b` selects, dimension by dimension.
pub open spec fn includes(a: Selection, b: Selection) -> bool {
    &&& b.vertices.subset_of(a.vertices)
    &&& b.edges.subset_of(a.edges)
    &&& b.faces.subset_of(a.faces)
}

/// The owner pairs of a list of orbits.
fn owner_pairs_of(orbits: &Vec<Orbit>) -> (pairs: Vec<(usize, usize)>)
    ensures
        pairs@ == owner_pairs(orbit_seqs(orbits@)),
{
    let ghost all = orbit_seqs(orbits@);
    let mut out: Vec<(usize, usize)> = Vec::new();
    let mut i: usize = 0;
    proof {
        assert(all.take(0) =~= Seq::<Seq<usize>>::empty());
    }
    while i < orbits.len()
        invariant
            i <= orbits@.len(),
            all == orbit_seqs(orbits@),
            out@ == owner_pairs(all.take(i as int)),
        decreases orbits@.len() - i,
    {
        let members = orbits[i].indices();
        let ghost before = out@;
        let mut j: usize = 0;
        while j < members.len()
            invariant
                j <= members@.len(),
                members@ == all[i as int],
                out@ == before + Seq::new(j as nat, |k: int| (i, members@[k])),
            decreases members@.len() - j,
        {
            out.push((i, members[j]));
            proof {
                assert(out@ =~= before + Seq::new((j + 1) as nat, |k: int| (i, members@[k])));
            }
            j += 1;
        }
        proof {
            let upto = all.take(i + 1);
            assert(upto.drop_last() =~= all.take(i as int));
            assert(upto.last() == all[i as int]);
            assert(out@ =~= owner_pairs(upto));
        }
        i += 1;
    }
    proof {
        assert(all.take(orbits@.len() as int) =~= all);
    }
    out
}

/// The pairs of `pairs` with their two entries exchanged.
fn swap_pairs(pairs: &Vec<(usize, usize)>) -> (out: Vec<(usize, usize)>)
    ensures
        out@ == swapped(pairs@),
{
    let mut out: Vec<(usize, usize)> = Vec::with_capacity(pairs.len());
    let mut i: usize = 0;
    while i < pairs.len()
        invariant
            i <= pairs@.len(),
            out@.len() == i,
            forall|k: int| 0 <= k < i ==> #[trigger] out@[k] == (pairs@[k].1, pairs@[k].0),
        decreases pairs@.len() - i,
    {
        let p = pairs[i];
        out.push((p.1, p.0));
        i += 1;
    }
    assert(out@ =~= swapped(pairs@));
    out
}

/// A polygonal mesh given by its incidences alone.
#[derive(Debug)]
pub struct Mesh {
    /// which edges leave which vertex
    vertex_edge: ConnectionMatrix,
    /// transpose of `vertex_edge`
    edge_vertex: ConnectionMatrix,
    /// which faces lie on which edge
    edge_face: ConnectionMatrix,
    /// transpose of `edge_face`
    face_edge: ConnectionMatrix,
}

impl Mesh {
    #[verifier::type_invariant]
    pub closed spec fn well_formed(&self) -> bool {
        &&& self.vertex_edge.well_formed()
        &&& self.edge_vertex.well_formed()
        &&& self.edge_face.well_formed()
        &&& self.face_edge.well_formed()
        &&& self.vertex_edge.num_cols() == self.edge_face.num_rows()
        &&& self.edge_vertex@ == sorted_pairs(swapped(self.vertex_edge@))
        &&& self.face_edge@ == sorted_pairs(swapped(self.edge_face@))
        &&& self.edge_vertex.num_rows() == self.vertex_edge.num_cols()
        &&& self.edge_vertex.num_cols() == self.vertex_edge.num_rows()
        &&& self.face_edge.num_rows() == self.edge_face.num_cols()
        &&& self.face_edge.num_cols() == self.edge_face.num_rows()
    }

    /// The matrix of vertices against edges.
    pub closed spec fn vertex_edge_matrix(&self) -> ConnectionMatrix {
        self.vertex_edge
    }

    /// The matrix of edges against vertices.
    pub closed spec fn edge_vertex_matrix(&self) -> ConnectionMatrix {
        self.edge_vertex
    }

    /// The matrix of edges against faces.
    pub closed spec fn edge_face_matrix(&self) -> ConnectionMatrix {
        self.edge_face
    }

    /// The matrix of faces against edges.
    pub closed spec fn face_edge_matrix(&self) -> ConnectionMatrix {
        self.face_edge
    }

    /// The pairs `(vertex, edge)` of the mesh.
    pub open spec fn vertex_edge_pairs(&self) -> Seq<(usize, usize)> {
        self.vertex_edge_matrix()@
    }

    /// The pairs `(edge, face)` of the mesh.
    pub open spec fn edge_face_pairs(&self) -> Seq<(usize, usize)> {
        self.edge_face_matrix()@
    }

    /// The number of vertices.
    pub open spec fn num_vertices(&self) -> int {
        self.vertex_edge_matrix().num_rows()
    }

    /// The number of edges.
    pub open spec fn num_edges(&self) -> int {
        self.vertex_edge_matrix().num_cols()
    }

    /// The number of faces.
    pub open spec fn num_faces(&self) -> int {
        self.edge_face_matrix().num_cols()
    }

    /// Every selected vertex is a vertex of the mesh.
    pub open spec fn has_vertices(&self, s: Selection) -> bool {
        forall|v: usize| s.vertices.contains(v) ==> v < self.num_vertices()
    }

    /// Every selected edge is an edge of the mesh.
    pub open spec fn has_edges(&self, s: Selection) -> bool {
        forall|e: usize| s.edges.contains(e) ==> e < self.num_edges()
    }

    /// Every selected face is a face of the mesh.
    pub open spec fn has_faces(&self, s: Selection) -> bool {
        forall|f: usize| s.faces.contains(f) ==> f < self.num_faces()
    }

    /// Every selected index is one of the mesh.
    pub open spec fn holds(&self, s: Selection) -> bool {
        &&& self.has_vertices(s)
        &&& self.has_edges(s)
        &&& self.has_faces(s)
    }

    /// All vertices, edges and faces of the mesh.
    pub open spec fn everything(&self) -> Selection {
        Selection {
            vertices: Set::new(|v: usize| v < self.num_vertices()),
            edges: Set::new(|e: usize| e < self.num_edges()),
            faces: Set::new(|f: usize| f < self.num_faces()),
        }
    }

    /// The star of `s`: `s` with every edge at one of its vertices, and every
    /// face at one of these edges or its own.
    pub open spec fn star_of(&self, s: Selection) -> Selection {
        let edges = self.vertex_edge_matrix().image(s.vertices).union(s.edges);
        Selection {
            vertices: s.vertices,
            edges,
            faces: self.edge_face_matrix().image(edges).union(s.faces),
        }
    }

    /// The closure of `s`: `s` with every edge of one of its faces, and every
    /// vertex of one of these edges or its own.
    pub open spec fn closure_of(&self, s: Selection) -> Selection {
        let edges = self.face_edge_matrix().image(s.faces).union(s.edges);
        Selection {
            vertices: self.edge_vertex_matrix().image(edges).union(s.vertices),
            edges,
            faces: s.faces,
        }
    }

    /// The link of `s`: the star of its closure without the closure of its
    /// star.
    pub open spec fn link_of(&self, s: Selection) -> Selection {
        minus(self.star_of(self.closure_of(s)), self.closure_of(self.star_of(s)))
    }

    /// `s` holds the edges of its faces and the vertices of those edges.
    pub open spec fn is_complex_of(&self, s: Selection) -> bool {
        let edges = self.face_edge_matrix().image(s.faces);
        edges.subset_of(s.edges) && self.edge_vertex_matrix().image(edges).subset_of(s.vertices)
    }

    /// The dimension of `s` if its edges are exactly the edges of its faces
    /// and its vertices exactly the vertices of its edges.
    pub open spec fn pure_dimension_of(&self, s: Selection) -> Option<usize> {
        let edges = self.face_edge_matrix().image(s.faces);
        if edges != s.edges {
            None
        } else if self.edge_vertex_matrix().image(edges) != s.vertices {
            None
        } else if s.faces != Set::<usize>::empty() {
            Some(2)
        } else if s.edges != Set::<usize>::empty() {
            Some(1)
        } else {
            Some(0)
        }
    }

    /// What holds of the four matrices of every mesh.
    pub proof fn lemma_matrices(&self)
        requires
            self.well_formed(),
        ensures
            self.vertex_edge_matrix().well_formed(),
            self.edge_vertex_matrix().well_formed(),
            self.edge_face_matrix().well_formed(),
            self.face_edge_matrix().well_formed(),
            self.edge_vertex_matrix()@ == sorted_pairs(swapped(self.vertex_edge_pairs())),
            self.face_edge_matrix()@ == sorted_pairs(swapped(self.edge_face_pairs())),
            self.vertex_edge_matrix().num_rows() == self.num_vertices(),
            self.vertex_edge_matrix().num_cols() == self.num_edges(),
            self.edge_vertex_matrix().num_rows() == self.num_edges(),
            self.edge_vertex_matrix().num_cols() == self.num_vertices(),
            self.edge_face_matrix().num_rows() == self.num_edges(),
            self.edge_face_matrix().num_cols() == self.num_faces(),
            self.face_edge_matrix().num_rows() == self.num_faces(),
            self.face_edge_matrix().num_cols() == self.num_edges(),
    {
    }

    /// Puts together two matrices that agree on the number of edges.
    fn assemble(vertex_edge: ConnectionMatrix, edge_face: ConnectionMatrix) -> (m: Self)
        requires
            vertex_edge.num_cols() == edge_face.num_rows(),
        ensures
            m.vertex_edge_matrix() == vertex_edge,
            m.edge_face_matrix() == edge_face,
            m.edge_vertex_matrix()@ == sorted_pairs(swapped(vertex_edge@)),
            m.face_edge_matrix()@ == sorted_pairs(swapped(edge_face@)),
    {
        proof {
            use_type_invariant(&vertex_edge);
            use_type_invariant(&edge_face);
        }
        let edge_vertex = vertex_edge.transpose();
        let face_edge = edge_face.transpose();
        proof {
            use_type_invariant(&edge_vertex);
            use_type_invariant(&face_edge);
        }
        Mesh { vertex_edge, edge_vertex, edge_face, face_edge }
    }

    /// Create a mesh from the matrix of vertices against edges and the
    /// matrix of edges against faces.
    pub fn from_connections(vertex_edge: ConnectionMatrix, edge_face: ConnectionMatrix) -> (res:
        Result<Self, MeshError>)
        ensures
            match res {
                Ok(m) => {
                    &&& vertex_edge.num_cols() == edge_face.num_rows()
                    &&& m.vertex_edge_matrix() == vertex_edge
                    &&& m.edge_face_matrix() == edge_face
                    &&& m.edge_vertex_matrix()@ == sorted_pairs(swapped(vertex_edge@))
                    &&& m.face_edge_matrix()@ == sorted_pairs(swapped(edge_face@))
                },
                Err(e) => vertex_edge.num_cols() != edge_face.num_rows() && e
                    == MeshError::ShapeMismatch,
            },
    {
        let (_, e1) = vertex_edge.shape();
        let (e2, _) = edge_face.shape();
        if e1 != e2 {
            return Err(MeshError::ShapeMismatch);
        }
        Ok(Self::assemble(vertex_edge, edge_face))
    }

    /// Create a mesh from the permutation that leads from each half-edge to
    /// the next one around its face.
    pub fn from_permutation(permutation: &[usize]) -> (res: Result<Self, MeshError>)
        ensures
            res is Ok <==> is_permutation(permutation@),
            match res {
                Ok(m) => {
                    &&& is_mesh_of(permutation@, m.vertex_edge_pairs(), m.edge_face_pairs())
                    &&& m.edge_vertex_matrix()@ == sorted_pairs(swapped(m.vertex_edge_pairs()))
                    &&& m.face_edge_matrix()@ == sorted_pairs(swapped(m.edge_face_pairs()))
                },
                Err(e) => e == MeshError::InvalidPermutation,
            },
    {
        if !is_valid_permutation(permutation) {
            return Err(MeshError::InvalidPermutation);
        }
        let vertices = orbits_of_permutation(permutation, Walk::Vertex);
        let faces = orbits_of_permutation(permutation, Walk::Face);
        let ghost n = permutation@.len() as int;
        assert(n == permutation.len());
        let ghost vs = orbit_seqs(vertices@);
        let ghost fs = orbit_seqs(faces@);
        assert(vs.len() == vertices.len());
        assert(fs.len() == faces.len());
        let around = owner_pairs_of(&vertices);
        let along = owner_pairs_of(&faces);
        let bounds = swap_pairs(&along);
        proof {
            assert forall|i: int, j: int| 0 <= i < vs.len() && 0 <= j < vs[i].len() implies #[trigger] vs[i][j]
                < n by {
                assert(is_orbit(permutation@, Walk::Vertex, vs[i]));
            }
            assert forall|i: int, j: int| 0 <= i < fs.len() && 0 <= j < fs[i].len() implies #[trigger] fs[i][j]
                < n by {
                assert(is_orbit(permutation@, Walk::Face, fs[i]));
            }
            lemma_owner_pairs_columns(vs, n);
            lemma_owner_pairs_columns(fs, n);
            assert forall|k: int| 0 <= k < bounds@.len() implies (#[trigger] bounds@[k]).1
                < usize::MAX by {
                assert(along@[k].0 < fs.len());
            }
            lemma_sorted_columns(around@);
            lemma_transposed_rows(along@);
        }
        let vertex_edge = ConnectionMatrix::from_vec(around);
        let edge_face = ConnectionMatrix::from_vec(bounds);
        Ok(Self::assemble(vertex_edge, edge_face))
    }

    /// Select the simplices with the given indices. An index may be given
    /// more than once and in any order. An index that the mesh does not have
    /// is taken like any other; the operations that look it up refuse it.
    pub fn simplicies(&self, vertices: &[usize], edges: &[usize], faces: &[usize]) -> (s: Simplices<
        '_,
    >)
        ensures
            s.mesh() == *self,
            s@.vertices == vertices@.to_set(),
            s@.edges == edges@.to_set(),
            s@.faces == faces@.to_set(),
    {
        Simplices {
            mesh: self,
            vertices: from_slice(vertices),
            edges: from_slice(edges),
            faces: from_slice(faces),
        }
    }

    /// The matrix of vertices against edges.
    pub fn vertex_edge(&self) -> (m: &ConnectionMatrix)
        ensures
            *m == self.vertex_edge_matrix(),
    {
        &self.vertex_edge
    }

    /// The matrix of edges against vertices, the transpose of
    /// `vertex_edge`.
    pub fn edge_vertex(&self) -> (m: &ConnectionMatrix)
        ensures
            *m == self.edge_vertex_matrix(),
    {
        &self.edge_vertex
    }

    /// The matrix of edges against faces.
    pub fn edge_face(&self) -> (m: &ConnectionMatrix)
        ensures
            *m == self.edge_face_matrix(),
    {
        &self.edge_face
    }

    /// The matrix of faces against edges, the transpose of `edge_face`.
    pub fn face_edge(&self) -> (m: &ConnectionMatrix)
        ensures
            *m == self.face_edge_matrix(),
    {
        &self.face_edge
    }

    /// The star of a selection of the mesh is a selection of the mesh.
    pub proof fn lemma_star_in_mesh(&self, s: Selection)
        requires
            self.well_formed(),
            self.has_vertices(s),
            self.has_edges(s),
        ensures
            self.has_vertices(self.star_of(s)),
            self.has_edges(self.star_of(s)),
            self.has_faces(s) ==> self.has_faces(self.star_of(s)),
    {
        self.lemma_matrices();
        let edges = self.star_of(s).edges;
        self.vertex_edge_matrix().lemma_image_in_range(s.vertices);
        self.edge_face_matrix().lemma_image_in_range(edges);
    }

    /// The closure of a selection of the mesh is a selection of the mesh.
    pub proof fn lemma_closure_in_mesh(&self, s: Selection)
        requires
            self.well_formed(),
            self.has_faces(s),
            self.has_edges(s),
        ensures
            self.has_faces(self.closure_of(s)),
            self.has_edges(self.closure_of(s)),
            self.has_vertices(s) ==> self.has_vertices(self.closure_of(s)),
    {
        self.lemma_matrices();
        let edges = self.closure_of(s).edges;
        self.face_edge_matrix().lemma_image_in_range(s.faces);
        self.edge_vertex_matrix().lemma_image_in_range(edges);
    }

    /// The closure of any selection is a complex.
    pub proof fn lemma_closure_is_complex(&self, s: Selection)
        ensures
            self.is_complex_of(self.closure_of(s)),
    {
        let c = self.closure_of(s);
        let edges = self.face_edge_matrix().image(s.faces);
        let ev = self.edge_vertex_matrix();
        assert forall|v: usize| ev.image(edges).contains(v) implies c.vertices.contains(v) by {
            let e = choose|e: usize| edges.contains(e) && ev@.contains((e, v));
            assert(c.edges.contains(e) && ev@.contains((e, v)));
            assert(ev.image(c.edges).contains(v));
        }
    }

    /// The closure of the star of a selection includes the selection.
    pub proof fn lemma_closure_of_star_includes(&self, s: Selection)
        ensures
            includes(self.closure_of(self.star_of(s)), s),
    {
    }

    /// The star of the closure of a selection includes the selection.
    pub proof fn lemma_star_of_closure_includes(&self, s: Selection)
        ensures
            includes(self.star_of(self.closure_of(s)), s),
    {
    }

    /// A selection with a face but without one of the edges of that face is
    /// not pure.
    pub proof fn lemma_open_face_is_not_pure(&self, s: Selection, f: usize, e: usize)
        requires
            s.faces.contains(f),
            self.face_edge_matrix()@.contains((f, e)),
            !s.edges.contains(e),
        ensures
            self.pure_dimension_of(s) is None,
    {
        let edges = self.face_edge_matrix().image(s.faces);
        assert(s.faces.contains(f) && self.face_edge_matrix()@.contains((f, e)));
        assert(edges.contains(e));
    }

    /// The selection of everything is pure of dimension two if every edge
    /// lies on a face and every vertex on an edge.
    pub proof fn lemma_everything_is_pure(&self)
        requires
            self.well_formed(),
            self.face_edge_matrix().image(self.everything().faces) == self.everything().edges,
            self.edge_vertex_matrix().image(self.everything().edges) == self.everything().vertices,
        ensures
            self.pure_dimension_of(self.everything()) == Some(2usize),
    {
        self.lemma_matrices();
        self.edge_face_matrix().lemma_pairs();
        assert(self.everything().faces.contains(0usize));
    }

    /// In the mesh of a permutation with half-edges, every edge lies on a
    /// face and every vertex on an edge: everything is a pure complex of
    /// dimension two.
    pub proof fn lemma_mesh_of_permutation_is_pure(&self, next: Seq<usize>)
        requires
            self.well_formed(),
            is_permutation(next),
            0 < next.len() <= usize::MAX,
            is_mesh_of(next, self.vertex_edge_pairs(), self.edge_face_pairs()),
        ensures
            self.num_edges() == next.len(),
            self.pure_dimension_of(self.everything()) == Some(2usize),
    {
        let n = next.len() as int;
        let vs = orbits_of(next, Walk::Vertex);
        let fs = orbits_of(next, Walk::Face);
        lemma_orbits_exist(next, Walk::Vertex);
        lemma_orbits_exist(next, Walk::Face);
        lemma_orbit_count(next, Walk::Vertex, vs);
        lemma_orbit_count(next, Walk::Face, fs);
        let around = owner_pairs(vs);
        let along = owner_pairs(fs);
        let ve = self.vertex_edge_matrix();
        let ev = self.edge_vertex_matrix();
        let ef = self.edge_face_matrix();
        let fe = self.face_edge_matrix();
        let all = self.everything();
        self.lemma_matrices();
        assert forall|i: int, j: int| 0 <= i < vs.len() && 0 <= j < vs[i].len() implies #[trigger] vs[i][j]
            < n by {
            assert(is_orbit(next, Walk::Vertex, vs[i]));
        }
        lemma_owner_pairs_columns(vs, n);
        lemma_sorted_columns(around);
        assert(self.num_edges() == n);
        ve.lemma_pairs();
        ev.lemma_pairs();
        ef.lemma_pairs();
        fe.lemma_pairs();
        lemma_sorted_pairs_contains(around);
        lemma_sorted_pairs_contains(swapped(along));
        lemma_sorted_pairs_contains(swapped(ve@));
        lemma_sorted_pairs_contains(swapped(ef@));
        fe.lemma_image_in_range(all.faces);
        ev.lemma_image_in_range(all.edges);
        assert forall|e: usize| all.edges.contains(e) implies fe.image(all.faces).contains(e) by {
            assert(occurs(fs, e as int));
            let (f, j) = choose|f: int, j: int|
                0 <= f < fs.len() && 0 <= j < fs[f].len() && #[trigger] fs[f][j] == e;
            let face = f as usize;
            assert(fs[f].contains(e));
            lemma_owner_pairs_contains(fs, face, e);
            lemma_swapped_contains(along, face, e);
            assert(ef@.contains((e, face)));
            lemma_swapped_contains(ef@, e, face);
            assert(fe@.contains((face, e)));
            let k = choose|k: int| 0 <= k < ef@.len() && ef@[k] == (e, face);
            assert(ef@[k].1 < ef.num_cols());
            assert(all.faces.contains(face) && fe@.contains((face, e)));
        }
        assert(fe.image(all.faces) =~= all.edges);
        assert forall|v: usize| all.vertices.contains(v) implies ev.image(all.edges).contains(
            v,
        ) by {
            assert(occurs(vs, 0));
            let (a, b) = choose|a: int, b: int|
                0 <= a < vs.len() && 0 <= b < vs[a].len() && #[trigger] vs[a][b] == 0;
            assert(vs[a].contains(0usize));
            lemma_owner_pairs_contains(vs, a as usize, 0usize);
            assert(ve@.len() > 0);
            let top = ve@[ve@.len() - 1];
            assert(ve@.contains(top));
            assert(around.contains(top));
            lemma_owner_pairs_contains(vs, top.0, top.1);
            assert(v < vs.len());
            assert(is_orbit(next, Walk::Vertex, vs[v as int]));
            let e = vs[v as int][0];
            assert(vs[v as int].contains(e));
            lemma_owner_pairs_contains(vs, v, e);
            assert(ve@.contains((v, e)));
            lemma_swapped_contains(ve@, v, e);
            assert(ev@.contains((e, v)));
            assert(all.edges.contains(e) && ev@.contains((e, v)));
        }
        assert(ev.image(all.edges) =~= all.vertices);
        assert(all.faces.contains(0usize));
    }
}

impl Clone for Mesh {
    fn clone(&self) -> (m: Self)
        ensures
            m.vertex_edge_pairs() == self.vertex_edge_pairs(),
            m.edge_face_pairs() == self.edge_face_pairs(),
    {
        let vertex_edge = self.vertex_edge.clone();
        let edge_vertex = self.edge_vertex.clone();
        let edge_face = self.edge_face.clone();
        let face_edge = self.face_edge.clone();
        proof {
            use_type_invariant(self);
            use_type_invariant(&vertex_edge);
            use_type_invariant(&edge_vertex);
            use_type_invariant(&edge_face);
            use_type_invariant(&face_edge);
        }
        Mesh { vertex_edge, edge_vertex, edge_face, face_edge }
    }
}

/// A selection of simplices of one mesh: some of its vertices, some of its
/// edges and some of its faces.
#[derive(Debug)]
pub struct Simplices<'mesh> {
    mesh: &'mesh Mesh,
    vertices: BTreeSet<usize>,
    edges: BTreeSet<usize>,
    faces: BTreeSet<usize>,
}

impl<'mesh> View for Simplices<'mesh> {
    type V = Selection;

    closed spec fn view(&self) -> Selection {
        Selection { vertices: self.vertices@, edges: self.edges@, faces: self.faces@ }
    }
}

impl<'mesh> Simplices<'mesh> {
    /// The mesh that the simplices belong to.
    pub closed spec fn mesh(&self) -> Mesh {
        *self.mesh
    }

    /// The selected vertices in increasing order.
    pub fn vertices(&self) -> (v: Vec<usize>)
        ensures
            crate::index_set::strictly_increasing(v@),
            v@.to_set() == self@.vertices,
    {
        to_sorted_vec(&self.vertices)
    }

    /// The selected edges in increasing order.
    pub fn edges(&self) -> (v: Vec<usize>)
        ensures
            crate::index_set::strictly_increasing(v@),
            v@.to_set() == self@.edges,
    {
        to_sorted_vec(&self.edges)
    }

    /// The selected faces in increasing order.
    pub fn faces(&self) -> (v: Vec<usize>)
        ensures
            crate::index_set::strictly_increasing(v@),
            v@.to_set() == self@.faces,
    {
        to_sorted_vec(&self.faces)
    }

    /// Tells whether nothing is selected.
    pub fn is_empty(&self) -> (r: bool)
        ensures
            r <==> self@.vertices == Set::<usize>::empty() && self@.edges == Set::<usize>::empty()
                && self@.faces == Set::<usize>::empty(),
    {
        let r = self.vertices.is_empty() && self.edges.is_empty() && self.faces.is_empty();
        proof {
            assert(self.vertices@.is_empty() <==> self.vertices@ =~= Set::<usize>::empty());
            assert(self.edges@.is_empty() <==> self.edges@ =~= Set::<usize>::empty());
            assert(self.faces@.is_empty() <==> self.faces@ =~= Set::<usize>::empty());
        }
        r
    }

    /// The edges of the selected faces, which are looked up in the matrix of
    /// faces against edges.
    fn edges_of_faces(&self) -> (res: Result<BTreeSet<usize>, MeshError>)
        ensures
            match res {
                Ok(edges) => {
                    &&& self.mesh().has_faces(self@)
                    &&& edges@ == self.mesh().face_edge_matrix().image(self@.faces)
                    &&& forall|e: usize| edges@.contains(e) ==> e < self.mesh().num_edges()
                },
                Err(e) => e == MeshError::IndexOutOfRange && !self.mesh().has_faces(self@),
            },
    {
        proof {
            use_type_invariant(self.mesh);
            self.mesh.lemma_matrices();
            self.mesh.face_edge.lemma_image_in_range(self.faces@);
            assert(self@.faces == self.faces@);
        }
        match self.mesh.face_edge.gather_connected(&self.faces) {
            Ok(edges) => {
                proof {
                    assert forall|f: usize| self@.faces.contains(f) implies f
                        < self.mesh().num_faces() by {
                        assert(self.faces@.contains(f));
                    }
                }
                Ok(edges)
            },
            Err(e) => {
                proof {
                    let f = choose|f: usize|
                        self.faces@.contains(f) && f >= self.mesh.face_edge.num_rows();
                    assert(self@.faces.contains(f) && !(f < self.mesh().num_faces()));
                }
                Err(e)
            },
        }
    }

    /// Tells whether the selection holds the edges of its faces and the
    /// vertices of those edges. A face that the mesh does not have is
    /// refused.
    pub fn is_complex(&self) -> (res: Result<bool, MeshError>)
        ensures
            match res {
                Ok(r) => self.mesh().has_faces(self@) && r == self.mesh().is_complex_of(self@),
                Err(e) => e == MeshError::IndexOutOfRange && !self.mesh().has_faces(self@),
            },
    {
        proof {
            use_type_invariant(self.mesh);
            self.mesh.lemma_matrices();
            assert(self@.edges == self.edges@);
            assert(self@.vertices == self.vertices@);
        }
        let edges = match self.edges_of_faces() {
            Ok(edges) => edges,
            Err(e) => {
                return Err(e);
            },
        };
        if !is_subset(&edges, &self.edges) {
            return Ok(false);
        }
        let vertices = self.mesh.edge_vertex.image_of(&edges);
        Ok(is_subset(&vertices, &self.vertices))
    }

    /// The dimension of the selection if it is a pure complex: two with a
    /// face, one with an edge and no face, zero otherwise. A face that the
    /// mesh does not have is refused.
    pub fn is_pure_complex(&self) -> (res: Result<Option<usize>, MeshError>)
        ensures
            match res {
                Ok(r) => self.mesh().has_faces(self@) && r == self.mesh().pure_dimension_of(
                    self@,
                ),
                Err(e) => e == MeshError::IndexOutOfRange && !self.mesh().has_faces(self@),
            },
    {
        proof {
            use_type_invariant(self.mesh);
            self.mesh.lemma_matrices();
            assert(self@.edges == self.edges@);
            assert(self@.vertices == self.vertices@);
            assert(self@.faces == self.faces@);
        }
        let edges = match self.edges_of_faces() {
            Ok(edges) => edges,
            Err(e) => {
                return Err(e);
            },
        };
        if !same_members(&edges, &self.edges) {
            return Ok(None);
        }
        let vertices = self.mesh.edge_vertex.image_of(&edges);
        if !same_members(&vertices, &self.vertices) {
            return Ok(None);
        }
        proof {
            assert(self.faces@.is_empty() <==> self.faces@ =~= Set::<usize>::empty());
            assert(self.edges@.is_empty() <==> self.edges@ =~= Set::<usize>::empty());
        }
        if !self.faces.is_empty() {
            return Ok(Some(2));
        }
        if !self.edges.is_empty() {
            return Ok(Some(1));
        }
        Ok(Some(0))
    }

    /// Star operation `St(S)` (not Hodge star). It looks up the selected
    /// vertices and edges, and refuses those that the mesh does not have.
    pub fn star(&self) -> (res: Result<Self, MeshError>)
        ensures
            match res {
                Ok(s) => {
                    &&& self.mesh().has_vertices(self@)
                    &&& self.mesh().has_edges(self@)
                    &&& s.mesh() == self.mesh()
                    &&& s@ == self.mesh().star_of(self@)
                    &&& includes(s@, self@)
                    &&& self.mesh().has_vertices(s@)
                    &&& self.mesh().has_edges(s@)
                    &&& self.mesh().has_faces(self@) ==> self.mesh().has_faces(s@)
                },
                Err(e) => e == MeshError::IndexOutOfRange && !(self.mesh().has_vertices(self@)
                    && self.mesh().has_edges(self@)),
            },
    {
        proof {
            use_type_invariant(self.mesh);
            self.mesh.lemma_matrices();
            self.mesh.vertex_edge.lemma_image_in_range(self.vertices@);
            assert(self@.vertices == self.vertices@);
            assert(self@.edges == self.edges@);
            assert(self@.faces == self.faces@);
        }
        let around = match self.mesh.vertex_edge.gather_connected(&self.vertices) {
            Ok(around) => around,
            Err(e) => {
                proof {
                    let v = choose|v: usize|
                        self.vertices@.contains(v) && v >= self.mesh.vertex_edge.num_rows();
                    assert(self@.vertices.contains(v) && !(v < self.mesh().num_vertices()));
                }
                return Err(e);
            },
        };
        let edges = union(&around, &self.edges);
        let over = match self.mesh.edge_face.gather_connected(&edges) {
            Ok(over) => over,
            Err(e) => {
                proof {
                    let x = choose|x: usize|
                        edges@.contains(x) && x >= self.mesh.edge_face.num_rows();
                    assert(!around@.contains(x));
                    assert(self@.edges.contains(x) && !(x < self.mesh().num_edges()));
                }
                return Err(e);
            },
        };
        let faces = union(&over, &self.faces);
        proof {
            assert forall|v: usize| self@.vertices.contains(v) implies v
                < self.mesh().num_vertices() by {
                assert(self.vertices@.contains(v));
            }
            assert forall|x: usize| self@.edges.contains(x) implies x
                < self.mesh().num_edges() by {
                assert(edges@.contains(x));
            }
            self.mesh.lemma_star_in_mesh(self@);
        }
        Ok(Simplices { mesh: self.mesh, vertices: self.vertices.clone(), edges, faces })
    }

    /// Closure operation `Cl(S)`. It looks up the selected faces and edges,
    /// and refuses those that the mesh does not have.
    pub fn closure(&self) -> (res: Result<Self, MeshError>)
        ensures
            match res {
                Ok(s) => {
                    &&& self.mesh().has_faces(self@)
                    &&& self.mesh().has_edges(self@)
                    &&& s.mesh() == self.mesh()
                    &&& s@ == self.mesh().closure_of(self@)
                    &&& includes(s@, self@)
                    &&& s.mesh().is_complex_of(s@)
                    &&& self.mesh().has_faces(s@)
                    &&& self.mesh().has_edges(s@)
                    &&& self.mesh().has_vertices(self@) ==> self.mesh().has_vertices(s@)
                },
                Err(e) => e == MeshError::IndexOutOfRange && !(self.mesh().has_faces(self@)
                    && self.mesh().has_edges(self@)),
            },
    {
        proof {
            use_type_invariant(self.mesh);
            self.mesh.lemma_matrices();
            self.mesh.lemma_closure_is_complex(self@);
            assert(self@.vertices == self.vertices@);
            assert(self@.edges == self.edges@);
            assert(self@.faces == self.faces@);
        }
        let under = match self.edges_of_faces() {
            Ok(under) => under,
            Err(e) => {
                return Err(e);
            },
        };
        let edges = union(&under, &self.edges);
        let ends = match self.mesh.edge_vertex.gather_connected(&edges) {
            Ok(ends) => ends,
            Err(e) => {
                proof {
                    let x = choose|x: usize|
                        edges@.contains(x) && x >= self.mesh.edge_vertex.num_rows();
                    assert(!under@.contains(x));
                    assert(self@.edges.contains(x) && !(x < self.mesh().num_edges()));
                }
                return Err(e);
            },
        };
        let vertices = union(&ends, &self.vertices);
        proof {
            assert forall|x: usize| self@.edges.contains(x) implies x
                < self.mesh().num_edges() by {
                assert(edges@.contains(x));
            }
            self.mesh.lemma_closure_in_mesh(self@);
        }
        Ok(Simplices { mesh: self.mesh, vertices, edges, faces: self.faces.clone() })
    }

    /// What `self` selects and `other` does not.
    pub fn without(&self, other: &Self) -> (s: Self)
        ensures
            s.mesh() == self.mesh(),
            s@ == minus(self@, other@),
    {
        Simplices {
            mesh: self.mesh,
            vertices: difference(&self.vertices, &other.vertices),
            edges: difference(&self.edges, &other.edges),
            faces: difference(&self.faces, &other.faces),
        }
    }

    /// Link operation `Lk(S)`. It looks up every selected index, and refuses
    /// those that the mesh does not have.
    pub fn link(&self) -> (res: Result<Self, MeshError>)
        ensures
            match res {
                Ok(s) => {
                    &&& self.mesh().holds(self@)
                    &&& s.mesh() == self.mesh()
                    &&& s@ == self.mesh().link_of(self@)
                },
                Err(e) => e == MeshError::IndexOutOfRange && !self.mesh().holds(self@),
            },
    {
        let closed = match self.closure() {
            Ok(closed) => closed,
            Err(e) => {
                return Err(e);
            },
        };
        let outer = match closed.star() {
            Ok(outer) => outer,
            Err(e) => {
                return Err(e);
            },
        };
        proof {
            assert forall|v: usize| self@.vertices.contains(v) implies v
                < self.mesh().num_vertices() by {
                assert(closed@.vertices.contains(v));
            }
        }
        let around = match self.star() {
            Ok(around) => around,
            Err(e) => {
                return Err(e);
            },
        };
        let inner = match around.closure() {
            Ok(inner) => inner,
            Err(e) => {
                return Err(e);
            },
        };
        Ok(outer - inner)
    }

    /// Boundary operation `bd(S)`, which has no definition yet.
    pub fn boundary(&self) -> (res: Result<Self, MeshError>)
        ensures
            res matches Err(e) && e == MeshError::UnsupportedOperation,
    {
        Err(MeshError::UnsupportedOperation)
    }
}

impl<'mesh> Clone for Simplices<'mesh> {
    fn clone(&self) -> (s: Self)
        ensures
            s.mesh() == self.mesh(),
            s@ == self@,
    {
        Simplices {
            mesh: self.mesh,
            vertices: self.vertices.clone(),
            edges: self.edges.clone(),
            faces: self.faces.clone(),
        }
    }
}

impl<'mesh> std::ops::Sub for Simplices<'mesh> {
    type Output = Self;

    /// What `self` selects and `other` does not, dimension by dimension.
    fn sub(self, other: Self) -> (s: Self)
        ensures
            s.mesh() == self.mesh(),
            s@ == minus(self@, other@),
    {
        self.without(&other)
    }
}

impl<'mesh> vstd::std_specs::ops::SubSpecImpl for Simplices<'mesh> {
    open spec fn obeys_sub_spec() -> bool {
        false
    }

    open spec fn sub_req(self, other: Self) -> bool {
        true
    }

    open spec fn sub_spec(self, other: Self) -> Self {
        self
    }
}

} // verus!
