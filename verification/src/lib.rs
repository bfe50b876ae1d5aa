//! Combinatorial topology of polygonal meshes given by permutations of
//! oriented half-edges.
//!
//! A permutation of half-edges is cut into its orbits, which are the
//! vertices and the faces of a mesh; the incidences between them are kept in
//! sparse connection matrices; and selections of simplices of the mesh are
//! combined by star, closure and link.

pub mod connection_matrix;
pub mod cycles;
pub mod error;
pub mod graph;
pub mod half_edge;
pub mod index_set;
pub mod orbit_order;
pub mod permutation;
pub mod sorting;

pub use connection_matrix::{ConnectionMatrix, IndexIter};
pub use error::MeshError;
pub use graph::{Edge, Permutations, Vertex};
pub use half_edge::{Mesh, Simplices};
pub use permutation::{gather_faces, gather_vertices, twin, Orbit};
