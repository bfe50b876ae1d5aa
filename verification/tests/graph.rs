use petgraph::graph::{edge_index, node_index};
use umesh::{Edge, MeshError, Permutations, Vertex};

#[test]
fn vertex_new() {
    let v = Vertex::new(&[2, 1, 3]);
    assert_eq!(v.indices(), &[1, 3, 2]);
}

#[test]
fn permutations() {
    let p = Permutations::new(&[2, 7, 4, 1, 6, 3, 0, 5]).unwrap();
    let g = p.to_graph();
    assert_eq!(g.node_count(), 4);
    assert_eq!(g.edge_count(), 8);
}

#[test]
fn graph_of_the_square() {
    let p = Permutations::new(&[2, 7, 4, 1, 6, 3, 0, 5]).unwrap();
    let g = p.to_graph();
    for i in 0..4 {
        assert_eq!(g.node_weight(node_index(i)), Some(&i));
    }
    assert_eq!(g.node_weight(node_index(4)), None);
    let expected = [(0, 1), (1, 0), (1, 2), (2, 1), (2, 3), (3, 2), (3, 0), (0, 3)];
    for (h, (a, b)) in expected.iter().enumerate() {
        assert_eq!(g.edge_endpoints(edge_index(h)), Some((node_index(*a), node_index(*b))));
        assert_eq!(g.edge_weight(edge_index(h)), Some(&h));
    }
    assert_eq!(g.edge_endpoints(edge_index(8)), None);
}

#[test]
fn graph_of_no_half_edges_is_empty() {
    let g = Permutations::new(&[]).unwrap().to_graph();
    assert_eq!(g.node_count(), 0);
    assert_eq!(g.edge_count(), 0);
}

#[test]
fn graph_of_one_edge_between_two_vertices() {
    let g = Permutations::new(&[0, 1]).unwrap().to_graph();
    assert_eq!(g.node_count(), 1);
    assert_eq!(g.edge_count(), 2);
    let h = Permutations::new(&[1, 0]).unwrap().to_graph();
    assert_eq!(h.node_count(), 2);
    assert_eq!(h.edge_endpoints(edge_index(0)), Some((node_index(0), node_index(1))));
    assert_eq!(h.edge_endpoints(edge_index(1)), Some((node_index(1), node_index(0))));
}

#[test]
fn ends_of_the_square() {
    let p = Permutations::new(&[2, 7, 4, 1, 6, 3, 0, 5]).unwrap();
    let (count, ends) = p.ends();
    assert_eq!(count, 4);
    let expected = [(0, 1), (1, 0), (1, 2), (2, 1), (2, 3), (3, 2), (3, 0), (0, 3)];
    assert_eq!(ends.len(), 8);
    for (h, (a, b)) in expected.iter().enumerate() {
        assert_eq!(ends[h], Edge { start: Some(*a), end: Some(*b) });
    }
}

#[test]
fn new_edge_has_no_ends() {
    assert_eq!(Edge::new(), Edge { start: None, end: None });
}

#[test]
fn permutation_knows_its_length() {
    assert_eq!(Permutations::new(&[2, 7, 4, 1, 6, 3, 0, 5]).unwrap().len(), 8);
    assert_eq!(Permutations::new(&[]).unwrap().len(), 0);
    assert_eq!(Permutations::new(&[1, 0]).unwrap().clone().len(), 2);
}

#[test]
fn what_is_no_permutation_is_refused() {
    assert_eq!(Permutations::new(&[0]).err(), Some(MeshError::InvalidPermutation));
    assert_eq!(Permutations::new(&[0, 2]).err(), Some(MeshError::InvalidPermutation));
    assert_eq!(Permutations::new(&[1, 1]).err(), Some(MeshError::InvalidPermutation));
    assert_eq!(Permutations::new(&[1, 2, 0]).err(), Some(MeshError::InvalidPermutation));
}

#[test]
fn vertex_orbit_of_each_half_edge() {
    let p = Permutations::new(&[2, 7, 4, 1, 6, 3, 0, 5]).unwrap();
    assert_eq!(p.next_twin_orbit(0).indices(), &[0, 7]);
    assert_eq!(p.next_twin_orbit(7).indices(), &[0, 7]);
    assert_eq!(p.next_twin_orbit(1).indices(), &[1, 2]);
    assert_eq!(p.next_twin_orbit(2).indices(), &[1, 2]);
    assert_eq!(p.next_twin_orbit(4).indices(), &[3, 4]);
    assert_eq!(p.next_twin_orbit(6).indices(), &[5, 6]);
}

#[test]
fn vertex_orbit_starts_with_its_smallest_half_edge() {
    let p = Permutations::new(&[2, 3, 4, 5, 0, 1]).unwrap();
    // 5 -> next[4] = 0 -> next[1] = 3 -> next[2] = 4 -> next[5] = 1 -> next[0] = 2 -> next[3] = 5
    assert_eq!(p.next_twin_orbit(5).indices(), &[0, 3, 4, 1, 2, 5]);
    assert_eq!(p.next_twin_orbit(4).indices(), &[0, 3, 4, 1, 2, 5]);
    assert_eq!(p.next_twin_orbit(0).indices(), &[0, 3, 4, 1, 2, 5]);
}
