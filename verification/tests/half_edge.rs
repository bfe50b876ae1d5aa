use umesh::{ConnectionMatrix, Mesh, MeshError, Simplices};

const SQUARE: [usize; 8] = [2, 7, 4, 1, 6, 3, 0, 5];

fn square() -> Mesh {
    Mesh::from_permutation(&SQUARE).unwrap()
}

fn parts(s: &Simplices) -> (Vec<usize>, Vec<usize>, Vec<usize>) {
    (s.vertices(), s.edges(), s.faces())
}

fn pairs(m: &ConnectionMatrix) -> Vec<(usize, usize)> {
    m.indices().collect()
}

#[test]
fn square_permutation_gives_a_mesh() {
    let mesh = Mesh::from_permutation(&[2, 7, 4, 1, 6, 3, 0, 5]).unwrap();
    assert_eq!(
        pairs(mesh.vertex_edge()),
        vec![(0, 0), (0, 7), (1, 1), (1, 2), (2, 3), (2, 4), (3, 5), (3, 6)]
    );
    assert_eq!(
        pairs(mesh.edge_face()),
        vec![(0, 0), (1, 1), (2, 0), (3, 1), (4, 0), (5, 1), (6, 0), (7, 1)]
    );
    assert_eq!(mesh.vertex_edge().shape(), (4, 8));
    assert_eq!(mesh.edge_face().shape(), (8, 2));
}

#[test]
fn every_half_edge_has_one_vertex_and_one_face() {
    let mesh = square();
    let mut vertices_of = vec![0usize; SQUARE.len()];
    for (_, e) in mesh.vertex_edge().indices() {
        vertices_of[e] += 1;
    }
    assert_eq!(vertices_of, vec![1; SQUARE.len()]);
    for e in 0..SQUARE.len() {
        assert_eq!(mesh.edge_face().get_connected(e).unwrap().len(), 1);
        assert_eq!(mesh.edge_vertex().get_connected(e).unwrap().len(), 1);
    }
}

#[test]
fn mesh_keeps_the_transposes() {
    let mesh = square();
    assert_eq!(*mesh.edge_vertex(), mesh.vertex_edge().transpose());
    assert_eq!(*mesh.face_edge(), mesh.edge_face().transpose());
    assert_eq!(
        pairs(mesh.face_edge()),
        vec![(0, 0), (0, 2), (0, 4), (0, 6), (1, 1), (1, 3), (1, 5), (1, 7)]
    );
    assert_eq!(mesh.edge_vertex().shape(), (8, 4));
    assert_eq!(mesh.face_edge().shape(), (2, 8));
}

#[test]
fn malformed_permutation_gives_no_mesh() {
    assert_eq!(Mesh::from_permutation(&[0, 1, 2]).err(), Some(MeshError::InvalidPermutation));
    assert_eq!(Mesh::from_permutation(&[0, 2]).err(), Some(MeshError::InvalidPermutation));
    assert_eq!(Mesh::from_permutation(&[1, 1]).err(), Some(MeshError::InvalidPermutation));
    assert_eq!(
        Mesh::from_permutation(&[2, 7, 4, 1, 6, 3, 0]).err(),
        Some(MeshError::InvalidPermutation)
    );
}

#[test]
fn empty_permutation_gives_the_empty_mesh() {
    let mesh = Mesh::from_permutation(&[]).unwrap();
    assert_eq!(mesh.vertex_edge().shape(), (1, 1));
    assert_eq!(mesh.edge_face().shape(), (1, 1));
    assert_eq!(pairs(mesh.vertex_edge()), vec![]);
}

#[test]
fn matrices_that_agree_on_the_edges_make_a_mesh() {
    let vertex_edge = ConnectionMatrix::from_vec(vec![(0, 0), (0, 1), (1, 0), (1, 1)]);
    let edge_face = ConnectionMatrix::from_vec(vec![(0, 0), (1, 0)]);
    let mesh = Mesh::from_connections(vertex_edge.clone(), edge_face.clone()).unwrap();
    assert_eq!(*mesh.vertex_edge(), vertex_edge);
    assert_eq!(*mesh.edge_face(), edge_face);
    assert_eq!(*mesh.edge_vertex(), vertex_edge.transpose());
    assert_eq!(*mesh.face_edge(), edge_face.transpose());
}

#[test]
fn matrices_that_disagree_on_the_edges_make_none() {
    let vertex_edge = ConnectionMatrix::from_vec(vec![(0, 0), (0, 1), (1, 0), (1, 2)]);
    let edge_face = ConnectionMatrix::from_vec(vec![(0, 0), (1, 0)]);
    assert_eq!(
        Mesh::from_connections(vertex_edge, edge_face).err(),
        Some(MeshError::ShapeMismatch)
    );
    let few = ConnectionMatrix::from_vec(vec![(0, 0)]);
    let many = ConnectionMatrix::from_vec(vec![(3, 0)]);
    assert_eq!(Mesh::from_connections(few, many).err(), Some(MeshError::ShapeMismatch));
}

#[test]
fn simplices_are_sorted_and_given_once() {
    let mesh = square();
    let s = mesh.simplicies(&[3, 1, 3], &[7, 0, 0, 2], &[1, 1]);
    assert_eq!(parts(&s), (vec![1, 3], vec![0, 2, 7], vec![1]));
}

#[test]
fn order_and_repeats_do_not_matter() {
    let mesh = square();
    let a = mesh.simplicies(&[2, 0, 2], &[], &[]);
    let b = mesh.simplicies(&[0, 2], &[], &[]);
    assert_eq!(parts(&a), parts(&b));
    assert_eq!(parts(&a), (vec![0, 2], vec![], vec![]));
}

#[test]
fn any_index_can_be_selected() {
    let mesh = square();
    let s = mesh.simplicies(&[9, 4], &[8], &[2, 100]);
    assert_eq!(parts(&s), (vec![4, 9], vec![8], vec![2, 100]));
    assert!(!s.is_empty());
    let empty = Mesh::from_permutation(&[]).unwrap();
    assert_eq!(parts(&empty.simplicies(&[5], &[], &[])), (vec![5], vec![], vec![]));
}

#[test]
fn star_refuses_vertices_and_edges_beyond_the_mesh() {
    let mesh = square();
    assert_eq!(mesh.simplicies(&[4], &[], &[]).star().err(), Some(MeshError::IndexOutOfRange));
    assert_eq!(mesh.simplicies(&[0, 9], &[1], &[0]).star().err(), Some(MeshError::IndexOutOfRange));
    assert_eq!(mesh.simplicies(&[], &[8], &[]).star().err(), Some(MeshError::IndexOutOfRange));
    assert_eq!(mesh.simplicies(&[0], &[3, 8], &[]).star().err(), Some(MeshError::IndexOutOfRange));
    // the star looks no face up
    let s = mesh.simplicies(&[0], &[], &[2]).star().unwrap();
    assert_eq!(parts(&s), (vec![0], vec![0, 7], vec![0, 1, 2]));
    assert!(mesh.simplicies(&[3], &[7], &[1]).star().is_ok());
}

#[test]
fn closure_refuses_faces_and_edges_beyond_the_mesh() {
    let mesh = square();
    assert_eq!(mesh.simplicies(&[], &[], &[2]).closure().err(), Some(MeshError::IndexOutOfRange));
    assert_eq!(mesh.simplicies(&[], &[8], &[]).closure().err(), Some(MeshError::IndexOutOfRange));
    assert_eq!(mesh.simplicies(&[0], &[1, 8], &[0]).closure().err(), Some(MeshError::IndexOutOfRange));
    // the closure looks no vertex up
    let s = mesh.simplicies(&[4], &[5], &[]).closure().unwrap();
    assert_eq!(parts(&s), (vec![3, 4], vec![5], vec![]));
    assert!(mesh.simplicies(&[3], &[7], &[1]).closure().is_ok());
}

#[test]
fn link_refuses_every_index_beyond_the_mesh() {
    let mesh = square();
    assert_eq!(mesh.simplicies(&[4], &[], &[]).link().err(), Some(MeshError::IndexOutOfRange));
    assert_eq!(mesh.simplicies(&[], &[8], &[]).link().err(), Some(MeshError::IndexOutOfRange));
    assert_eq!(mesh.simplicies(&[], &[], &[2]).link().err(), Some(MeshError::IndexOutOfRange));
    assert_eq!(mesh.simplicies(&[0, 9], &[1], &[0]).link().err(), Some(MeshError::IndexOutOfRange));
    assert!(mesh.simplicies(&[3], &[7], &[1]).link().is_ok());
}

#[test]
fn complex_tests_refuse_faces_beyond_the_mesh() {
    let mesh = square();
    let s = mesh.simplicies(&[], &[], &[2]);
    assert_eq!(s.is_complex(), Err(MeshError::IndexOutOfRange));
    assert_eq!(s.is_pure_complex(), Err(MeshError::IndexOutOfRange));
    // they look up faces only, and the edges of those faces
    let t = mesh.simplicies(&[4], &[8], &[]);
    assert_eq!(t.is_complex(), Ok(true));
    assert_eq!(t.is_pure_complex(), Ok(None));
    let u = mesh.simplicies(&[0, 1, 2, 3, 4], &[0, 2, 4, 6, 8], &[0]);
    assert_eq!(u.is_complex(), Ok(true));
    assert_eq!(u.is_pure_complex(), Ok(None));
}

#[test]
fn nothing_selected_is_empty() {
    let mesh = square();
    assert!(mesh.simplicies(&[], &[], &[]).is_empty());
    assert!(!mesh.simplicies(&[0], &[], &[]).is_empty());
    assert!(!mesh.simplicies(&[], &[0], &[]).is_empty());
    assert!(!mesh.simplicies(&[], &[], &[0]).is_empty());
}

#[test]
fn star_of_a_vertex() {
    let mesh = square();
    let s = mesh.simplicies(&[0], &[], &[]);
    assert_eq!(parts(&s.star().unwrap()), (vec![0], vec![0, 7], vec![0, 1]));
}

#[test]
fn star_of_an_edge() {
    let mesh = square();
    let s = mesh.simplicies(&[], &[3], &[]);
    assert_eq!(parts(&s.star().unwrap()), (vec![], vec![3], vec![1]));
}

#[test]
fn star_keeps_what_is_selected() {
    let mesh = square();
    let s = mesh.simplicies(&[2], &[0], &[]);
    assert_eq!(parts(&s.star().unwrap()), (vec![2], vec![0, 3, 4], vec![0, 1]));
}

#[test]
fn closure_of_a_face() {
    let mesh = square();
    let s = mesh.simplicies(&[], &[], &[0]);
    assert_eq!(parts(&s.closure().unwrap()), (vec![0, 1, 2, 3], vec![0, 2, 4, 6], vec![0]));
}

#[test]
fn closure_of_an_edge() {
    let mesh = square();
    let s = mesh.simplicies(&[], &[5], &[]);
    assert_eq!(parts(&s.closure().unwrap()), (vec![3], vec![5], vec![]));
}

#[test]
fn closure_of_a_vertex_is_the_vertex() {
    let mesh = square();
    let s = mesh.simplicies(&[1], &[], &[]);
    assert_eq!(parts(&s.closure().unwrap()), (vec![1], vec![], vec![]));
}

#[test]
fn closure_is_a_complex() {
    let mesh = square();
    let selections: Vec<(Vec<usize>, Vec<usize>, Vec<usize>)> = vec![
        (vec![], vec![], vec![]),
        (vec![0], vec![], vec![]),
        (vec![], vec![3], vec![]),
        (vec![], vec![], vec![1]),
        (vec![2], vec![0, 5], vec![0]),
        (vec![0, 1, 2, 3], vec![0, 1, 2, 3, 4, 5, 6, 7], vec![0, 1]),
        (vec![7], vec![1], vec![1]),
    ];
    for (v, e, f) in selections {
        let s = mesh.simplicies(&v, &e, &f);
        assert_eq!(s.closure().unwrap().is_complex(), Ok(true));
    }
}

#[test]
fn face_without_its_edges_is_no_complex() {
    let mesh = square();
    assert_eq!(mesh.simplicies(&[], &[], &[0]).is_complex(), Ok(false));
    assert_eq!(mesh.simplicies(&[0, 1, 2, 3], &[0, 2, 4], &[0]).is_complex(), Ok(false));
    assert_eq!(mesh.simplicies(&[0, 1, 2], &[0, 2, 4, 6], &[0]).is_complex(), Ok(false));
    assert_eq!(mesh.simplicies(&[0, 1, 2, 3], &[0, 2, 4, 6], &[0]).is_complex(), Ok(true));
    assert_eq!(mesh.simplicies(&[0], &[], &[]).is_complex(), Ok(true));
    assert_eq!(mesh.simplicies(&[], &[], &[]).is_complex(), Ok(true));
}

#[test]
fn closure_of_star_and_star_of_closure_include_the_selection() {
    let mesh = square();
    let selections: Vec<(Vec<usize>, Vec<usize>, Vec<usize>)> = vec![
        (vec![0], vec![], vec![]),
        (vec![], vec![3, 6], vec![]),
        (vec![], vec![], vec![1]),
        (vec![1, 3], vec![0], vec![0]),
    ];
    for (v, e, f) in selections {
        let s = mesh.simplicies(&v, &e, &f);
        let closure_of_star = s.star().unwrap().closure().unwrap();
        let star_of_closure = s.closure().unwrap().star().unwrap();
        for big in [closure_of_star, star_of_closure] {
            assert!(v.iter().all(|x| big.vertices().contains(x)));
            assert!(e.iter().all(|x| big.edges().contains(x)));
            assert!(f.iter().all(|x| big.faces().contains(x)));
        }
    }
}

#[test]
fn link_of_a_face() {
    let mesh = square();
    let s = mesh.simplicies(&[], &[], &[0]);
    let star_of_closure = s.closure().unwrap().star().unwrap();
    let closure_of_star = s.star().unwrap().closure().unwrap();
    assert_eq!(
        parts(&star_of_closure),
        (vec![0, 1, 2, 3], vec![0, 1, 2, 3, 4, 5, 6, 7], vec![0, 1])
    );
    assert_eq!(parts(&closure_of_star), (vec![0, 1, 2, 3], vec![0, 2, 4, 6], vec![0]));
    let link = s.link().unwrap();
    assert_eq!(parts(&link), (vec![], vec![1, 3, 5, 7], vec![1]));
    assert_eq!(parts(&link), parts(&(star_of_closure - closure_of_star)));
}

#[test]
fn link_of_a_vertex() {
    let mesh = square();
    let s = mesh.simplicies(&[0], &[], &[]);
    let link = s.link().unwrap();
    assert_eq!(parts(&link), (vec![], vec![], vec![]));
    assert!(link.is_empty());
}

#[test]
fn difference_goes_dimension_by_dimension() {
    let mesh = square();
    let a = mesh.simplicies(&[0, 1, 2], &[0, 1], &[0, 1]);
    let b = mesh.simplicies(&[1, 3], &[0, 1, 5], &[]);
    assert_eq!(parts(&a.without(&b)), (vec![0, 2], vec![], vec![0, 1]));
    assert_eq!(parts(&(a.clone() - b.clone())), (vec![0, 2], vec![], vec![0, 1]));
    assert_eq!(parts(&(b - a)), (vec![3], vec![5], vec![]));
}

#[test]
fn everything_is_a_pure_complex_of_dimension_two() {
    let mesh = square();
    let all = mesh.simplicies(&[0, 1, 2, 3], &[0, 1, 2, 3, 4, 5, 6, 7], &[0, 1]);
    assert_eq!(all.is_pure_complex(), Ok(Some(2)));
    assert_eq!(all.is_complex(), Ok(true));
}

#[test]
fn everything_with_an_edge_on_no_face_is_a_complex_but_not_pure() {
    let vertex_edge = ConnectionMatrix::from_vec(vec![(0, 0), (0, 1)]);
    let edge_face = ConnectionMatrix::from_vec(vec![(1, 0)]);
    let mesh = Mesh::from_connections(vertex_edge, edge_face).unwrap();
    let all = mesh.simplicies(&[0], &[0, 1], &[0]);
    assert_eq!(all.is_complex(), Ok(true));
    assert_eq!(all.is_pure_complex(), Ok(None));
}

#[test]
fn closed_face_is_a_pure_complex() {
    let mesh = square();
    let s = mesh.simplicies(&[], &[], &[1]).closure().unwrap();
    assert_eq!(s.is_pure_complex(), Ok(Some(2)));
}

#[test]
fn face_without_all_its_edges_is_not_pure() {
    let mesh = square();
    assert_eq!(mesh.simplicies(&[], &[], &[0]).is_pure_complex(), Ok(None));
    assert_eq!(
        mesh.simplicies(&[0, 1, 2, 3], &[0, 2, 4], &[0]).is_pure_complex(),
        Ok(None)
    );
    assert_eq!(
        mesh.simplicies(&[0, 1, 2, 3], &[0, 1, 2, 3, 4, 5, 6, 7], &[0]).is_pure_complex(),
        Ok(None)
    );
    assert_eq!(
        mesh.simplicies(&[0, 1, 2], &[0, 2, 4, 6], &[0]).is_pure_complex(),
        Ok(None)
    );
}

#[test]
fn nothing_is_a_pure_complex_of_dimension_zero() {
    let mesh = square();
    assert_eq!(mesh.simplicies(&[], &[], &[]).is_pure_complex(), Ok(Some(0)));
    assert_eq!(mesh.simplicies(&[0], &[], &[]).is_pure_complex(), Ok(None));
    assert_eq!(mesh.simplicies(&[], &[0], &[]).is_pure_complex(), Ok(None));
}

#[test]
fn boundary_is_not_supported() {
    let mesh = square();
    let s = mesh.simplicies(&[0], &[0], &[0]);
    assert_eq!(s.boundary().err(), Some(MeshError::UnsupportedOperation));
    assert_eq!(
        mesh.simplicies(&[], &[], &[]).boundary().err(),
        Some(MeshError::UnsupportedOperation)
    );
}

#[test]
fn clones_select_the_same() {
    let mesh = square();
    let s = mesh.simplicies(&[1], &[2, 3], &[0]);
    assert_eq!(parts(&s.clone()), (vec![1], vec![2, 3], vec![0]));
    let copy = mesh.clone();
    assert_eq!(copy.vertex_edge(), mesh.vertex_edge());
    assert_eq!(copy.face_edge(), mesh.face_edge());
}

#[test]
fn errors_are_told_apart() {
    let all = [
        MeshError::InvalidPermutation,
        MeshError::IndexOutOfRange,
        MeshError::ShapeMismatch,
        MeshError::UnsortedInputViolation,
        MeshError::UnsupportedOperation,
    ];
    for (i, a) in all.iter().enumerate() {
        for (j, b) in all.iter().enumerate() {
            assert_eq!(a == b, i == j);
        }
    }
}
