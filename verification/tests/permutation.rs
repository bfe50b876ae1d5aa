use std::cmp::Ordering;
use umesh::orbit_order::lex_compare;
use umesh::permutation::is_valid_permutation;
use umesh::{gather_faces, gather_vertices, twin, MeshError, Orbit};

fn lists(orbits: &[Orbit]) -> Vec<Vec<usize>> {
    orbits.iter().map(|o| o.indices().to_vec()).collect()
}

#[test]
fn orbit_new() {
    let v = Orbit::new(&[2, 1, 3]);
    assert_eq!(v.indices(), &[1, 3, 2]);
}

#[test]
fn orbit_starts_with_its_minimum() {
    assert_eq!(Orbit::new(&[5]).indices(), &[5]);
    assert_eq!(Orbit::new(&[0, 4, 2]).indices(), &[0, 4, 2]);
    assert_eq!(Orbit::new(&[4, 2, 0]).indices(), &[0, 4, 2]);
    assert_eq!(Orbit::new(&[9, 8, 7, 6]).indices(), &[6, 9, 8, 7]);
}

#[test]
fn orbit_takes_the_first_of_equal_minima() {
    assert_eq!(Orbit::new(&[3, 1, 2, 1, 4]).indices(), &[1, 2, 1, 4, 3]);
}

#[test]
fn every_rotation_has_the_same_orbit() {
    let cycle = [6usize, 3, 9, 1, 7];
    let expected = [1usize, 7, 6, 3, 9];
    for k in 0..cycle.len() {
        let mut rotated = cycle[k..].to_vec();
        rotated.extend_from_slice(&cycle[..k]);
        assert_eq!(Orbit::new(&rotated).indices(), &expected);
    }
}

#[test]
fn orbit_clone_keeps_the_half_edges() {
    let o = Orbit::new(&[2, 1, 3]);
    assert_eq!(o.clone().indices(), &[1, 3, 2]);
}

#[test]
fn twin_flips_the_lowest_bit() {
    assert_eq!(twin(0), 1);
    assert_eq!(twin(1), 0);
    assert_eq!(twin(6), 7);
    assert_eq!(twin(7), 6);
    assert_eq!(twin(usize::MAX), usize::MAX - 1);
    assert_eq!(twin(usize::MAX - 1), usize::MAX);
    for h in 0..64 {
        assert_eq!(twin(h), h ^ 1);
        assert_eq!(twin(twin(h)), h);
    }
}

#[test]
fn faces_of_the_square() {
    let faces = gather_faces(&[2, 7, 4, 1, 6, 3, 0, 5]).unwrap();
    assert_eq!(lists(&faces), vec![vec![0, 2, 4, 6], vec![1, 7, 5, 3]]);
}

#[test]
fn vertices_of_the_square() {
    let vertices = gather_vertices(&[2, 7, 4, 1, 6, 3, 0, 5]).unwrap();
    assert_eq!(lists(&vertices), vec![vec![0, 7], vec![1, 2], vec![3, 4], vec![5, 6]]);
}

#[test]
fn every_half_edge_lies_in_one_orbit() {
    let next = [2usize, 7, 4, 1, 6, 3, 0, 5];
    for orbits in [gather_faces(&next).unwrap(), gather_vertices(&next).unwrap()] {
        let mut seen = vec![0usize; next.len()];
        for orbit in &orbits {
            for &h in orbit.indices() {
                seen[h] += 1;
            }
        }
        assert_eq!(seen, vec![1; next.len()]);
    }
}

#[test]
fn orbits_come_in_increasing_order() {
    let next = [1usize, 0, 3, 2, 5, 4];
    let faces = gather_faces(&next).unwrap();
    assert_eq!(lists(&faces), vec![vec![0, 1], vec![2, 3], vec![4, 5]]);
    let vertices = gather_vertices(&next).unwrap();
    assert_eq!(lists(&vertices), vec![vec![0], vec![1], vec![2], vec![3], vec![4], vec![5]]);
}

#[test]
fn identity_has_one_face_for_each_half_edge() {
    let faces = gather_faces(&[0, 1, 2, 3]).unwrap();
    assert_eq!(lists(&faces), vec![vec![0], vec![1], vec![2], vec![3]]);
    let vertices = gather_vertices(&[0, 1, 2, 3]).unwrap();
    assert_eq!(lists(&vertices), vec![vec![0, 1], vec![2, 3]]);
}

#[test]
fn no_half_edges_no_orbits() {
    assert_eq!(gather_faces(&[]).unwrap().len(), 0);
    assert_eq!(gather_vertices(&[]).unwrap().len(), 0);
}

#[test]
fn odd_length_is_no_permutation() {
    assert_eq!(gather_faces(&[0]).err(), Some(MeshError::InvalidPermutation));
    assert_eq!(gather_vertices(&[0]).err(), Some(MeshError::InvalidPermutation));
    assert_eq!(gather_faces(&[1, 2, 0]).err(), Some(MeshError::InvalidPermutation));
    assert_eq!(gather_vertices(&[1, 2, 0]).err(), Some(MeshError::InvalidPermutation));
}

#[test]
fn target_out_of_range_is_no_permutation() {
    assert_eq!(gather_faces(&[1, 2]).err(), Some(MeshError::InvalidPermutation));
    assert_eq!(gather_vertices(&[1, 2]).err(), Some(MeshError::InvalidPermutation));
    assert_eq!(gather_faces(&[0, 1, 2, usize::MAX]).err(), Some(MeshError::InvalidPermutation));
    assert_eq!(
        gather_vertices(&[2, 7, 4, 1, 6, 3, 0, 8]).err(),
        Some(MeshError::InvalidPermutation)
    );
}

#[test]
fn repeated_target_is_no_permutation() {
    assert_eq!(gather_faces(&[0, 0]).err(), Some(MeshError::InvalidPermutation));
    assert_eq!(gather_vertices(&[0, 0]).err(), Some(MeshError::InvalidPermutation));
    assert_eq!(gather_faces(&[1, 1, 3, 2]).err(), Some(MeshError::InvalidPermutation));
    assert_eq!(
        gather_vertices(&[2, 7, 4, 1, 6, 3, 0, 0]).err(),
        Some(MeshError::InvalidPermutation)
    );
}

#[test]
fn validity_is_told_apart() {
    assert!(is_valid_permutation(&[]));
    assert!(is_valid_permutation(&[2, 7, 4, 1, 6, 3, 0, 5]));
    assert!(!is_valid_permutation(&[0, 1, 2]));
    assert!(!is_valid_permutation(&[0, 2]));
    assert!(!is_valid_permutation(&[1, 1]));
}

#[test]
fn orbits_with_the_same_half_edges_are_equal() {
    assert_eq!(Orbit::new(&[2, 1, 3]), Orbit::new(&[1, 3, 2]));
    assert_eq!(Orbit::new(&[2, 1, 3]), Orbit::new(&[3, 2, 1]));
    assert_ne!(Orbit::new(&[2, 1, 3]), Orbit::new(&[1, 2, 3]));
    assert_ne!(Orbit::new(&[1, 2]), Orbit::new(&[1, 2, 3]));
}

#[test]
fn orbits_are_ordered_by_their_lists() {
    let a = Orbit::new(&[0, 7]);
    let b = Orbit::new(&[1, 2]);
    let c = Orbit::new(&[1, 2, 5]);
    let d = Orbit::new(&[1, 3]);
    assert_eq!(a.partial_cmp(&b), Some(Ordering::Less));
    assert_eq!(b.partial_cmp(&a), Some(Ordering::Greater));
    assert_eq!(b.partial_cmp(&b.clone()), Some(Ordering::Equal));
    assert_eq!(b.partial_cmp(&c), Some(Ordering::Less));
    assert_eq!(c.partial_cmp(&b), Some(Ordering::Greater));
    assert_eq!(c.partial_cmp(&d), Some(Ordering::Less));
    assert!(a < b && b < c && c < d);
    assert!(d > a);
    assert!(b <= b.clone());
}

#[test]
fn gathered_orbits_ascend() {
    let faces = gather_faces(&[2, 7, 4, 1, 6, 3, 0, 5]).unwrap();
    let vertices = gather_vertices(&[2, 7, 4, 1, 6, 3, 0, 5]).unwrap();
    for orbits in [faces, vertices] {
        for pair in orbits.windows(2) {
            assert!(pair[0] < pair[1]);
        }
    }
}

#[test]
fn lists_are_compared_entry_by_entry() {
    assert_eq!(lex_compare(&[], &[]), Ordering::Equal);
    assert_eq!(lex_compare(&[], &[0]), Ordering::Less);
    assert_eq!(lex_compare(&[0], &[]), Ordering::Greater);
    assert_eq!(lex_compare(&[1, 2, 3], &[1, 2, 3]), Ordering::Equal);
    assert_eq!(lex_compare(&[1, 2, 3], &[1, 2, 4]), Ordering::Less);
    assert_eq!(lex_compare(&[1, 9], &[2]), Ordering::Less);
    assert_eq!(lex_compare(&[2], &[1, 9]), Ordering::Greater);
}

#[test]
fn orbits_can_be_sorted() {
    let mut orbits = vec![
        Orbit::new(&[5, 6]),
        Orbit::new(&[1, 2]),
        Orbit::new(&[7, 0]),
        Orbit::new(&[4, 3]),
        Orbit::new(&[2, 1]),
    ];
    orbits.sort();
    orbits.dedup();
    assert_eq!(lists(&orbits), vec![vec![0, 7], vec![1, 2], vec![3, 4], vec![5, 6]]);
}
