use raytracrr::perlin::{random_permutation, shuffle_with, wrap_cell, PerlinLattice, POINT_COUNT};

fn is_perm(p: &[usize], n: usize) -> bool {
    let mut seen = vec![false; n];
    p.len() == n && p.iter().all(|&v| v < n && !std::mem::replace(&mut seen[v], true))
}

#[test]
fn shuffles_are_permutations() {
    for n in [0usize, 1, 2, 7, 256] {
        let p = random_permutation(n);
        assert!(is_perm(&p, n), "{:?}", p);
    }
}

#[test]
fn cells_wrap_into_the_period() {
    assert_eq!(wrap_cell(0), 0);
    assert_eq!(wrap_cell(255), 255);
    assert_eq!(wrap_cell(256), 0);
    assert_eq!(wrap_cell(257), 1);
    assert_eq!(wrap_cell(-1), 255);
    assert_eq!(wrap_cell(-256), 0);
    assert_eq!(wrap_cell(-257), 255);
    assert_eq!(wrap_cell(i64::MIN), 0);
    assert_eq!(wrap_cell(i64::MAX), 255);
}

#[test]
fn corner_lookup_is_deterministic() {
    let lattice = PerlinLattice::new();
    for &(i, j, k) in &[(0, 0, 0), (3, -7, 12), (i32::MAX, i32::MIN, -1)] {
        let a = lattice.corners(i, j, k);
        let b = lattice.corners(i, j, k);
        assert_eq!(a, b);
        assert_eq!(a.len(), 8);
        assert!(a.iter().all(|&c| c < POINT_COUNT));
    }
}

#[test]
fn corners_repeat_with_the_lattice_period() {
    let lattice = PerlinLattice::new();
    assert_eq!(lattice.corners(-1, 5, 9), lattice.corners(255, 5 + 256, 9 - 512));
    let here = lattice.corners(4, 4, 4);
    let next_x = lattice.corners(5, 4, 4);
    // the upper x corners of one cell are the lower x corners of the next
    assert_eq!(&here[4..8], &next_x[0..4]);
    let next_z = lattice.corners(4, 4, 5);
    assert_eq!(here[1], next_z[0]);
    assert_eq!(here[3], next_z[2]);
}

#[test]
fn shuffle_applies_the_draws_from_the_last_position_down() {
    // position 2 swaps with 0, then 1 with 1, then 0 with 0
    assert_eq!(shuffle_with(3, &vec![0, 1, 0]), vec![2, 1, 0]);
    // position 3 with 1: [0, 3, 2, 1]; 2 with 0: [2, 3, 0, 1]; 1 with 0
    assert_eq!(shuffle_with(4, &vec![0, 0, 0, 1]), vec![3, 2, 0, 1]);
    assert_eq!(shuffle_with(0, &Vec::new()), Vec::<usize>::new());
}

#[test]
fn shuffle_with_no_exchanges_is_the_identity() {
    let draws: Vec<usize> = (0..10).collect();
    assert_eq!(shuffle_with(10, &draws), draws);
}
