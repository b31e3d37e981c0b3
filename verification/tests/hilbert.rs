use cache_locality_experiment::hilbert::hilbert_xy_to_d;

#[test]
fn hilbert_small_grid_values() {
    // The four quadrant digits of the 2x2 curve.
    assert_eq!(hilbert_xy_to_d(2, 0, 0), 0);
    assert_eq!(hilbert_xy_to_d(2, 0, 1), 1);
    assert_eq!(hilbert_xy_to_d(2, 1, 1), 2);
    assert_eq!(hilbert_xy_to_d(2, 1, 0), 3);
    // One hand-computed 4x4 point: (2, 3) contributes 1 at scale 1
    // and 2 * 4 at scale 2.
    assert_eq!(hilbert_xy_to_d(4, 2, 3), 9);
    assert_eq!(hilbert_xy_to_d(512, 0, 0), 0);
}

#[test]
fn hilbert_is_a_bijection_on_small_grids() {
    for n in [1usize, 2, 4, 8, 16, 32] {
        let mut seen = vec![false; n * n];
        for x in 0..n {
            for y in 0..n {
                let d = hilbert_xy_to_d(n, x, y);
                assert!(d < n * n, "index {d} out of range for n = {n}");
                assert!(!seen[d], "index {d} hit twice for n = {n}");
                seen[d] = true;
            }
        }
        assert!(seen.iter().all(|&s| s), "every index below n*n is produced");
    }
}

#[test]
fn hilbert_distinct_for_distinct_points_full_grid() {
    let n = 512usize;
    let mut seen = vec![false; n * n];
    for x in 0..n {
        for y in 0..n {
            let d = hilbert_xy_to_d(n, x, y);
            assert!(d < n * n);
            assert!(!seen[d]);
            seen[d] = true;
        }
    }
}
