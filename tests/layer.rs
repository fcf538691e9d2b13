use diagonal_search::build_layer;

#[test]
fn layer_three_by_four() {
    assert_eq!(build_layer(0, 3, 4), vec![(0, 0)]);
    assert_eq!(build_layer(1, 3, 4), vec![(0, 1), (1, 0)]);
    assert_eq!(build_layer(5, 3, 4), vec![(2, 3)]);
    let total: usize = (0..=5).map(|d| build_layer(d, 3, 4).len()).sum();
    assert_eq!(total, 12);
}

#[test]
fn layer_middle_diagonals() {
    assert_eq!(build_layer(2, 3, 4), vec![(0, 2), (1, 1), (2, 0)]);
    assert_eq!(build_layer(3, 3, 4), vec![(0, 3), (1, 2), (2, 1)]);
    assert_eq!(build_layer(4, 3, 4), vec![(1, 3), (2, 2)]);
}

#[test]
fn layers_partition_grid() {
    for n in 1..=6usize {
        for m in 1..=6usize {
            let mut seen = vec![vec![0u32; m]; n];
            for d in 0..=(n + m - 2) {
                for (i, j) in build_layer(d, n, m) {
                    assert!(i < n && j < m);
                    seen[i][j] += 1;
                }
            }
            assert!(seen.iter().all(|row| row.iter().all(|&c| c == 1)));
        }
    }
}

#[test]
fn layer_pairs_on_their_diagonal() {
    for n in 1..=5usize {
        for m in 1..=5usize {
            for d in 0..=(n + m - 2) {
                let layer = build_layer(d, n, m);
                assert!(!layer.is_empty());
                for w in layer.windows(2) {
                    assert!(w[0].0 < w[1].0);
                }
                for &(i, j) in &layer {
                    assert_eq!(i + j, d);
                    assert!(i < n && j < m);
                }
                let bound = n.min(m).min(d + 1).min(n + m - 1 - d);
                assert_eq!(layer.len(), bound);
            }
        }
    }
}

#[test]
fn layer_single_row_and_column() {
    assert_eq!(build_layer(3, 1, 5), vec![(0, 3)]);
    assert_eq!(build_layer(3, 5, 1), vec![(3, 0)]);
    assert_eq!(build_layer(0, 1, 1), vec![(0, 0)]);
}
