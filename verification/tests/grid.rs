use osmgraph::grid::Grid;

#[test]
fn indexes_round_trip() {
    let grid: Grid<u8> = Grid::new(4, 3, 7);
    assert_eq!(grid.data.len(), 12);
    assert!(grid.data.iter().all(|&v| v == 7));
    assert_eq!(grid.idx(2, 1), 6);
    assert_eq!(grid.xy(6), (2, 1));
    assert_eq!(grid.idx(0, 0), 0);
    assert_eq!(grid.xy(11), (3, 2));
}

#[test]
fn neighbors_respect_bounds() {
    let grid: Grid<u8> = Grid::new(3, 3, 0);
    // A corner has two orthogonal neighbors.
    assert_eq!(grid.orthogonal_neighbors(0, 0), vec![(0, 1), (1, 0)]);
    // The center has all four, in left, up, down, right order.
    assert_eq!(
        grid.orthogonal_neighbors(1, 1),
        vec![(0, 1), (1, 0), (1, 2), (2, 1)]
    );
    // An edge tile loses the out-of-bounds side.
    assert_eq!(grid.orthogonal_neighbors(2, 1), vec![(1, 1), (2, 0), (2, 2)]);
}
