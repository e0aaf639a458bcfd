use crowdsim::SpatialGrid;

#[test]
fn new_grid_is_empty() {
    let g: SpatialGrid<u32> = SpatialGrid::new(3, 2);
    assert!(g.query(-10, 10, -10, 10).is_empty());
}

#[test]
fn cell_index_is_row_major_and_bounded() {
    let g: SpatialGrid<u32> = SpatialGrid::new(3, 2);
    assert_eq!(g.cell_index(0, 0), Some(0));
    assert_eq!(g.cell_index(2, 0), Some(2));
    assert_eq!(g.cell_index(1, 1), Some(4));
    assert_eq!(g.cell_index(3, 0), None);
    assert_eq!(g.cell_index(0, 2), None);
    assert_eq!(g.cell_index(-1, 0), None);
}

#[test]
fn inserted_key_is_found_by_covering_query() {
    let mut g: SpatialGrid<u32> = SpatialGrid::new(4, 4);
    g.insert(2, 3, 7);
    assert_eq!(g.query(2, 3, 3, 4), vec![7]);
    assert_eq!(g.query(0, 4, 0, 4), vec![7]);
    assert!(g.query(0, 2, 0, 4).is_empty());
    assert!(g.query(3, 4, 0, 4).is_empty());
}

#[test]
fn insert_outside_grid_is_ignored() {
    let mut g: SpatialGrid<u32> = SpatialGrid::new(2, 2);
    g.insert(2, 0, 1);
    g.insert(-1, 1, 2);
    assert!(g.query(-5, 5, -5, 5).is_empty());
}

#[test]
fn query_lists_cells_column_by_column() {
    let mut g: SpatialGrid<u32> = SpatialGrid::new(2, 2);
    g.insert(1, 0, 10);
    g.insert(0, 1, 20);
    g.insert(0, 0, 30);
    g.insert(0, 0, 31);
    g.insert(1, 1, 40);
    // column x = 0 (rows 0 then 1), then column x = 1
    assert_eq!(g.query(0, 2, 0, 2), vec![30, 31, 20, 10, 40]);
    // clipped to the grid
    assert_eq!(g.query(-3, 9, -3, 9), vec![30, 31, 20, 10, 40]);
    // empty and inverted ranges
    assert!(g.query(1, 1, 0, 2).is_empty());
    assert!(g.query(2, 0, 0, 2).is_empty());
}

#[test]
fn clear_empties_every_cell() {
    let mut g: SpatialGrid<u32> = SpatialGrid::new(2, 2);
    g.insert(1, 1, 5);
    g.insert(0, 0, 6);
    g.clear();
    assert!(g.query(0, 2, 0, 2).is_empty());
    g.insert(1, 0, 8);
    assert_eq!(g.query(0, 2, 0, 2), vec![8]);
}
