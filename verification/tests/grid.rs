use seamless_tiler::{Coord2, Extent2, Grid, GridError};

#[test]
fn constructs_and_visits_in_row_major_order() {
    let grid = Grid::from_fn(Extent2::new(3, 2), |coord| coord.x + coord.y * 10).unwrap();
    assert_eq!(grid.into_vec(), vec![0, 1, 2, 10, 11, 12]);
}

#[test]
fn checked_and_index_access_work() {
    let mut grid = Grid::filled(Extent2::new(2, 2), 0).unwrap();
    *grid.get_mut(Coord2::new(1, 0)).unwrap() = 7;
    assert_eq!(grid.get(Coord2::new(1, 0)), Some(&7));
    assert_eq!(grid.get(Coord2::new(-1, 0)), None);
    assert_eq!(grid.get(Coord2::new(2, 0)), None);
}

#[test]
fn validates_storage_and_overflow() {
    assert_eq!(
        Grid::<u8>::from_vec(Extent2::new(2, 2), vec![0; 3]),
        Err(GridError::LengthMismatch {
            expected: 4,
            actual: 3
        })
    );
    assert!(matches!(
        Grid::<u8>::from_vec(Extent2::new(usize::MAX, 2), vec![]),
        Err(GridError::AreaOverflow { .. })
    ));
}

#[test]
fn allows_empty_extents() {
    let grid = Grid::<u8>::from_vec(Extent2::new(0, 4), vec![]).unwrap();
    assert!(grid.is_empty());
    assert_eq!(grid.coordinates().len(), 0);
}

#[test]
fn iterates_coordinates_with_values() {
    let grid = Grid::from_vec(Extent2::new(2, 1), vec!['a', 'b']).unwrap();
    assert_eq!(
        grid.cells(),
        vec![(Coord2::new(0, 0), &'a'), (Coord2::new(1, 0), &'b')]
    );
}

#[test]
fn index_reads_the_row_major_cell() {
    let grid = Grid::from_vec(Extent2::new(3, 2), vec![1, 2, 3, 4, 5, 6]).unwrap();
    assert_eq!(grid[Coord2::new(2, 1)], 6);
    assert_eq!(grid[Coord2::new(0, 1)], 4);
    assert_eq!(grid.len(), 6);
    assert_eq!(grid.extent(), Extent2::new(3, 2));
    assert_eq!(grid.iter().copied().collect::<Vec<_>>(), vec![1, 2, 3, 4, 5, 6]);
}

#[test]
fn from_fn_rejects_overflowing_areas_and_unrepresentable_coordinates() {
    assert_eq!(
        Grid::from_fn(Extent2::new(usize::MAX, 2), |coord| coord.x),
        Err(GridError::AreaOverflow {
            extent: Extent2::new(usize::MAX, 2)
        })
    );
    let wide = Extent2::new(i32::MAX as usize + 2, 1);
    assert_eq!(
        Grid::from_fn(wide, |_coord| 0u8),
        Err(GridError::AreaOverflow { extent: wide })
    );
    let empty_wide = Grid::from_fn(Extent2::new(i32::MAX as usize + 2, 0), |_coord| 0u8).unwrap();
    assert!(empty_wide.is_empty());
}

#[test]
fn filled_grids_clone_their_value_and_report_overflow() {
    let grid = Grid::filled(Extent2::new(2, 3), 'x').unwrap();
    assert_eq!(grid.clone().into_vec(), vec!['x'; 6]);
    assert_eq!(
        Grid::filled(Extent2::new(usize::MAX, 3), 'x'),
        Err(GridError::AreaOverflow {
            extent: Extent2::new(usize::MAX, 3)
        })
    );
}

#[test]
fn get_mut_rejects_outside_coordinates() {
    let mut grid = Grid::filled(Extent2::new(2, 2), 0).unwrap();
    assert!(grid.get_mut(Coord2::new(0, 2)).is_none());
    *grid.get_mut(Coord2::new(1, 1)).unwrap() = 9;
    assert_eq!(grid.into_vec(), vec![0, 0, 0, 9]);
}

#[test]
fn grid_errors_describe_themselves() {
    assert_eq!(
        GridError::AreaOverflow { extent: Extent2::new(usize::MAX, 2) }.to_string(),
        format!("grid area overflows usize: {} x 2", usize::MAX)
    );
    assert_eq!(
        GridError::LengthMismatch { expected: 120, actual: 0 }.to_string(),
        "grid needs 120 cells, but received 0"
    );
}

#[test]
fn grids_iterate_by_reference_and_by_value_in_row_major_order() {
    let grid = Grid::from_vec(Extent2::new(2, 2), vec![1, 2, 3, 4]).unwrap();
    let mut seen = Vec::new();
    for cell in &grid {
        seen.push(*cell);
    }
    assert_eq!(seen, vec![1, 2, 3, 4]);
    let owned: Vec<i32> = grid.into_iter().collect();
    assert_eq!(owned, vec![1, 2, 3, 4]);
}

#[test]
fn cells_update_in_place_from_coordinate_and_value() {
    let mut grid = Grid::from_vec(Extent2::new(3, 2), vec![1, 2, 3, 4, 5, 6]).unwrap();
    grid.update_cells(|coord, value| value * 10 + coord.x + coord.y * 100);
    assert_eq!(grid.extent(), Extent2::new(3, 2));
    assert_eq!(grid.into_vec(), vec![10, 21, 32, 140, 151, 162]);
}

#[test]
fn grids_round_trip_through_their_storage() {
    let cells = vec![4, 8, 15, 16, 23, 42];
    let grid = Grid::from_vec(Extent2::new(3, 2), cells.clone()).unwrap();
    assert_eq!(grid.iter().cloned().collect::<Vec<_>>(), cells);
    let rebuilt = Grid::from_vec(grid.extent(), grid.clone().into_vec()).unwrap();
    assert_eq!(rebuilt, grid);
    assert_eq!(rebuilt.into_vec(), cells);
}
