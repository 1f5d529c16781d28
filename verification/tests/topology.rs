use seamless_tiler::{
    AxisBoundaries, Boundary, CellId, Coord2, Direction, Extent2, HexDirection, HexTopology,
    SquareDirection, SquareTopology, Topology, TopologyError,
};

fn cell(topology: &SquareTopology, x: i32, y: i32) -> CellId {
    topology.cell_at(Coord2::new(x, y)).unwrap()
}

#[test]
fn directions_have_opposites_and_dense_indices() {
    for (index, direction) in SquareDirection::all().into_iter().enumerate() {
        assert_eq!(direction.index(), index);
        assert_eq!(direction.opposite().opposite(), direction);
    }
}

#[test]
fn bounded_neighbors_stop_at_edges() {
    let topology = SquareTopology::bounded(Extent2::new(3, 2)).unwrap();
    let top_left = cell(&topology, 0, 0);
    assert_eq!(topology.neighbor(top_left, SquareDirection::North), None);
    assert_eq!(topology.neighbor(top_left, SquareDirection::West), None);
    assert_eq!(
        topology.coordinate(topology.neighbor(top_left, SquareDirection::East).unwrap()),
        Some(Coord2::new(1, 0))
    );
}

#[test]
fn axes_wrap_independently() {
    let topology = SquareTopology::new(
        Extent2::new(3, 2),
        AxisBoundaries::new(Boundary::Wrap, Boundary::Bounded),
    )
    .unwrap();
    let top_left = cell(&topology, 0, 0);
    assert_eq!(
        topology.coordinate(topology.neighbor(top_left, SquareDirection::West).unwrap()),
        Some(Coord2::new(2, 0))
    );
    assert_eq!(topology.neighbor(top_left, SquareDirection::North), None);
}

#[test]
fn torus_wraps_both_axes() {
    let topology = SquareTopology::toroidal(Extent2::new(3, 2)).unwrap();
    let top_left = cell(&topology, 0, 0);
    assert_eq!(
        topology.coordinate(topology.neighbor(top_left, SquareDirection::North).unwrap()),
        Some(Coord2::new(0, 1))
    );
    assert_eq!(
        topology.coordinate(topology.neighbor(top_left, SquareDirection::West).unwrap()),
        Some(Coord2::new(2, 0))
    );
}

#[test]
fn one_cell_torus_has_self_neighbors() {
    let topology = SquareTopology::toroidal(Extent2::new(1, 1)).unwrap();
    let only = cell(&topology, 0, 0);
    for direction in SquareDirection::all() {
        assert_eq!(topology.neighbor(only, direction), Some(only));
    }
}

#[test]
fn empty_topology_has_no_cells_or_neighbors() {
    let topology = SquareTopology::toroidal(Extent2::new(0, 4)).unwrap();
    assert_eq!(topology.cell_count(), 0);
    assert_eq!(topology.cell_at(Coord2::zero()), None);
    assert_eq!(
        topology.neighbor(CellId::new(0), SquareDirection::East),
        None
    );
}

#[test]
fn square_offsets_agree_with_bounded_neighbors() {
    let topology = SquareTopology::bounded(Extent2::new(4, 3)).unwrap();
    for index in 0..topology.cell_count() {
        let id = CellId::new(index);
        let coord = topology.coordinate(id).unwrap();
        for direction in SquareDirection::all() {
            let offset = direction.offset();
            let shifted = Coord2::new(coord.x + offset.x, coord.y + offset.y);
            assert_eq!(
                topology.neighbor(id, direction),
                topology.cell_at(shifted),
                "{coord:?} {direction:?}"
            );
        }
    }
}

#[test]
fn coordinates_and_ids_round_trip() {
    let topology = SquareTopology::bounded(Extent2::new(4, 3)).unwrap();
    for index in 0..topology.cell_count() {
        let id = CellId::new(index);
        assert_eq!(topology.cell_at(topology.coordinate(id).unwrap()), Some(id));
    }
}

fn hex_cell(topology: &HexTopology, x: i32, y: i32) -> CellId {
    topology.cell_at(Coord2::new(x, y)).unwrap()
}

#[test]
fn hex_directions_have_opposites_and_dense_indices() {
    for (index, direction) in HexDirection::all().into_iter().enumerate() {
        assert_eq!(direction.index(), index);
        assert_eq!(direction.opposite().opposite(), direction);
    }
}

#[test]
fn hex_neighbors_follow_odd_row_offsets() {
    let topology = HexTopology::bounded(Extent2::new(4, 3)).unwrap();
    let even = hex_cell(&topology, 1, 0);
    let odd = hex_cell(&topology, 1, 1);
    assert_eq!(
        topology.coordinate(topology.neighbor(even, HexDirection::SouthEast).unwrap()),
        Some(Coord2::new(1, 1))
    );
    assert_eq!(
        topology.coordinate(topology.neighbor(odd, HexDirection::SouthEast).unwrap()),
        Some(Coord2::new(2, 2))
    );
    assert_eq!(topology.neighbor(even, HexDirection::NorthEast), None);
}

#[test]
fn hex_axes_wrap_independently() {
    let horizontal = HexTopology::new(
        Extent2::new(3, 3),
        AxisBoundaries::new(Boundary::Wrap, Boundary::Bounded),
    )
    .unwrap();
    let top_left = hex_cell(&horizontal, 0, 0);
    assert_eq!(
        horizontal.coordinate(horizontal.neighbor(top_left, HexDirection::West).unwrap()),
        Some(Coord2::new(2, 0))
    );
    assert_eq!(horizontal.neighbor(top_left, HexDirection::NorthEast), None);

    let vertical = HexTopology::new(
        Extent2::new(3, 3),
        AxisBoundaries::new(Boundary::Bounded, Boundary::Wrap),
    )
    .unwrap();
    assert_eq!(
        vertical.coordinate(
            vertical
                .neighbor(top_left, HexDirection::NorthEast)
                .unwrap()
        ),
        Some(Coord2::new(0, 2))
    );
}

#[test]
fn hex_neighbors_are_reciprocal_for_all_boundary_modes() {
    for extent in [Extent2::new(1, 1), Extent2::new(4, 3), Extent2::new(3, 4)] {
        for horizontal in [Boundary::Bounded, Boundary::Wrap] {
            for vertical in [Boundary::Bounded, Boundary::Wrap] {
                let topology =
                    HexTopology::new(extent, AxisBoundaries::new(horizontal, vertical))
                        .unwrap();
                for index in 0..topology.cell_count() {
                    let cell = CellId::new(index);
                    for direction in HexDirection::all() {
                        let Some(neighbor) = topology.neighbor(cell, direction) else {
                            continue;
                        };
                        assert_eq!(
                            topology.neighbor(neighbor, direction.opposite()),
                            Some(cell),
                            "{extent:?} {horizontal:?} {vertical:?} {cell:?} {direction:?}"
                        );
                    }
                }
            }
        }
    }
}

#[test]
fn one_cell_hex_torus_has_six_self_neighbors() {
    let topology = HexTopology::toroidal(Extent2::new(1, 1)).unwrap();
    let only = hex_cell(&topology, 0, 0);
    for direction in HexDirection::all() {
        assert_eq!(topology.neighbor(only, direction), Some(only));
    }
}

#[test]
fn empty_hex_topology_has_no_cells_or_neighbors() {
    let topology = HexTopology::toroidal(Extent2::new(0, 4)).unwrap();
    assert_eq!(topology.cell_count(), 0);
    assert_eq!(topology.cell_at(Coord2::zero()), None);
    assert_eq!(topology.neighbor(CellId::new(0), HexDirection::East), None);
}

#[test]
fn hex_offsets_agree_with_bounded_neighbors() {
    let topology = HexTopology::bounded(Extent2::new(4, 5)).unwrap();
    for index in 0..topology.cell_count() {
        let id = CellId::new(index);
        let coord = topology.coordinate(id).unwrap();
        for direction in HexDirection::all() {
            let offset = direction.offset(coord.y);
            let shifted = Coord2::new(coord.x + offset.x, coord.y + offset.y);
            assert_eq!(
                topology.neighbor(id, direction),
                topology.cell_at(shifted),
                "{coord:?} {direction:?}"
            );
        }
    }
}

#[test]
fn hex_coordinates_and_ids_round_trip() {
    let topology = HexTopology::bounded(Extent2::new(4, 3)).unwrap();
    for index in 0..topology.cell_count() {
        let id = CellId::new(index);
        assert_eq!(topology.cell_at(topology.coordinate(id).unwrap()), Some(id));
    }
}

#[test]
fn topologies_reject_unrepresentable_extents() {
    assert_eq!(
        SquareTopology::bounded(Extent2::new(usize::MAX, 2)),
        Err(TopologyError::CellCountOverflow {
            extent: Extent2::new(usize::MAX, 2)
        })
    );
    let tall = Extent2::new(0, i32::MAX as usize + 2);
    assert_eq!(
        HexTopology::bounded(tall),
        Err(TopologyError::CoordinateRangeExceeded { extent: tall })
    );
    let largest = Extent2::new(0, i32::MAX as usize + 1);
    assert!(HexTopology::bounded(largest).is_ok());
}

#[test]
fn topologies_report_their_construction_and_membership() {
    let topology = SquareTopology::toroidal(Extent2::new(2, 3)).unwrap();
    assert_eq!(topology.extent(), Extent2::new(2, 3));
    assert_eq!(topology.boundaries(), AxisBoundaries::toroidal());
    assert!(topology.contains(CellId::new(5)));
    assert!(!topology.contains(CellId::new(6)));
    let hexes = HexTopology::bounded(Extent2::new(2, 3)).unwrap();
    assert_eq!(hexes.boundaries(), AxisBoundaries::bounded());
    assert_eq!(hexes.extent(), Extent2::new(2, 3));
    assert_eq!(HexDirection::NorthEast.offset(-1), Coord2::new(1, -1));
    assert_eq!(SquareDirection::West.offset(), Coord2::new(-1, 0));
    assert_eq!(HexDirection::count(), 6);
    assert_eq!(SquareDirection::from_index(2), SquareDirection::South);
}

#[test]
fn odd_height_vertical_wrap_pairs_rows_reciprocally() {
    let topology = HexTopology::new(
        Extent2::new(3, 3),
        AxisBoundaries::new(Boundary::Wrap, Boundary::Wrap),
    )
    .unwrap();
    let corner = hex_cell(&topology, 0, 0);
    let up_left = topology.neighbor(corner, HexDirection::NorthWest).unwrap();
    assert_eq!(topology.coordinate(up_left), Some(Coord2::new(2, 2)));
    assert_eq!(topology.neighbor(up_left, HexDirection::SouthEast), Some(corner));
}

#[test]
fn topology_errors_describe_themselves() {
    assert_eq!(
        TopologyError::CellCountOverflow { extent: Extent2::new(10, 9) }.to_string(),
        "topology cell count overflows usize: 10 x 9"
    );
    assert_eq!(
        TopologyError::CoordinateRangeExceeded { extent: Extent2::new(3_000_000_000, 1) }.to_string(),
        "topology extent 3000000000 x 1 cannot be represented by signed coordinates"
    );
}
