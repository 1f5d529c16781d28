use seamless_tiler::{
    Coord2, D4, D6, Direction, HexDirection, QuarterTurns, SixthTurns, SquareDirection,
};

#[test]
fn all_contains_eight_distinct_transforms() {
    let mut transforms = D4::all();
    transforms.sort_unstable();
    transforms.dedup();
    assert_eq!(transforms.len(), 8);
}

#[test]
fn clockwise_rotation_maps_north_to_east() {
    let rotation = D4::new(QuarterTurns::One, false);
    assert_eq!(
        rotation.apply_direction(SquareDirection::North),
        SquareDirection::East
    );
    assert_eq!(
        rotation.checked_apply(Coord2::new(0, -1)),
        Some(Coord2::new(1, 0))
    );
}

#[test]
fn reflection_mirrors_east_and_west() {
    let reflection = D4::new(QuarterTurns::Zero, true);
    assert_eq!(
        reflection.apply_direction(SquareDirection::East),
        SquareDirection::West
    );
    assert_eq!(
        reflection.apply_direction(SquareDirection::North),
        SquareDirection::North
    );
}

#[test]
fn inverse_and_composition_laws_hold_exhaustively() {
    let vectors = [Coord2::new(2, 3), Coord2::new(-5, 7), Coord2::new(11, -13)];
    for transform in D4::all() {
        assert_eq!(transform.compose(transform.inverse()), D4::identity());
        assert_eq!(transform.inverse().compose(transform), D4::identity());
        for vector in vectors {
            let transformed = transform.checked_apply(vector).unwrap();
            assert_eq!(transform.inverse().checked_apply(transformed), Some(vector));
        }
    }

    for left in D4::all() {
        for right in D4::all() {
            for direction in SquareDirection::all() {
                assert_eq!(
                    left.compose(right).apply_direction(direction),
                    left.apply_direction(right.apply_direction(direction))
                );
            }
        }
    }
}

#[test]
fn checked_application_reports_overflow() {
    let reflection = D4::new(QuarterTurns::Zero, true);
    assert_eq!(reflection.checked_apply(Coord2::new(i32::MIN, 0)), None);
}

#[test]
fn reflected_three_quarter_turn_of_a_minimal_y_has_no_checked_inverse() {
    let transform = D4::new(QuarterTurns::Three, true);
    let moved = transform.checked_apply(Coord2::new(0, i32::MIN)).unwrap();
    assert_eq!(moved, Coord2::new(i32::MIN, 0));
    assert_eq!(transform.inverse().checked_apply(moved), None);
}

#[test]
fn d6_has_twelve_distinct_transforms_and_group_laws() {
    let mut transforms = D6::all();
    transforms.sort_unstable();
    transforms.dedup();
    assert_eq!(transforms.len(), 12);
    let vectors = [Coord2::new(2, 3), Coord2::new(-5, 7), Coord2::new(11, -13)];
    for transform in D6::all() {
        assert_eq!(transform.compose(transform.inverse()), D6::identity());
        for vector in vectors {
            let moved = transform.checked_apply(vector).unwrap();
            assert_eq!(transform.inverse().checked_apply(moved), Some(vector));
        }
        for other in D6::all() {
            for direction in HexDirection::all() {
                assert_eq!(
                    transform.compose(other).apply_direction(direction),
                    transform.apply_direction(other.apply_direction(direction))
                );
            }
        }
    }
}

#[test]
fn d6_rotation_moves_axial_steps_clockwise() {
    let turn = D6::new(SixthTurns::One, false);
    assert_eq!(turn.checked_apply(Coord2::new(1, -1)), Some(Coord2::new(1, 0)));
    assert_eq!(turn.apply_direction(HexDirection::NorthEast), HexDirection::East);
    let mirror = D6::new(SixthTurns::Zero, true);
    assert_eq!(mirror.checked_apply(Coord2::new(1, 0)), Some(Coord2::new(-1, 0)));
    assert_eq!(mirror.apply_direction(HexDirection::SouthEast), HexDirection::SouthWest);
    assert_eq!(mirror.checked_apply(Coord2::new(i32::MAX, 0)), Some(Coord2::new(-i32::MAX, 0)));
    assert_eq!(mirror.checked_apply(Coord2::new(i32::MIN, -1)), None);
    assert!(!mirror.reverses_edge(HexDirection::East));
    assert!(turn.reverses_edge(HexDirection::SouthEast));
    assert_eq!(SixthTurns::all().len(), 6);
    assert_eq!(QuarterTurns::all().len(), 4);
    assert_eq!(turn.rotation(), SixthTurns::One);
    assert!(mirror.is_reflected());
}
