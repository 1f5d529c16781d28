use seamless_tiler::{Coord2, Extent2, Rect};

#[test]
fn extent_maps_coordinates_and_indices() {
    let extent = Extent2::new(3, 2);
    assert_eq!(extent.linear_index(Coord2::new(2, 1)), Some(5));
    assert_eq!(extent.coordinate(5), Some(Coord2::new(2, 1)));
    assert_eq!(extent.linear_index(Coord2::new(-1, 0)), None);
    assert_eq!(extent.coordinate(6), None);
}

#[test]
fn empty_and_overlarge_extents_are_handled() {
    assert_eq!(Extent2::new(0, 10).checked_area(), Some(0));
    assert_eq!(Extent2::new(usize::MAX, 2).checked_area(), None);
    assert_eq!(Extent2::new(usize::MAX, 1).coordinate(usize::MAX - 1), None);
}

#[test]
fn rect_contains_coordinates_relative_to_its_origin() {
    let rect = Rect::new(Coord2::new(-2, 4), Extent2::new(3, 2));
    assert!(rect.contains(Coord2::new(-2, 4)));
    assert!(rect.contains(Coord2::new(0, 5)));
    assert!(!rect.contains(Coord2::new(1, 5)));
    assert!(!rect.contains(Coord2::new(-2, 6)));
}

#[test]
fn extent_contains_only_nonnegative_in_bounds_coordinates() {
    let extent = Extent2::new(2, 3);
    assert!(extent.contains(Coord2::new(1, 2)));
    assert!(!extent.contains(Coord2::new(2, 0)));
    assert!(!extent.contains(Coord2::new(0, -1)));
    assert_eq!(Coord2::zero(), Coord2::new(0, 0));
}

#[test]
fn linear_indices_and_coordinates_round_trip() {
    let extent = Extent2::new(4, 3);
    for index in 0..12 {
        let coord = extent.coordinate(index).unwrap();
        assert_eq!(extent.linear_index(coord), Some(index));
    }
    assert_eq!(extent.checked_area(), Some(12));
}

#[test]
fn rect_containment_compares_whole_integers() {
    let wide = Rect::new(Coord2::new(-1, 0), Extent2::new(usize::MAX, 1));
    assert!(wide.contains(Coord2::new(i32::MAX, 0)));
    assert!(wide.contains(Coord2::new(-1, 0)));
    assert!(!wide.contains(Coord2::new(-2, 0)));
    let far = Rect::new(Coord2::new(i32::MAX, i32::MIN), Extent2::new(1, 1));
    assert!(far.contains(Coord2::new(i32::MAX, i32::MIN)));
    assert!(!far.contains(Coord2::new(i32::MIN, i32::MIN)));
    let whole = Rect::new(Coord2::new(i32::MIN, 0), Extent2::new(usize::MAX, 1));
    assert!(whole.contains(Coord2::new(i32::MAX, 0)));
    assert!(whole.contains(Coord2::new(-1, 0)));
}
