use std::collections::HashMap;

use seamless_tiler::raster::{
    DEFAULT_PAINT_COLOR, EDGE_BACKGROUND, HEX_EDGE_INTERVALS, HEX_EDGE_SAMPLES, HEX_IMAGE_HEIGHT,
    HEX_IMAGE_WIDTH, HexRaster, Rgba, SQUARE_RASTER_SIZE, SquareRaster, TRANSPARENT,
    hex_distance, is_closed_edge,
};
use seamless_tiler::{
    Coord2, D4, D6, Direction, EdgeStrip, HexDirection, QuarterTurns, SquareDirection, Tile,
};

fn labeled_hex_raster() -> HexRaster {
    let mut raster = HexRaster::filled(TRANSPARENT);
    let coordinates = raster.coordinates();
    for (index, coord) in coordinates.into_iter().enumerate() {
        let label = index as u32 + 1;
        assert!(raster.set_pixel(coord, label));
    }
    raster
}

fn square_raster_from(color: impl Fn(usize, usize) -> Rgba) -> SquareRaster {
    let mut raster = SquareRaster::filled(TRANSPARENT);
    for y in 0..SQUARE_RASTER_SIZE {
        for x in 0..SQUARE_RASTER_SIZE {
            raster.set(x, y, color(x, y));
        }
    }
    raster
}

fn rgba(bytes: [u8; 4]) -> Rgba {
    u32::from_be_bytes(bytes)
}

fn paint_stroke(raster: &mut SquareRaster, from: Coord2, to: Coord2, brush_size: usize, color: Rgba) -> bool {
    let mut changed = false;
    for coord in raster.stroke_pixels(from, to, brush_size) {
        changed |= raster.set_pixel(coord, color);
    }
    changed
}

fn painted_pixels(raster: &SquareRaster, color: Rgba) -> Vec<Coord2> {
    let mut painted = Vec::new();
    for y in 0..SQUARE_RASTER_SIZE {
        for x in 0..SQUARE_RASTER_SIZE {
            if raster.get(x, y) == color {
                painted.push(Coord2::new(x as i32, y as i32));
            }
        }
    }
    painted
}

#[test]
fn hex_mask_contains_the_expected_pointy_top_lattice() {
    let mut raster = HexRaster::filled(DEFAULT_PAINT_COLOR);
    assert_eq!(raster.coordinates().len(), 1_123);
    assert_eq!(raster.get(Coord2::zero()), Some(DEFAULT_PAINT_COLOR));

    let k = HEX_EDGE_INTERVALS;
    for vertex in [
        Coord2::new(k, -2 * k),
        Coord2::new(2 * k, -k),
        Coord2::new(k, k),
        Coord2::new(-k, 2 * k),
        Coord2::new(-2 * k, k),
        Coord2::new(-k, -k),
    ] {
        assert_eq!(raster.get(vertex), Some(DEFAULT_PAINT_COLOR));
    }

    let outside = Coord2::new(0, 2 * k + 1);
    assert_eq!(raster.get(outside), None);
    assert!(!raster.set_pixel(outside, EDGE_BACKGROUND));
    assert!(!HexRaster::contains(Coord2::new(i32::MIN, i32::MAX)));
}

#[test]
fn hex_edges_have_canonical_order_and_share_only_corners() {
    let expected_tangents = [
        (HexDirection::NorthEast, Coord2::new(1, 1)),
        (HexDirection::East, Coord2::new(-1, 2)),
        (HexDirection::SouthEast, Coord2::new(-2, 1)),
        (HexDirection::SouthWest, Coord2::new(1, 1)),
        (HexDirection::West, Coord2::new(-1, 2)),
        (HexDirection::NorthWest, Coord2::new(-2, 1)),
    ];
    let mut memberships = HashMap::new();
    for (direction, expected_tangent) in expected_tangents {
        let edge = HexRaster::edge_coordinates(direction);
        assert_eq!(edge.len(), HEX_EDGE_SAMPLES);
        for pair in edge.windows(2) {
            assert_eq!(
                Coord2::new(pair[1].x - pair[0].x, pair[1].y - pair[0].y),
                expected_tangent,
            );
        }
        for coord in edge {
            assert!(HexRaster::contains(coord));
            *memberships.entry(coord).or_insert(0) += 1;
        }
    }

    assert_eq!(memberships.values().filter(|count| **count == 2).count(), 6);
    assert_eq!(
        memberships.values().filter(|count| **count == 1).count(),
        6 * (HEX_EDGE_SAMPLES - 2),
    );
    assert!(memberships.values().all(|count| *count <= 2));
}

#[test]
fn d6_transforms_are_exact_permutations_of_hex_samples() {
    let raster = labeled_hex_raster();
    let source_coordinates = raster.coordinates();

    for transform in D6::all() {
        let transformed = raster.transformed(transform);
        assert_eq!(transformed.coordinates().len(), source_coordinates.len());
        for coord in &source_coordinates {
            let mapped = transform.checked_apply(*coord).unwrap();
            assert_eq!(transformed.get(mapped), raster.get(*coord));
        }
        assert_eq!(
            transformed.transformed(transform.inverse()),
            raster,
            "{transform:?}",
        );
    }

    for left in D6::all() {
        for right in D6::all() {
            assert_eq!(
                raster.transformed(right).transformed(left),
                raster.transformed(left.compose(right)),
                "{left:?} after {right:?}",
            );
        }
    }
}

#[test]
fn oriented_hex_edges_equal_edges_from_transformed_rasters() {
    let raster = labeled_hex_raster();
    let tile = Tile::new((), raster.edges());
    for transform in D6::all() {
        let transformed = raster.transformed(transform);
        for world_direction in HexDirection::all() {
            assert_eq!(
                tile.oriented_edge(transform, world_direction),
                transformed.edge(world_direction),
                "{transform:?} {world_direction:?}",
            );
        }
    }
}

#[test]
fn hex_variant_image_is_deterministic_and_transparent_outside() {
    let raster = HexRaster::filled(DEFAULT_PAINT_COLOR);
    let image = raster.to_variant_image();
    assert_eq!(image.size(), [HEX_IMAGE_WIDTH, HEX_IMAGE_HEIGHT]);
    assert_eq!(image.rgba().len(), HEX_IMAGE_WIDTH * HEX_IMAGE_HEIGHT * 4);
    assert_eq!(image, raster.to_variant_image());

    let pixel = |x: usize, y: usize| {
        let offset = (y * HEX_IMAGE_WIDTH + x) * 4;
        <[u8; 4]>::try_from(&image.rgba()[offset..offset + 4]).unwrap()
    };
    assert_eq!(pixel(0, 0), TRANSPARENT.to_be_bytes());
    assert_eq!(
        pixel(3 * HEX_EDGE_INTERVALS as usize, 0),
        DEFAULT_PAINT_COLOR.to_be_bytes(),
    );
    assert_eq!(
        pixel(
            3 * HEX_EDGE_INTERVALS as usize,
            2 * HEX_EDGE_INTERVALS as usize,
        ),
        DEFAULT_PAINT_COLOR.to_be_bytes(),
    );
    let k = HEX_EDGE_INTERVALS;
    for y in 0..HEX_IMAGE_HEIGHT {
        let r = y as i32 - 2 * k;
        for x in 0..HEX_IMAGE_WIDTH {
            let u = x as i32 - 3 * k;
            let inside =
                u.abs() <= 3 * k && (u - 3 * r).abs() <= 6 * k && (u + 3 * r).abs() <= 6 * k;
            assert_eq!(pixel(x, y)[3] != 0, inside, "texel ({x}, {y})");
        }
    }
}

#[test]
fn hex_texel_mapping_round_trips_every_sample() {
    let raster = HexRaster::filled(DEFAULT_PAINT_COLOR);
    for coord in raster.coordinates() {
        let [x, y] = HexRaster::sample_texel(coord);
        assert_eq!(HexRaster::sample_at_texel(x, y), Some(coord), "{coord:?}");
    }

    let [width, height] = [HEX_IMAGE_WIDTH, HEX_IMAGE_HEIGHT];
    assert_eq!(HexRaster::sample_at_texel(0, 0), None);
    assert_eq!(
        HexRaster::sample_at_texel(width as i32 - 1, height as i32 - 1),
        None
    );
    assert_eq!(HexRaster::sample_at_texel(i32::MIN, i32::MAX), None);
    assert_eq!(
        HexRaster::sample_at_texel(3 * HEX_EDGE_INTERVALS, 2 * HEX_EDGE_INTERVALS),
        Some(Coord2::zero())
    );
}

#[test]
fn hex_brush_impressions_clip_at_the_mask_boundary() {
    assert_eq!(
        HexRaster::brush_samples(Coord2::zero(), 1),
        vec![Coord2::zero()]
    );
    assert_eq!(HexRaster::brush_samples(Coord2::zero(), 0), Vec::new());
    assert_eq!(HexRaster::brush_samples(Coord2::zero(), 3).len(), 19);
    assert!(!HexRaster::brush_samples(Coord2::zero(), HEX_EDGE_SAMPLES).is_empty());
    assert!(HexRaster::brush_samples(Coord2::zero(), HEX_EDGE_SAMPLES + 1).is_empty());

    let corner = Coord2::new(HEX_EDGE_INTERVALS, -2 * HEX_EDGE_INTERVALS);
    let clipped = HexRaster::brush_samples(corner, 3);
    assert!(clipped.iter().all(|coord| HexRaster::contains(*coord)));
    assert!(clipped.contains(&corner));
    assert!(clipped.len() < 19);
}

#[test]
fn hex_brush_samples_are_ordered_by_column_then_row() {
    let disc = HexRaster::brush_samples(Coord2::new(1, 1), 2);
    assert_eq!(
        disc,
        vec![
            Coord2::new(0, 1),
            Coord2::new(0, 2),
            Coord2::new(1, 0),
            Coord2::new(1, 1),
            Coord2::new(1, 2),
            Coord2::new(2, 0),
            Coord2::new(2, 1),
        ]
    );
}

#[test]
fn hex_distance_counts_lattice_steps() {
    assert_eq!(hex_distance(Coord2::zero(), Coord2::new(3, -1)), 3);
    assert_eq!(hex_distance(Coord2::new(-4, 6), Coord2::new(5, -3)), 9);
    assert_eq!(hex_distance(Coord2::new(2, 2), Coord2::new(2, 2)), 0);
}

#[test]
fn extraction_uses_matching_orders_for_opposite_edges() {
    let raster = square_raster_from(|x, y| rgba([x as u8, y as u8, 0, 255]));
    assert_eq!(
        raster.edge(SquareDirection::North).as_slice()[0],
        rgba([0, 0, 0, 255])
    );
    assert_eq!(
        raster.edge(SquareDirection::South).as_slice()[0],
        rgba([0, 31, 0, 255])
    );
    assert_eq!(
        raster.edge(SquareDirection::East).as_slice()[0],
        rgba([31, 0, 0, 255])
    );
    assert_eq!(
        raster.edge(SquareDirection::West).as_slice()[31],
        rgba([0, 31, 0, 255])
    );
}

#[test]
fn oriented_edges_equal_edges_extracted_from_transformed_rasters() {
    let raster = square_raster_from(|x, y| rgba([x as u8, y as u8, (x + y) as u8, 255]));
    let tile = Tile::new((), raster.edges());
    for transform in D4::all() {
        let transformed = raster.transformed(transform);
        for world_direction in SquareDirection::all() {
            assert_eq!(
                tile.oriented_edge(transform, world_direction),
                transformed.edge(world_direction),
                "{transform:?} {world_direction:?}"
            );
        }
    }
}

#[test]
fn transform_round_trips_every_square_raster() {
    let raster = square_raster_from(|x, y| rgba([x as u8, y as u8, 7, 255]));
    for transform in D4::all() {
        assert_eq!(
            raster
                .transformed(transform)
                .transformed(transform.inverse()),
            raster
        );
    }
}

#[test]
fn quarter_turn_reversal_matches_edge_transform_contract() {
    let turn = D4::new(QuarterTurns::One, false);
    assert!(!turn.reverses_edge(SquareDirection::North));
    assert!(turn.reverses_edge(SquareDirection::East));
}

#[test]
fn stroke_interpolates_between_pointer_samples() {
    let mut raster = SquareRaster::filled(EDGE_BACKGROUND);
    assert!(paint_stroke(&mut raster, Coord2::new(2, 3), Coord2::new(8, 6), 1, DEFAULT_PAINT_COLOR));

    let painted = painted_pixels(&raster, DEFAULT_PAINT_COLOR);
    assert_eq!(painted.len(), 7);
    assert_eq!(painted.first(), Some(&Coord2::new(2, 3)));
    assert_eq!(painted.last(), Some(&Coord2::new(8, 6)));
    for pair in painted.windows(2) {
        let dx = pair[1].x - pair[0].x;
        let dy = pair[1].y - pair[0].y;
        assert!(dx.abs() <= 1 && dy.abs() <= 1);
    }
}

#[test]
fn brush_footprints_clip_at_raster_edges() {
    let mut raster = SquareRaster::filled(EDGE_BACKGROUND);
    assert!(paint_stroke(&mut raster, Coord2::zero(), Coord2::zero(), 4, DEFAULT_PAINT_COLOR));

    assert_eq!(painted_pixels(&raster, DEFAULT_PAINT_COLOR).len(), 9);
    assert_eq!(raster.get(2, 2), DEFAULT_PAINT_COLOR);
    assert_eq!(raster.get(3, 0), EDGE_BACKGROUND);
}

#[test]
fn identical_and_zero_sized_strokes_are_no_ops() {
    let mut raster = SquareRaster::filled(EDGE_BACKGROUND);
    assert!(!paint_stroke(&mut raster, Coord2::zero(), Coord2::zero(), 1, EDGE_BACKGROUND));
    assert!(!paint_stroke(&mut raster, Coord2::zero(), Coord2::new(4, 4), 0, DEFAULT_PAINT_COLOR));
    assert!(raster.stroke_pixels(Coord2::zero(), Coord2::new(32, 0), 1).is_empty());
    assert!(raster.stroke_pixels(Coord2::zero(), Coord2::new(1, 1), 33).is_empty());
}

#[test]
fn steep_and_backward_strokes_reach_both_ends() {
    let raster = SquareRaster::filled(EDGE_BACKGROUND);
    let stroke = raster.stroke_pixels(Coord2::new(9, 20), Coord2::new(6, 2), 1);
    assert_eq!(stroke.len(), 19);
    assert!(stroke.contains(&Coord2::new(9, 20)));
    assert!(stroke.contains(&Coord2::new(6, 2)));
    for pair in stroke.windows(2) {
        assert!(pair[0].y * 32 + pair[0].x < pair[1].y * 32 + pair[1].x);
    }
}

#[test]
fn closed_edges_are_entirely_background() {
    assert!(is_closed_edge(&EdgeStrip::new(vec![EDGE_BACKGROUND; SQUARE_RASTER_SIZE])));
    assert!(!is_closed_edge(&EdgeStrip::new(Vec::new())));
    let mut open = vec![EDGE_BACKGROUND; HEX_EDGE_SAMPLES];
    open[3] = DEFAULT_PAINT_COLOR;
    assert!(!is_closed_edge(&EdgeStrip::new(open)));
    let raster = SquareRaster::filled(EDGE_BACKGROUND);
    for direction in SquareDirection::all() {
        assert!(is_closed_edge(&raster.edge(direction)));
    }
    let image = raster.to_variant_image();
    assert_eq!(image.size(), [SQUARE_RASTER_SIZE, SQUARE_RASTER_SIZE]);
    assert_eq!(&image.rgba()[0..4], &[24, 27, 31, 255]);
}

#[test]
fn hex_edges_read_the_picture_in_canonical_order() {
    let raster = labeled_hex_raster();
    let edges = raster.edges();
    for direction in HexDirection::all() {
        let strip = &edges[direction];
        let coords = HexRaster::edge_coordinates(direction);
        for (index, coord) in coords.iter().enumerate() {
            assert_eq!(Some(strip.as_slice()[index]), raster.get(*coord));
        }
        assert_eq!(direction.index() < 6, true);
    }
}

#[test]
fn raster_copies_keep_every_sample() {
    let mut square = SquareRaster::filled(EDGE_BACKGROUND);
    square.set(3, 4, 0x1122_33ff);
    assert_eq!(square.clone(), square);
    let mut hex = HexRaster::filled(EDGE_BACKGROUND);
    assert!(hex.set_pixel(Coord2::new(1, -1), 0x4455_66ff));
    let copy = hex.clone();
    assert_eq!(copy, hex);
    assert_eq!(copy.get(Coord2::new(1, -1)), Some(0x4455_66ff));
}
