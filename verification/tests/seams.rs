use seamless_tiler::seams::DisjointSets;

#[test]
fn disjoint_sets_merge_transitively() {
    let mut sets = DisjointSets::new(4);
    sets.union(0, 1);
    sets.union(2, 3);
    assert_ne!(sets.find(0), sets.find(3));
    sets.union(1, 2);
    assert_eq!(sets.find(0), sets.find(3));
}

#[test]
fn disjoint_sets_start_as_singletons() {
    let mut sets = DisjointSets::new(3);
    assert_eq!(sets.find(0), 0);
    assert_eq!(sets.find(1), 1);
    assert_eq!(sets.find(2), 2);
}

#[test]
fn union_keeps_the_higher_ranked_representative() {
    let mut sets = DisjointSets::new(5);
    // Equal ranks: the left representative survives and gains a rank.
    sets.union(1, 0);
    assert_eq!(sets.find(0), 1);
    // A rank-zero set joins the rank-one set, whichever side it is named on.
    sets.union(2, 0);
    assert_eq!(sets.find(2), 1);
    sets.union(3, 4);
    sets.union(0, 4);
    assert_eq!(sets.find(4), 1);
    assert_eq!(sets.find(3), 1);
}

#[test]
fn union_of_one_set_changes_nothing() {
    let mut sets = DisjointSets::new(3);
    sets.union(0, 1);
    sets.union(1, 0);
    assert_eq!(sets.find(0), sets.find(1));
    assert_ne!(sets.find(2), sets.find(0));
}

use std::collections::HashSet;

use seamless_tiler::raster::{
    HEX_EDGE_SAMPLES, HexRaster, Rgba, SQUARE_RASTER_SIZE, SquareRaster, TileSurface,
};
use seamless_tiler::seams::{
    EdgeCopyResult, EdgeLinkIndex, EdgeRef, TileSample, aligned_edge_index, border_coordinates,
    apply_plan, edge_families, orphan_edges, plan_edge_copy, plan_stroke,
};
use seamless_tiler::{
    Coord2, EdgeStrip, HexDirection, SocketMap, SquareDirection, Tile, TileId, TileSet,
};

/// A square catalog whose sides are given as strips of `SQUARE_RASTER_SIZE` samples.
fn square_catalog(tiles: &[[Vec<Rgba>; 4]]) -> TileSet<(), SquareDirection, EdgeStrip<Rgba>> {
    let mut set = TileSet::new();
    for sides in tiles {
        let sockets = SocketMap::from_fn(|direction: SquareDirection| {
            let index = match direction {
                SquareDirection::North => 0,
                SquareDirection::East => 1,
                SquareDirection::South => 2,
                SquareDirection::West => 3,
            };
            EdgeStrip::new(sides[index].clone())
        });
        set.insert(Tile::new((), sockets));
    }
    set
}

fn strip(first: Rgba, rest: Rgba) -> Vec<Rgba> {
    let mut samples = vec![rest; SQUARE_RASTER_SIZE];
    samples[0] = first;
    samples
}

fn ramp(start: Rgba) -> Vec<Rgba> {
    (0..SQUARE_RASTER_SIZE as u32).map(|index| start + index).collect()
}

#[test]
fn border_coordinates_cover_every_side_and_share_corners() {
    let square = border_coordinates::<SquareRaster>();
    assert_eq!(square.len(), 4 * (SQUARE_RASTER_SIZE - 1));
    let hex = border_coordinates::<HexRaster>();
    assert_eq!(hex.len(), 6 * (HEX_EDGE_SAMPLES - 1));

    for border in [square, hex] {
        let distinct: HashSet<_> = border.iter().copied().collect();
        assert_eq!(distinct.len(), border.len(), "border samples repeat");
    }
}

#[test]
fn aligned_indices_mirror_only_reversed_members() {
    assert_eq!(aligned_edge_index::<HexRaster>(0, false), 0);
    assert_eq!(
        aligned_edge_index::<HexRaster>(0, true),
        HEX_EDGE_SAMPLES - 1
    );
    assert_eq!(
        aligned_edge_index::<SquareRaster>(1, true),
        SQUARE_RASTER_SIZE - 2
    );
}

#[test]
fn surfaces_report_their_side_samples() {
    assert_eq!(SquareRaster::edge_samples(), SQUARE_RASTER_SIZE);
    assert_eq!(
        <SquareRaster as TileSurface>::edge_sample(SquareDirection::East, 3),
        Coord2::new(31, 3)
    );
    assert_eq!(HexRaster::edge_samples(), HEX_EDGE_SAMPLES);
    assert_eq!(
        <HexRaster as TileSurface>::edge_sample(HexDirection::East, 0),
        Coord2::new(22, -11)
    );
}

#[test]
fn families_group_equal_and_reversed_strips() {
    let forward = ramp(100);
    let mut backward = forward.clone();
    backward.reverse();
    let plain = vec![7; SQUARE_RASTER_SIZE];
    let catalog = square_catalog(&[
        [forward.clone(), plain.clone(), plain.clone(), plain.clone()],
        [plain.clone(), backward.clone(), strip(1, 2), plain.clone()],
    ]);
    let families = edge_families(&catalog);
    assert_eq!(families.len(), 3);

    let ramp_family = &families[0];
    assert_eq!(ramp_family.key.as_slice(), forward.as_slice());
    assert_eq!(
        ramp_family.members,
        vec![
            (EdgeRef { tile: TileId::new(0), direction: SquareDirection::North }, false),
            (EdgeRef { tile: TileId::new(1), direction: SquareDirection::East }, true),
        ]
    );
    assert_eq!(families[1].members.len(), 5);
    assert_eq!(
        families[2].members,
        vec![(EdgeRef { tile: TileId::new(1), direction: SquareDirection::South }, false)]
    );

    let orphans = orphan_edges(&catalog);
    assert_eq!(orphans.len(), 2);
    assert_eq!(orphans[0], (TileId::new(0), [false; 6]));
    assert_eq!(orphans[1], (TileId::new(1), [false, false, true, false, false, false]));
}

#[test]
fn linked_samples_follow_families_through_shared_corners() {
    let forward = ramp(100);
    let mut backward = forward.clone();
    backward.reverse();
    let catalog = square_catalog(&[
        [forward.clone(), ramp(300), ramp(400), ramp(500)],
        [ramp(600), backward.clone(), ramp(700), ramp(800)],
    ]);
    let links = EdgeLinkIndex::new::<SquareRaster, ()>(&catalog);

    let north_start = TileSample { tile: TileId::new(0), coord: Coord2::new(0, 0) };
    let east_end = TileSample { tile: TileId::new(1), coord: Coord2::new(31, 31) };
    let linked = links.linked_samples(north_start).unwrap();
    assert!(linked.contains(&north_start));
    assert!(linked.contains(&east_end));
    assert_eq!(linked.len(), 2);

    let interior = TileSample { tile: TileId::new(0), coord: Coord2::new(5, 5) };
    assert_eq!(links.linked_samples(interior), None);
    let missing_tile = TileSample { tile: TileId::new(2), coord: Coord2::new(0, 0) };
    assert_eq!(links.linked_samples(missing_tile), None);

    let lonely = TileSample { tile: TileId::new(0), coord: Coord2::new(31, 10) };
    assert_eq!(links.linked_samples(lonely).unwrap(), &[lonely]);
}

#[test]
fn edge_copies_plan_linked_writes_or_report_conflicts() {
    let forward = ramp(100);
    let catalog = square_catalog(&[
        [forward.clone(), ramp(300), ramp(400), ramp(500)],
        [ramp(600), ramp(700), ramp(800), ramp(900)],
    ]);
    let source = EdgeRef { tile: TileId::new(0), direction: SquareDirection::East };
    let plan = plan_edge_copy::<SquareRaster, ()>(&catalog, source, TileId::new(1), SquareDirection::South, false)
        .unwrap();
    assert_eq!(plan.len(), SQUARE_RASTER_SIZE);
    let first = TileSample { tile: TileId::new(1), coord: Coord2::new(0, 31) };
    assert!(plan.contains(&(first, 300)));

    assert_eq!(
        plan_edge_copy::<SquareRaster, ()>(&catalog, source, TileId::new(5), SquareDirection::South, false),
        Err(EdgeCopyResult::Invalid)
    );
    let missing = EdgeRef { tile: TileId::new(9), direction: SquareDirection::East };
    assert_eq!(
        plan_edge_copy::<SquareRaster, ()>(&catalog, missing, TileId::new(1), SquareDirection::South, false),
        Err(EdgeCopyResult::Invalid)
    );
}

#[test]
fn edge_copies_refuse_two_colors_for_one_linked_corner() {
    // Tile 0's north and east strips form one family, and the north side's last sample is
    // the east side's first, so the family links the two ends of the north side.
    let forward = ramp(100);
    let catalog = square_catalog(&[[forward.clone(), forward.clone(), ramp(400), ramp(500)]]);
    let source = EdgeRef { tile: TileId::new(0), direction: SquareDirection::South };
    let result = plan_edge_copy::<SquareRaster, ()>(&catalog, source, TileId::new(0), SquareDirection::North, false);
    assert_eq!(result, Err(EdgeCopyResult::Conflict));
}

#[test]
fn strokes_carry_colors_along_linked_edges() {
    let forward = ramp(100);
    let mut backward = forward.clone();
    backward.reverse();
    let catalog = square_catalog(&[
        [forward.clone(), ramp(300), ramp(400), ramp(500)],
        [ramp(600), backward.clone(), ramp(700), ramp(800)],
    ]);
    let stroke = vec![Coord2::new(0, 0), Coord2::new(5, 5)];
    let plan = plan_stroke::<SquareRaster, ()>(&catalog, TileId::new(0), &stroke, 9);
    let north_start = TileSample { tile: TileId::new(0), coord: Coord2::new(0, 0) };
    let east_end = TileSample { tile: TileId::new(1), coord: Coord2::new(31, 31) };
    let interior = TileSample { tile: TileId::new(0), coord: Coord2::new(5, 5) };
    assert_eq!(plan.len(), 3);
    assert!(plan.contains(&(north_start, 9)));
    assert!(plan.contains(&(east_end, 9)));
    assert!(plan.contains(&(interior, 9)));

    // A tile outside the catalog has no links: its samples are planned alone.
    let outside = plan_stroke::<SquareRaster, ()>(&catalog, TileId::new(7), &stroke, 4);
    assert_eq!(
        outside,
        vec![
            (TileSample { tile: TileId::new(7), coord: Coord2::new(0, 0) }, 4),
            (TileSample { tile: TileId::new(7), coord: Coord2::new(5, 5) }, 4),
        ]
    );
}

#[test]
fn applied_plans_repaint_surfaces_and_reread_changed_sockets() {
    let mut rasters = vec![SquareRaster::filled(1), SquareRaster::filled(2)];
    let mut catalog: TileSet<(), SquareDirection, EdgeStrip<Rgba>> = TileSet::new();
    for raster in &rasters {
        catalog.insert(Tile::new((), raster.edges()));
    }
    let untouched = catalog.get(TileId::new(1)).unwrap().clone();
    let plan = vec![
        (TileSample { tile: TileId::new(0), coord: Coord2::new(0, 0) }, 9),
        (TileSample { tile: TileId::new(0), coord: Coord2::new(40, 0) }, 9),
        (TileSample { tile: TileId::new(1), coord: Coord2::new(3, 3) }, 2),
        (TileSample { tile: TileId::new(5), coord: Coord2::new(0, 0) }, 9),
    ];
    assert!(apply_plan(&mut catalog, &mut rasters, &plan));
    assert_eq!(rasters[0].get(0, 0), 9);
    assert_eq!(rasters[0].get(1, 0), 1);
    assert_eq!(rasters[1].get(3, 3), 2);
    let north = &catalog.get(TileId::new(0)).unwrap().sockets[SquareDirection::North];
    assert_eq!(north.as_slice()[0], 9);
    assert_eq!(north.as_slice()[1], 1);
    assert_eq!(catalog.get(TileId::new(1)).unwrap(), &untouched);

    // Writing colors the surfaces already hold changes nothing.
    assert!(!apply_plan(&mut catalog, &mut rasters, &plan));
}

#[test]
fn closed_tile_components_list_samples_in_row_major_order() {
    let closed = vec![7; SQUARE_RASTER_SIZE];
    let catalog = square_catalog(&[[closed.clone(), closed.clone(), closed.clone(), closed]]);
    let links = EdgeLinkIndex::new::<SquareRaster, ()>(&catalog);
    let at = |x: i32, y: i32| TileSample { tile: TileId::new(0), coord: Coord2::new(x, y) };

    assert_eq!(
        links.linked_samples(at(0, 0)),
        Some(&[at(0, 0), at(31, 0), at(0, 31), at(31, 31)][..])
    );
    assert_eq!(
        links.linked_samples(at(5, 0)),
        Some(&[at(5, 0), at(0, 5), at(31, 5), at(5, 31)][..])
    );
    assert_eq!(links.linked_samples(at(5, 5)), None);
}

#[test]
fn orphan_health_counts_a_reversed_partner_on_the_same_tile() {
    let shared = ramp(70);
    let mut reversed = shared.clone();
    reversed.reverse();
    let catalog = square_catalog(&[[shared, ramp(120), reversed, ramp(900)]]);

    let orphans = orphan_edges(&catalog);
    assert_eq!(orphans.len(), 1);
    assert_eq!(orphans[0].0, TileId::new(0));
    let health = orphans[0].1;
    assert!(!health[0], "north pairs with the reversed south side");
    assert!(health[1], "east has no partner");
    assert!(!health[2], "south pairs with the north side");
}

#[test]
fn losing_the_only_partner_marks_an_edge_orphan() {
    let pattern = ramp(90);
    let paired = square_catalog(&[
        [pattern.clone(), ramp(200), ramp(300), ramp(400)],
        [ramp(500), ramp(600), pattern.clone(), ramp(700)],
    ]);
    assert!(!orphan_edges(&paired)[0].1[0]);

    let alone = square_catalog(&[[pattern, ramp(200), ramp(300), ramp(400)]]);
    assert!(orphan_edges(&alone)[0].1[0]);
}

#[test]
fn stroke_plans_list_each_sample_once() {
    let closed = vec![7; SQUARE_RASTER_SIZE];
    let catalog = square_catalog(&[[closed.clone(), closed.clone(), closed.clone(), closed]]);
    let stroke = vec![Coord2::new(0, 0), Coord2::new(31, 0), Coord2::new(0, 0), Coord2::new(5, 5)];
    let plan = plan_stroke::<SquareRaster, ()>(&catalog, TileId::new(0), &stroke, 9);

    assert_eq!(plan.len(), 5);
    let distinct: HashSet<_> = plan.iter().map(|(sample, _)| *sample).collect();
    assert_eq!(distinct.len(), plan.len());
    assert!(plan.iter().all(|(_, color)| *color == 9));
    let interior = TileSample { tile: TileId::new(0), coord: Coord2::new(5, 5) };
    assert!(plan.contains(&(interior, 9)));
}
