use seamless_tiler::editor::{
    CanvasTool, CellState, GridMode, MAX_DIMENSION, Orientation, VariantView, apply_tool, candidate_variants,
    catalog_wave, cell_state, clear_pins, edge_source_label, enabled_patterns, first_distinct, orphan_count,
    reconcile_catalog, reconcile_enabled, remap_pins, remap_tool, resized_pins,
    selected_after_removal, set_pin, set_variant_enabled, stroke_step, StrokeButton,
    tile_map_after_removal, tool_allowed,
    unresolved_count, valid_extent, variant_remap,
};
use seamless_tiler::raster::EDGE_BACKGROUND;
use seamless_tiler::{
    CellId, Coord2, D4, D6, EdgeStrip, Extent2, Grid, PatternId, QuarterTurns, SixthTurns,
    SquareDirection, SquareTopology, TileId, Topology, Wfc, WfcRules, WfcStatus,
};

#[test]
fn grid_modes_have_labels_and_dense_indices() {
    for (index, mode) in GridMode::all().into_iter().enumerate() {
        assert_eq!(mode.index(), index);
    }
    assert_eq!(GridMode::Square.label(), "Square");
    assert_eq!(GridMode::Hex.label(), "Hex");
    assert_eq!(GridMode::default(), GridMode::Square);
}

#[test]
fn orphan_counts_count_flagged_sides() {
    assert_eq!(orphan_count([false; 6]), 0);
    assert_eq!(orphan_count([true, false, true, false, false, true]), 3);
    assert_eq!(orphan_count([true; 6]), 6);
}

#[test]
fn edge_source_labels_join_tile_and_side() {
    assert_eq!(edge_source_label("Road", "North"), "Road · North");
    assert_eq!(edge_source_label("", "East"), " · East");
}

#[test]
fn enabled_patterns_list_enabled_positions_in_order() {
    assert_eq!(enabled_patterns(&vec![]), Vec::<usize>::new());
    assert_eq!(enabled_patterns(&vec![false, false]), Vec::<usize>::new());
    assert_eq!(
        enabled_patterns(&vec![true, false, true, true, false]),
        vec![0, 2, 3]
    );
}

#[test]
fn first_distinct_keeps_the_first_of_each_signature() {
    assert_eq!(first_distinct(&vec![]), Vec::<usize>::new());
    let signatures = vec![
        vec![1, 2],
        vec![3],
        vec![1, 2],
        vec![],
        vec![3],
        vec![2, 1],
        vec![],
    ];
    assert_eq!(first_distinct(&signatures), vec![0, 1, 3, 5]);
    assert_eq!(first_distinct(&vec![vec![7]; 4]), vec![0]);
}

fn strip(value: u32) -> EdgeStrip<u32> {
    EdgeStrip::new(vec![value])
}

#[test]
fn catalog_wave_is_none_without_enabled_variants() {
    let topology = SquareTopology::bounded(Extent2::new(2, 2)).unwrap();
    let pins = Grid::filled(Extent2::new(2, 2), None).unwrap();
    let sockets = vec![vec![strip(1); 4]];
    let open = vec![vec![true; 4]];
    assert!(catalog_wave(topology, &pins, &vec![], &sockets, &open, 3).is_none());
}

#[test]
fn catalog_wave_matches_sockets_and_applies_pins_and_boundaries() {
    let topology = SquareTopology::bounded(Extent2::new(2, 1)).unwrap();
    // Variant order: North, East, South, West.
    let sockets = vec![
        vec![strip(0), strip(1), strip(0), strip(2)],
        vec![strip(0), strip(2), strip(0), strip(1)],
        vec![strip(0), strip(1), strip(0), strip(1)],
    ];
    let open = vec![vec![true; 4], vec![true; 4], vec![true, true, true, false]];
    let mut pins = Grid::filled(Extent2::new(2, 1), None).unwrap();
    *pins.get_mut(Coord2::new(1, 0)).unwrap() = Some(1);
    let wave = catalog_wave(topology, &pins, &vec![0, 1, 2], &sockets, &open, 9).unwrap();
    assert_eq!(wave.seed(), 9);
    assert_eq!(wave.rules().pattern_count(), 3);
    let rules = wave.rules();
    assert!(rules.allows(SquareDirection::East, PatternId::new(0), PatternId::new(1)));
    assert!(rules.allows(SquareDirection::East, PatternId::new(1), PatternId::new(0)));
    assert!(!rules.allows(SquareDirection::East, PatternId::new(1), PatternId::new(1)));
    assert!(rules.allows(SquareDirection::East, PatternId::new(0), PatternId::new(2)));
    assert!(!rules.allows(SquareDirection::East, PatternId::new(1), PatternId::new(2)));
    assert!(rules.allows(SquareDirection::North, PatternId::new(0), PatternId::new(2)));
    // The right cell is pinned to variant 1; the left cell keeps what may face it and
    // allows the western boundary.
    let right = topology.cell_at(Coord2::new(1, 0)).unwrap();
    let left = topology.cell_at(Coord2::new(0, 0)).unwrap();
    assert_eq!(wave.candidates(right).unwrap(), vec![PatternId::new(1)]);
    assert_eq!(wave.candidates(left).unwrap(), vec![PatternId::new(0)]);
    assert_eq!(wave.status(), WfcStatus::Solved);
    assert_eq!(wave.candidates(CellId::new(7)), None);
}

fn pins_of(grid: &Grid<Option<usize>>) -> Vec<Option<usize>> {
    grid.iter().copied().collect()
}

#[test]
fn set_pin_reports_changes_and_ignores_outside_cells() {
    let mut pins = Grid::filled(Extent2::new(2, 2), None).unwrap();
    assert!(set_pin(&mut pins, Coord2::new(1, 0), Some(3)));
    assert!(!set_pin(&mut pins, Coord2::new(1, 0), Some(3)));
    assert!(!set_pin(&mut pins, Coord2::new(2, 0), Some(3)));
    assert!(!set_pin(&mut pins, Coord2::new(-1, 0), Some(3)));
    assert_eq!(pins_of(&pins), vec![None, Some(3), None, None]);
    assert!(set_pin(&mut pins, Coord2::new(1, 0), None));
    assert_eq!(pins_of(&pins), vec![None; 4]);
}

#[test]
fn clicks_pin_with_the_tool_and_unpin_with_the_secondary_button() {
    let mut pins = Grid::filled(Extent2::new(2, 1), None).unwrap();
    assert!(!apply_tool(&mut pins, CanvasTool::Inspect, Coord2::new(0, 0), false));
    assert!(apply_tool(&mut pins, CanvasTool::Pin(4), Coord2::new(0, 0), false));
    assert!(!apply_tool(&mut pins, CanvasTool::Pin(4), Coord2::new(0, 0), false));
    assert!(apply_tool(&mut pins, CanvasTool::Pin(2), Coord2::new(1, 0), false));
    assert_eq!(pins_of(&pins), vec![Some(4), Some(2)]);
    assert!(apply_tool(&mut pins, CanvasTool::Pin(4), Coord2::new(1, 0), true));
    assert!(apply_tool(&mut pins, CanvasTool::Unpin, Coord2::new(0, 0), false));
    assert_eq!(pins_of(&pins), vec![None, None]);
    assert!(!apply_tool(&mut pins, CanvasTool::Pin(1), Coord2::new(5, 5), false));
}

#[test]
fn pin_tools_need_an_enabled_variant() {
    let enabled = vec![true, false];
    assert!(tool_allowed(CanvasTool::Inspect, &enabled));
    assert!(tool_allowed(CanvasTool::Unpin, &enabled));
    assert!(tool_allowed(CanvasTool::Pin(0), &enabled));
    assert!(!tool_allowed(CanvasTool::Pin(1), &enabled));
    assert!(!tool_allowed(CanvasTool::Pin(2), &enabled));
}

#[test]
fn clearing_pins_counts_the_pinned_cells() {
    let mut pins = Grid::from_vec(Extent2::new(3, 1), vec![Some(0), None, Some(2)]).unwrap();
    assert_eq!(clear_pins(&mut pins), 2);
    assert_eq!(pins_of(&pins), vec![None; 3]);
    assert_eq!(clear_pins(&mut pins), 0);
}

#[test]
fn disabling_a_variant_clears_its_pins_and_its_pin_tool() {
    let mut enabled = vec![true, true];
    let mut pins = Grid::from_vec(Extent2::new(3, 1), vec![Some(0), Some(1), Some(0)]).unwrap();
    let mut tool = CanvasTool::Pin(0);
    assert_eq!(set_variant_enabled(&mut enabled, &mut pins, &mut tool, 0, false), Some(2));
    assert_eq!(enabled, vec![false, true]);
    assert_eq!(pins_of(&pins), vec![None, Some(1), None]);
    assert_eq!(tool, CanvasTool::Inspect);
    assert_eq!(set_variant_enabled(&mut enabled, &mut pins, &mut tool, 0, false), None);
    assert_eq!(set_variant_enabled(&mut enabled, &mut pins, &mut tool, 9, false), None);
    let mut tool = CanvasTool::Pin(1);
    assert_eq!(set_variant_enabled(&mut enabled, &mut pins, &mut tool, 0, true), Some(0));
    assert_eq!(enabled, vec![true, true]);
    assert_eq!(tool, CanvasTool::Pin(1));
}

#[test]
fn resizing_keeps_overlapping_pins() {
    let mut pins = Grid::filled(Extent2::new(3, 3), None).unwrap();
    set_pin(&mut pins, Coord2::new(0, 0), Some(5));
    set_pin(&mut pins, Coord2::new(2, 2), Some(5));
    set_pin(&mut pins, Coord2::new(1, 0), Some(7));
    let smaller = resized_pins(&pins, Extent2::new(2, 2));
    assert_eq!(smaller.extent(), Extent2::new(2, 2));
    assert_eq!(pins_of(&smaller), vec![Some(5), Some(7), None, None]);
    let larger = resized_pins(&smaller, Extent2::new(3, 1));
    assert_eq!(pins_of(&larger), vec![Some(5), Some(7), None]);
    assert!(valid_extent(Extent2::new(1, MAX_DIMENSION)));
    assert!(!valid_extent(Extent2::new(0, 2)));
    assert!(!valid_extent(Extent2::new(2, MAX_DIMENSION + 1)));
}

fn square(tile: usize, turns: usize, reflected: bool) -> VariantView {
    let rotation = QuarterTurns::all()[turns];
    VariantView {
        tile: TileId::new(tile),
        orientation: Orientation::Square(D4::new(rotation, reflected)),
    }
}

#[test]
fn variants_follow_their_tiles_through_a_removal() {
    assert_eq!(
        tile_map_after_removal(4, 1),
        vec![Some(TileId::new(0)), None, Some(TileId::new(1)), Some(TileId::new(2))]
    );
    let old = vec![square(0, 0, false), square(1, 0, false), square(1, 1, false), square(2, 0, false), square(3, 2, true)];
    let new = vec![square(0, 0, false), square(1, 0, false), square(2, 2, true)];
    let map = tile_map_after_removal(4, 1);
    assert_eq!(variant_remap(&old, &new, &map), vec![Some(0), None, None, Some(1), Some(2)]);
    let hex = VariantView {
        tile: TileId::new(0),
        orientation: Orientation::Hex(D6::new(SixthTurns::Zero, false)),
    };
    assert_eq!(variant_remap(&vec![hex], &new, &map), vec![None]);
}

#[test]
fn enabled_flags_carry_over_by_identity_and_new_variants_start_enabled() {
    assert_eq!(reconcile_enabled(3, &vec![Some(2), None, Some(0)], &vec![false, false, true]), vec![true, true, false]);
    assert_eq!(reconcile_enabled(2, &vec![], &vec![]), vec![true, true]);
}

#[test]
fn pins_and_pin_tools_follow_their_variants() {
    let mut pins = Grid::from_vec(Extent2::new(4, 1), vec![Some(0), Some(1), None, Some(7)]).unwrap();
    let remap = vec![Some(1), None];
    remap_pins(&mut pins, &remap);
    assert_eq!(pins_of(&pins), vec![Some(1), None, None, None]);
    let enabled = vec![true, true];
    assert_eq!(remap_tool(CanvasTool::Pin(0), &remap, &enabled), CanvasTool::Pin(1));
    assert_eq!(remap_tool(CanvasTool::Pin(1), &remap, &enabled), CanvasTool::Inspect);
    assert_eq!(remap_tool(CanvasTool::Pin(0), &remap, &vec![true, false]), CanvasTool::Inspect);
    assert_eq!(remap_tool(CanvasTool::Unpin, &remap, &enabled), CanvasTool::Unpin);
}

#[test]
fn deleting_a_tile_drops_only_its_pins() {
    // Tiles 0..3 with one variant each; tile 1 is removed.
    let old = vec![square(0, 0, false), square(1, 0, false), square(2, 0, false)];
    let new = vec![square(0, 0, false), square(1, 0, false)];
    let mut pins = Grid::from_vec(Extent2::new(2, 2), vec![Some(1), None, None, Some(2)]).unwrap();
    let mut tool = CanvasTool::Pin(2);
    let enabled = reconcile_catalog(
        &old,
        &vec![true, true, false],
        &new,
        &tile_map_after_removal(3, 1),
        &mut pins,
        &mut tool,
    );
    assert_eq!(enabled, vec![true, false]);
    assert_eq!(pins_of(&pins), vec![None, None, None, Some(1)]);
    assert_eq!(tool, CanvasTool::Inspect);
}

#[test]
fn selection_tracks_tile_removals() {
    // Four tiles, tile 2 selected; removing tile 1 moves the selection down.
    assert_eq!(selected_after_removal(Some(TileId::new(2)), 1, 3), Some(TileId::new(1)));
    // Removing the selected tile selects the tile now in its place.
    assert_eq!(selected_after_removal(Some(TileId::new(1)), 1, 2), Some(TileId::new(1)));
    // ... or the last tile, or none.
    assert_eq!(selected_after_removal(Some(TileId::new(2)), 2, 2), Some(TileId::new(1)));
    assert_eq!(selected_after_removal(Some(TileId::new(0)), 0, 0), None);
    assert_eq!(selected_after_removal(Some(TileId::new(0)), 3, 3), Some(TileId::new(0)));
    assert_eq!(selected_after_removal(None, 0, 3), None);
}

#[test]
fn unresolved_counts_and_candidate_variants_read_the_wave() {
    let topology = SquareTopology::bounded(Extent2::new(2, 1)).unwrap();
    let rules = WfcRules::new(3, |_direction, source, neighbor| source == neighbor).unwrap();
    let mut wave = Wfc::new(topology, rules, 5);
    let pattern_variants = vec![4, 6, 9];
    assert_eq!(unresolved_count(&wave), 2);
    assert_eq!(candidate_variants(&wave, CellId::new(0), &pattern_variants), vec![4, 6, 9]);
    assert_eq!(candidate_variants(&wave, CellId::new(2), &pattern_variants), Vec::<usize>::new());
    wave.observe(CellId::new(0), PatternId::new(1)).unwrap();
    assert_eq!(unresolved_count(&wave), 0);
    assert_eq!(candidate_variants(&wave, CellId::new(1), &pattern_variants), vec![6]);
    assert_eq!(wave.status(), WfcStatus::Solved);
}

#[test]
fn cell_states_read_the_wave() {
    let topology = SquareTopology::bounded(Extent2::new(2, 1)).unwrap();
    let rules = WfcRules::new(2, |_direction, source, neighbor| source == neighbor).unwrap();
    let mut wave = Wfc::new(topology, rules, 5);
    let pattern_variants = vec![3, 8];
    assert_eq!(
        cell_state(&wave, CellId::new(0), &pattern_variants, false),
        CellState::Superposition { candidates: 2 }
    );
    assert_eq!(cell_state(&wave, CellId::new(2), &pattern_variants, false), CellState::Unavailable);
    wave.observe(CellId::new(1), PatternId::new(1)).unwrap();
    assert_eq!(
        cell_state(&wave, CellId::new(0), &pattern_variants, true),
        CellState::Collapsed { variant: 8, pinned: true }
    );

    let contradictory = WfcRules::new(1, |_direction, _source, _neighbor| false).unwrap();
    let stuck = Wfc::new(topology, contradictory, 5);
    assert!(matches!(stuck.status(), WfcStatus::Contradiction { .. }));
    let WfcStatus::Contradiction { cell } = stuck.status() else {
        unreachable!()
    };
    assert_eq!(cell_state(&stuck, cell, &vec![0], false), CellState::Contradiction);
}

#[test]
fn paint_strokes_continue_only_with_the_same_mode_tile_and_button() {
    let tile = TileId::new(2);
    let at = Coord2::new(3, 4);
    // A primary press starts a stroke at the sample itself.
    let (stroke, segment) = stroke_step(None, GridMode::Square, tile, false, true, Some(at), true, false, 7);
    assert_eq!(segment, Some((at, at, 7)));
    let stroke = stroke.unwrap();
    assert_eq!(stroke.button, StrokeButton::Primary);
    // Dragging on continues from the last sample.
    let next = Coord2::new(5, 4);
    let (moved, segment) = stroke_step(Some(stroke), GridMode::Square, tile, false, true, Some(next), true, false, 7);
    assert_eq!(segment, Some((at, next, 7)));
    assert_eq!(moved.unwrap().last_sample, next);
    // The secondary button erases and starts afresh.
    let (_, segment) = stroke_step(Some(stroke), GridMode::Square, tile, false, true, Some(next), false, true, 7);
    assert_eq!(segment, Some((next, next, EDGE_BACKGROUND)));
    // Another tile starts afresh.
    let (_, segment) = stroke_step(Some(stroke), GridMode::Square, TileId::new(0), false, true, Some(next), true, false, 7);
    assert_eq!(segment, Some((next, next, 7)));
    // A release ends the stroke; leaving the samples drops it; no press paints nothing.
    assert_eq!(stroke_step(Some(stroke), GridMode::Square, tile, true, false, Some(next), false, false, 7), (None, None));
    assert_eq!(stroke_step(Some(stroke), GridMode::Square, tile, false, true, None, true, false, 7), (None, None));
    assert_eq!(
        stroke_step(Some(stroke), GridMode::Square, tile, false, false, Some(next), true, false, 7),
        (Some(stroke), None)
    );
}
