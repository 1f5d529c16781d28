use seamless_tiler::{
    CellId, Coord2, Extent2, HexTopology, PatternId, SquareDirection, SquareTopology, Topology,
    Wfc, WfcError, WfcRules, WfcStatus,
};

fn all_compatible_rules(patterns: usize) -> WfcRules<SquareDirection> {
    WfcRules::new(patterns, |_direction, _source, _neighbor| true).unwrap()
}

fn equality_rules(patterns: usize) -> WfcRules<SquareDirection> {
    WfcRules::new(patterns, |_direction, source, neighbor| source == neighbor).unwrap()
}

/// Runs the wave to completion with equal pattern weights: the observed cell is drawn among
/// the cells with the fewest candidates, and the pattern uniformly among its candidates.
fn solve_with_equal_weights<T: Topology>(wave: &mut Wfc<T>) {
    while wave.status() == WfcStatus::Running {
        let observable = wave.observable_cells();
        let fewest = observable
            .iter()
            .map(|cell| wave.candidate_count(*cell).unwrap())
            .min()
            .unwrap();
        let best: Vec<CellId> = observable
            .into_iter()
            .filter(|cell| wave.candidate_count(*cell).unwrap() == fewest)
            .collect();
        let cell = best[wave.random_index(best.len())];
        let candidates = wave.candidates(cell).unwrap();
        let unit = (wave.random_u64() >> 11) as f64 * (1.0 / ((1_u64 << 53) as f64));
        let mut choice = unit * candidates.len() as f64;
        let mut pattern = *candidates.last().unwrap();
        for candidate in candidates {
            if choice < 1.0 {
                pattern = candidate;
                break;
            }
            choice -= 1.0;
        }
        let step = wave.observe(cell, pattern).unwrap();
        assert_eq!(step.cell, cell);
        assert_eq!(step.pattern, pattern);
    }
}

#[test]
fn rules_validate_patterns_weights_and_table_lookups() {
    assert_eq!(
        WfcRules::<SquareDirection>::new(0, |_direction, _source, _neighbor| true),
        Err(WfcError::NoPatterns)
    );

    let rules = WfcRules::new(2, |direction, source, neighbor| {
        direction == SquareDirection::East
            && source == PatternId::new(0)
            && neighbor == PatternId::new(1)
    })
    .unwrap();
    assert_eq!(rules.pattern_count(), 2);
    assert!(rules.allows(SquareDirection::East, PatternId::new(0), PatternId::new(1)));
    assert!(!rules.allows(SquareDirection::West, PatternId::new(0), PatternId::new(1)));
}

#[test]
fn rule_lookups_past_the_table_are_refused() {
    let rules = all_compatible_rules(2);
    assert!(rules.allows(SquareDirection::West, PatternId::new(1), PatternId::new(1)));
    assert!(!rules.allows(SquareDirection::West, PatternId::new(1), PatternId::new(2)));
    assert!(!rules.allows(SquareDirection::North, PatternId::new(usize::MAX), PatternId::new(0)));
}

#[test]
fn oversized_rule_tables_are_rejected() {
    assert_eq!(
        WfcRules::<SquareDirection>::new(usize::MAX, |_direction, _source, _neighbor| true),
        Err(WfcError::RuleTableOverflow {
            patterns: usize::MAX,
            directions: 4
        })
    );
}

#[test]
fn initial_constraints_propagate_to_a_complete_solution() {
    let topology = SquareTopology::bounded(Extent2::new(3, 1)).unwrap();
    let left = topology.cell_at(Coord2::zero()).unwrap();
    let wave = Wfc::with_constraints(topology, equality_rules(2), 7, |cell, pattern| {
        cell != left || pattern == PatternId::new(1)
    });

    assert_eq!(wave.status(), WfcStatus::Solved);
    for index in 0..3 {
        assert_eq!(
            wave.collapsed_pattern(CellId::new(index)),
            Some(PatternId::new(1))
        );
    }
}

#[test]
fn incompatible_initial_constraints_report_a_contradiction() {
    let topology = SquareTopology::bounded(Extent2::new(2, 1)).unwrap();
    let wave = Wfc::with_constraints(topology, equality_rules(2), 0, |cell, pattern| {
        pattern.index() == cell.index()
    });

    assert!(matches!(wave.status(), WfcStatus::Contradiction { .. }));
}

#[test]
fn contradictions_name_an_empty_cell() {
    let topology = SquareTopology::bounded(Extent2::new(2, 1)).unwrap();
    let wave = Wfc::with_constraints(topology, equality_rules(2), 0, |cell, pattern| {
        pattern.index() == cell.index()
    });
    let WfcStatus::Contradiction { cell } = wave.status() else {
        panic!("the constraints cannot be met");
    };
    assert_eq!(wave.candidate_count(cell), Some(0));
    assert_eq!(wave.candidates(cell), Some(Vec::new()));
    assert_eq!(wave.collapsed_pattern(cell), None);
}

#[test]
fn observation_uses_the_lowest_entropy_cell() {
    let topology = SquareTopology::bounded(Extent2::new(2, 1)).unwrap();
    let wave_rules = all_compatible_rules(3);
    let mut wave = Wfc::with_constraints(topology, wave_rules, 5, |cell, pattern| {
        cell.index() == 1 || pattern.index() < 2
    });

    assert_eq!(wave.observable_cells(), vec![CellId::new(0), CellId::new(1)]);
    assert_eq!(wave.candidate_count(CellId::new(0)), Some(2));
    assert_eq!(wave.candidate_count(CellId::new(1)), Some(3));
    let step = wave.observe(CellId::new(0), PatternId::new(1)).unwrap();
    assert_eq!(step.cell, CellId::new(0));
    assert_eq!(step.removed_candidates, 1);
    assert_eq!(step.status, WfcStatus::Running);
    assert_eq!(wave.candidate_count(CellId::new(0)), Some(1));
    assert_eq!(wave.observable_cells(), vec![CellId::new(1)]);
}

#[test]
fn observation_propagates_to_neighbors() {
    let topology = SquareTopology::bounded(Extent2::new(3, 1)).unwrap();
    let mut wave = Wfc::new(topology, equality_rules(3), 0);
    assert_eq!(wave.status(), WfcStatus::Running);
    let step = wave.observe(CellId::new(1), PatternId::new(2)).unwrap();
    assert_eq!(step.removed_candidates, 6);
    assert_eq!(step.status, WfcStatus::Solved);
    for index in 0..3 {
        assert_eq!(
            wave.collapsed_pattern(CellId::new(index)),
            Some(PatternId::new(2))
        );
    }
}

#[test]
fn observation_is_refused_outside_a_running_wave_or_domain() {
    let topology = SquareTopology::bounded(Extent2::new(2, 1)).unwrap();
    let mut wave = Wfc::with_constraints(topology, all_compatible_rules(2), 0, |_cell, pattern| {
        pattern.index() == 0
    });
    assert_eq!(wave.status(), WfcStatus::Solved);
    assert_eq!(wave.observe(CellId::new(0), PatternId::new(0)), None);

    let topology = SquareTopology::bounded(Extent2::new(2, 1)).unwrap();
    let mut wave = Wfc::with_constraints(topology, all_compatible_rules(3), 0, |cell, pattern| {
        cell.index() == 1 || pattern.index() < 2
    });
    assert_eq!(wave.observe(CellId::new(0), PatternId::new(2)), None);
    assert_eq!(wave.observe(CellId::new(2), PatternId::new(0)), None);
    assert_eq!(wave.observe(CellId::new(0), PatternId::new(3)), None);
    assert_eq!(wave.candidate_count(CellId::new(0)), Some(2));
}

#[test]
fn candidates_are_listed_in_increasing_order() {
    let topology = SquareTopology::bounded(Extent2::new(2, 1)).unwrap();
    let wave = Wfc::with_constraints(topology, all_compatible_rules(4), 0, |cell, pattern| {
        cell.index() == 0 || pattern.index() % 2 == 1
    });
    assert_eq!(
        wave.candidates(CellId::new(1)),
        Some(vec![PatternId::new(1), PatternId::new(3)])
    );
    assert_eq!(wave.candidates(CellId::new(2)), None);
    assert_eq!(wave.candidate_count(CellId::new(2)), None);
}

#[test]
fn equal_seeds_produce_equal_complete_waves() {
    let solve = |seed| {
        let topology = SquareTopology::bounded(Extent2::new(5, 3)).unwrap();
        let mut wave = Wfc::new(topology, all_compatible_rules(4), seed);
        solve_with_equal_weights(&mut wave);
        (0..15)
            .map(|index| wave.collapsed_pattern(CellId::new(index)).unwrap())
            .collect::<Vec<_>>()
    };

    assert_eq!(solve(42), solve(42));
    assert_ne!(solve(42), solve(43));
}

#[test]
fn restart_restores_constraints_and_uses_the_new_seed() {
    let topology = SquareTopology::bounded(Extent2::new(3, 1)).unwrap();
    let mut wave =
        Wfc::with_constraints(topology, all_compatible_rules(3), 1, |cell, pattern| {
            cell.index() != 0 || pattern == PatternId::new(2)
        });
    wave.observe(CellId::new(1), PatternId::new(0)).unwrap();

    assert_eq!(wave.restart(9), WfcStatus::Running);
    assert_eq!(wave.seed(), 9);
    assert_eq!(
        wave.collapsed_pattern(CellId::new(0)),
        Some(PatternId::new(2))
    );
    assert_eq!(wave.candidate_count(CellId::new(1)), Some(3));
}

#[test]
fn restart_reproduces_a_contradicting_fresh_start() {
    let constraints = |cell: CellId, pattern: PatternId| pattern.index() == cell.index();
    let topology = SquareTopology::bounded(Extent2::new(2, 1)).unwrap();
    let fresh = Wfc::with_constraints(topology.clone(), equality_rules(2), 3, constraints);
    let mut wave = Wfc::with_constraints(topology, equality_rules(2), 8, constraints);

    assert_eq!(
        fresh.status(),
        WfcStatus::Contradiction {
            cell: CellId::new(1)
        }
    );
    assert_eq!(wave.restart(3), fresh.status());
    assert_eq!(wave.seed(), 3);
    for index in 0..2 {
        let cell = CellId::new(index);
        assert_eq!(wave.candidate_count(cell), fresh.candidate_count(cell));
        assert_eq!(wave.candidates(cell), fresh.candidates(cell));
    }
    assert_eq!(wave.candidate_count(CellId::new(0)), Some(1));
}

#[test]
fn restart_replays_the_random_sequence_of_its_seed() {
    let topology = SquareTopology::bounded(Extent2::new(2, 2)).unwrap();
    let mut wave = Wfc::new(topology, all_compatible_rules(2), 9);
    let first: Vec<u64> = (0..3).map(|_| wave.random_u64()).collect();
    wave.restart(9);
    let again: Vec<u64> = (0..3).map(|_| wave.random_u64()).collect();
    assert_eq!(first, again);
    wave.restart(0);
    assert_eq!(wave.random_u64(), 0xe220_a839_7b1d_cdaf);
    assert_eq!(wave.random_index(10), (0x6e78_9e6a_a1b9_65f4_u128 * 10 >> 64) as usize);
}

#[test]
fn directional_rules_propagate_in_their_topology_direction() {
    let topology = SquareTopology::bounded(Extent2::new(2, 1)).unwrap();
    let rules = WfcRules::new(2, |direction, source, neighbor| match direction {
        SquareDirection::East => source.index() == 0 && neighbor.index() == 1,
        SquareDirection::West => source.index() == 1 && neighbor.index() == 0,
        SquareDirection::North | SquareDirection::South => true,
    })
    .unwrap();
    let wave = Wfc::new(topology, rules, 0);

    assert_eq!(wave.status(), WfcStatus::Solved);
    assert_eq!(
        wave.collapsed_pattern(CellId::new(0)),
        Some(PatternId::new(0))
    );
    assert_eq!(
        wave.collapsed_pattern(CellId::new(1)),
        Some(PatternId::new(1))
    );
}

#[test]
fn empty_topology_is_already_solved() {
    let topology = SquareTopology::bounded(Extent2::new(0, 4)).unwrap();
    let mut wave = Wfc::new(topology, all_compatible_rules(2), 0);
    assert_eq!(wave.status(), WfcStatus::Solved);
    assert!(wave.observable_cells().is_empty());
    assert_eq!(wave.observe(CellId::new(0), PatternId::new(0)), None);
}

#[test]
fn self_neighbors_require_each_candidate_to_support_itself() {
    let topology = SquareTopology::toroidal(Extent2::new(1, 1)).unwrap();
    let rules = WfcRules::new(2, |_direction, source, neighbor| {
        source == neighbor && source == PatternId::new(0)
    })
    .unwrap();
    let wave = Wfc::new(topology, rules, 0);

    assert_eq!(wave.status(), WfcStatus::Solved);
    assert_eq!(
        wave.collapsed_pattern(CellId::new(0)),
        Some(PatternId::new(0))
    );
}

#[test]
fn hex_waves_solve_with_equal_weights() {
    let topology = HexTopology::toroidal(Extent2::new(4, 4)).unwrap();
    let mut wave = Wfc::new(topology, WfcRules::new(2, |_d, _s, _n| true).unwrap(), 3);
    solve_with_equal_weights(&mut wave);
    assert_eq!(wave.status(), WfcStatus::Solved);
    for index in 0..16 {
        assert!(wave.collapsed_pattern(CellId::new(index)).is_some());
    }
}

#[test]
fn wfc_errors_describe_themselves() {
    assert_eq!(WfcError::NoPatterns.to_string(), "WFC needs at least one pattern");
    assert_eq!(
        WfcError::RuleTableOverflow { patterns: 70000, directions: 4 }.to_string(),
        "WFC compatibility table overflows usize for 70000 patterns and 4 directions"
    );
}
