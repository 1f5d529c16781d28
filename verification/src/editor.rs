//! Small pieces of the tile editor's state and labels.
use vstd::prelude::*;
use vstd::string::StringExecFns;

use crate::grid::Grid;
use crate::raster::{EDGE_BACKGROUND, Rgba};
use crate::seams::{OrphanEdges, slices_equal};
use crate::spatial::{Coord2, Extent2, spec_area, spec_coordinate, spec_extent_contains, spec_linear_index};
use crate::tile::{EdgeStrip, TileId};
use crate::transform::{D4, D6};
use crate::topology::{CellId, Direction, Topology};
use crate::wfc::{PatternId, Wfc, WfcRules, count_true, spec_lists_flags};

verus! {

/// The cell shape an editor session works with.
#[derive(Clone, Copy, Debug, Default, PartialEq, Eq, Hash, Structural)]
pub enum GridMode {
    #[default]
    Square,
    Hex,
}

impl GridMode {
    /// Every mode, in menu order.
    pub fn all() -> (r: [GridMode; 2])
        ensures
            r@ == seq![GridMode::Square, GridMode::Hex],
    {
        let r = [GridMode::Square, GridMode::Hex];
        assert(r@ =~= seq![GridMode::Square, GridMode::Hex]);
        r
    }

    /// The mode's name in menus.
    pub fn label(self) -> (r: &'static str)
        ensures
            self == GridMode::Square ==> r@ == "Square"@,
            self == GridMode::Hex ==> r@ == "Hex"@,
    {
        match self {
            GridMode::Square => "Square",
            GridMode::Hex => "Hex",
        }
    }

    /// The mode's position in [`GridMode::all`].
    pub fn index(self) -> (r: usize)
        ensures
            r == match self {
                GridMode::Square => 0usize,
                GridMode::Hex => 1usize,
            },
    {
        match self {
            GridMode::Square => 0,
            GridMode::Hex => 1,
        }
    }
}

/// The number of orphaned sides of one tile.
pub fn orphan_count(orphan_edges: OrphanEdges) -> (r: usize)
    ensures
        r == count_true(orphan_edges@),
{
    let mut count: usize = 0;
    let mut side: usize = 0;
    while side < 6
        invariant
            side <= 6,
            orphan_edges@.len() == 6,
            count == count_true(orphan_edges@.take(side as int)),
            count <= side,
        decreases 6 - side,
    {
        proof {
            assert(orphan_edges@.take(side as int + 1).drop_last() =~= orphan_edges@.take(side as int));
        }
        if orphan_edges[side] {
            count += 1;
        }
        side += 1;
    }
    assert(orphan_edges@.take(6) =~= orphan_edges@);
    count
}

/// The label of an edge copy source: the tile's name and the side's name.
pub fn edge_source_label(name: &str, direction: &str) -> (r: String)
    ensures
        r@ == name@ + " · "@ + direction@,
{
    let mut label = name.to_owned();
    label.append(" · ");
    label.append(direction);
    label
}

/// The enabled variants, in catalog order: the patterns of the wave.
pub fn enabled_patterns(enabled: &Vec<bool>) -> (r: Vec<usize>)
    ensures
        spec_lists_flags(r@, enabled@),
{
    let mut listed: Vec<usize> = Vec::new();
    let mut index: usize = 0;
    while index < enabled.len()
        invariant
            index <= enabled@.len(),
            forall|i: int, j: int| 0 <= i < j < listed@.len() ==> listed@[i] < listed@[j],
            forall|i: int| 0 <= i < listed@.len() ==> #[trigger] listed@[i] < index,
            forall|i: int| 0 <= i < listed@.len() ==> enabled@[#[trigger] listed@[i] as int],
            forall|p: int| 0 <= p < index && #[trigger] enabled@[p] ==> exists|i: int| 0 <= i < listed@.len() && listed@[i] == p,
        decreases enabled@.len() - index,
    {
        if enabled[index] {
            let ghost before = listed@;
            listed.push(index);
            proof {
                assert(listed@[before.len() as int] == index);
                assert forall|i: int, j: int| 0 <= i < j < listed@.len() implies listed@[i] < listed@[j] by {
                    assert(listed@[i] == before[i]);
                    if j < before.len() {
                        assert(listed@[j] == before[j]);
                    } else {
                        assert(before[i] < index);
                    }
                }
                assert forall|i: int| 0 <= i < listed@.len() implies #[trigger] listed@[i] < index + 1 by {
                    if i < before.len() {
                        assert(listed@[i] == before[i]);
                    }
                }
                assert forall|i: int| 0 <= i < listed@.len() implies enabled@[#[trigger] listed@[i] as int] by {
                    if i < before.len() {
                        assert(listed@[i] == before[i]);
                    }
                }
                assert forall|p: int| 0 <= p < index + 1 && #[trigger] enabled@[p] implies exists|i: int|
                    0 <= i < listed@.len() && listed@[i] == p by {
                    if p < index {
                        let i = choose|i: int| 0 <= i < before.len() && before[i] == p;
                        assert(listed@[i] == p);
                    } else {
                        assert(listed@[before.len() as int] == p);
                    }
                }
            }
        }
        index += 1;
    }
    listed
}

/// The pin of the cell at `coord`, if the cell has a place in the pin grid.
pub open spec fn pin_at(pins: &Grid<Option<usize>>, coord: Option<Coord2>) -> Option<Option<usize>> {
    match coord {
        Some(at) => match spec_linear_index(pins.spec_extent(), at) {
            Some(index) => Some(pins@[index as int]),
            None => None,
        },
        None => None,
    }
}

/// Whether `variant` may start out as a candidate of `cell`: the cell's pin, if any, names
/// it, and every side of the variant that faces the topology's boundary allows the boundary.
pub open spec fn spec_initially_allowed<T: Topology<Coord = Coord2>>(
    topology: T,
    pins: &Grid<Option<usize>>,
    boundary_ok: Seq<bool>,
    variant: usize,
    cell: CellId,
) -> bool {
    &&& match pin_at(pins, topology.spec_coordinate(cell)) {
        Some(Some(pinned)) => pinned == variant,
        _ => true,
    }
    &&& forall|direction: T::Direction|
        (#[trigger] topology.spec_neighbor(cell, direction)) is Some || boundary_ok[direction.spec_index() as int]
}

/// A cell's initial candidates follow its pin and the boundary: a cell pinned to one variant
/// admits no other; a variant is refused wherever one of its sides faces the boundary and
/// does not allow it; an unpinned cell admits every variant whose boundary sides all allow
/// it, and a cell with a neighbor on every side admits every variant its pin allows.
pub proof fn lemma_initial_candidates_follow_pins_and_boundaries<T: Topology<Coord = Coord2>>(
    topology: T,
    pins: &Grid<Option<usize>>,
    boundary_ok: Seq<bool>,
    variant: usize,
    cell: CellId,
    direction: T::Direction,
)
    ensures
        pin_at(pins, topology.spec_coordinate(cell)) matches Some(Some(pinned)) && pinned != variant ==> !spec_initially_allowed(
            topology,
            pins,
            boundary_ok,
            variant,
            cell,
        ),
        topology.spec_neighbor(cell, direction) is None && !boundary_ok[direction.spec_index() as int] ==> !spec_initially_allowed(
            topology,
            pins,
            boundary_ok,
            variant,
            cell,
        ),
        !(pin_at(pins, topology.spec_coordinate(cell)) matches Some(Some(_))) && (forall|d: T::Direction|
            #[trigger] topology.spec_neighbor(cell, d) is None ==> boundary_ok[d.spec_index() as int]) ==> spec_initially_allowed(
            topology,
            pins,
            boundary_ok,
            variant,
            cell,
        ),
        (pin_at(pins, topology.spec_coordinate(cell)) == Some(Some(variant)) || !(pin_at(pins, topology.spec_coordinate(cell)) matches Some(
            Some(_),
        ))) && (forall|d: T::Direction| #[trigger] topology.spec_neighbor(cell, d) is Some) ==> spec_initially_allowed(
            topology,
            pins,
            boundary_ok,
            variant,
            cell,
        ),
{
}

/// Whether the socket of `source` facing `direction` equals the socket of `neighbor` facing
/// back.
pub open spec fn spec_sockets_face<D: Direction>(
    variant_sockets: Seq<Vec<EdgeStrip<Rgba>>>,
    source: int,
    neighbor: int,
    direction: D,
) -> bool {
    variant_sockets[source]@[direction.spec_index() as int]@ == variant_sockets[neighbor]@[direction.spec_opposite().spec_index() as int]@
}

/// Facing sockets are compatible exactly when the strip leaving the source in `direction`
/// and the neighbor's strip facing back hold the same samples in the same order: neither is
/// reversed, and edges cut from seamless rasters fit.
pub proof fn lemma_facing_sockets_agree_sample_by_sample<D: Direction>(
    variant_sockets: Seq<Vec<EdgeStrip<Rgba>>>,
    source: int,
    neighbor: int,
    direction: D,
)
    ensures
        ({
            let outgoing = variant_sockets[source]@[direction.spec_index() as int]@;
            let incoming = variant_sockets[neighbor]@[direction.spec_opposite().spec_index() as int]@;
            spec_sockets_face(variant_sockets, source, neighbor, direction) <==> outgoing.len() == incoming.len() && forall|i: int|
                0 <= i < outgoing.len() ==> outgoing[i] == incoming[i]
        }),
{
    let outgoing = variant_sockets[source]@[direction.spec_index() as int]@;
    let incoming = variant_sockets[neighbor]@[direction.spec_opposite().spec_index() as int]@;
    if outgoing.len() == incoming.len() && forall|i: int| 0 <= i < outgoing.len() ==> outgoing[i] == incoming[i] {
        assert(outgoing =~= incoming);
    }
}

/// The catalog's wave: one pattern per enabled variant; a pattern may sit next to another
/// when their facing sockets are equal, and may start in a cell when the cell's pin and the
/// topology's boundary allow it. `None` when no variant is enabled.
pub fn catalog_wave<T: Topology<Coord = Coord2> + Copy>(
    topology: T,
    pins: &Grid<Option<usize>>,
    pattern_variants: &Vec<usize>,
    variant_sockets: &Vec<Vec<EdgeStrip<Rgba>>>,
    boundary_ok: &Vec<Vec<bool>>,
    seed: u64,
) -> (r: Option<Wfc<T>>)
    requires
        topology.spec_cell_count() * pattern_variants@.len() <= usize::MAX,
        T::Direction::spec_count() * (pattern_variants@.len() * pattern_variants@.len()) <= usize::MAX,
        forall|p: int| 0 <= p < pattern_variants@.len() ==> #[trigger] pattern_variants@[p] < variant_sockets@.len()
            && pattern_variants@[p] < boundary_ok@.len(),
        forall|v: int| 0 <= v < variant_sockets@.len() ==> (#[trigger] variant_sockets@[v])@.len() == T::Direction::spec_count(),
        forall|v: int| 0 <= v < boundary_ok@.len() ==> (#[trigger] boundary_ok@[v])@.len() == T::Direction::spec_count(),
    ensures
        r is None <==> pattern_variants@.len() == 0,
        r matches Some(wave) ==> {
            &&& wave.wf()
            &&& wave.spec_topology() == topology
            &&& wave.spec_seed() == seed
            &&& wave.spec_rules().spec_pattern_count() == pattern_variants@.len()
            &&& forall|direction: T::Direction, p: int, q: int|
                0 <= p < pattern_variants@.len() && 0 <= q < pattern_variants@.len() ==> (#[trigger] wave.spec_rules().spec_allows(
                    direction,
                    p,
                    q,
                ) == spec_sockets_face(variant_sockets@, pattern_variants@[p] as int, pattern_variants@[q] as int, direction))
            &&& forall|c: int, p: int|
                0 <= c < topology.spec_cell_count() && 0 <= p < pattern_variants@.len() ==> (#[trigger] wave.spec_initial()[c][p]
                    == spec_initially_allowed(topology, pins, boundary_ok@[pattern_variants@[p] as int]@, pattern_variants@[p], CellId(c as usize)))
            &&& crate::wfc::spec_keeps_consistent_refinements(topology, wave.spec_rules(), wave.spec_initial(), wave.spec_domains())
            &&& wave.spec_settled_start()
            &&& forall|direction: T::Direction, p: int, q: int|
                0 <= p < pattern_variants@.len() && 0 <= q < pattern_variants@.len() ==> (#[trigger] wave.spec_rules().spec_allows(
                    direction,
                    p,
                    q,
                ) <==> ({
                    let outgoing = variant_sockets@[pattern_variants@[p] as int]@[direction.spec_index() as int]@;
                    let incoming = variant_sockets@[pattern_variants@[q] as int]@[direction.spec_opposite().spec_index() as int]@;
                    outgoing.len() == incoming.len() && forall|i: int| 0 <= i < outgoing.len() ==> outgoing[i] == incoming[i]
                }))
        },
{
    if pattern_variants.len() == 0 {
        return None;
    }
    proof {
        T::Direction::lemma_direction_laws();
    }
    let count = T::Direction::count();
    let compatible = |direction: T::Direction, source: PatternId, neighbor: PatternId| -> (ok: bool)
        ensures
            source.0 < pattern_variants@.len() && neighbor.0 < pattern_variants@.len() ==> ok == spec_sockets_face(
                variant_sockets@,
                pattern_variants@[source.0 as int] as int,
                pattern_variants@[neighbor.0 as int] as int,
                direction,
            ),
    {
        proof {
            T::Direction::lemma_direction_laws();
        }
        if source.index() < pattern_variants.len() && neighbor.index() < pattern_variants.len() {
            let s = pattern_variants[source.index()];
            let n = pattern_variants[neighbor.index()];
            let outgoing = variant_sockets[s][direction.index()].as_slice();
            let incoming = variant_sockets[n][direction.opposite().index()].as_slice();
            slices_equal(outgoing, incoming)
        } else {
            false
        }
    };
    let rules = WfcRules::new(pattern_variants.len(), compatible).unwrap();
    let allowed = |cell: CellId, pattern: PatternId| -> (ok: bool)
        ensures
            pattern.0 < pattern_variants@.len() ==> ok == spec_initially_allowed(
                topology,
                pins,
                boundary_ok@[pattern_variants@[pattern.0 as int] as int]@,
                pattern_variants@[pattern.0 as int],
                cell,
            ),
    {
        proof {
            T::Direction::lemma_direction_laws();
        }
        if pattern.index() >= pattern_variants.len() {
            return false;
        }
        let variant = pattern_variants[pattern.index()];
        let pin: Option<Option<usize>> = match topology.coordinate(cell) {
            Some(coord) => match pins.get(coord) {
                Some(value) => Some(*value),
                None => None,
            },
            None => None,
        };
        proof {
            assert(pin == pin_at(pins, topology.spec_coordinate(cell)));
        }
        let pin_matches = match pin {
            Some(Some(pinned)) => pinned == variant,
            _ => true,
        };
        if !pin_matches {
            return false;
        }
        let count = T::Direction::count();
        let open = &boundary_ok[variant];
        let mut di: usize = 0;
        while di < count
            invariant
                count == T::Direction::spec_count(),
                pattern.0 < pattern_variants@.len(),
                variant == pattern_variants@[pattern.0 as int],
                variant < boundary_ok@.len(),
                open@ == boundary_ok@[variant as int]@,
                open@.len() == count,
                di <= count,
                forall|d: T::Direction| #[trigger] d.spec_index() < di ==> (topology.spec_neighbor(cell, d) is Some || open@[d.spec_index() as int]),
            decreases count - di,
        {
            proof {
                T::Direction::lemma_direction_laws();
            }
            let direction = T::Direction::from_index(di);
            if topology.neighbor(cell, direction).is_none() && !open[di] {
                proof {
                    assert(direction.spec_index() == di);
                    assert(!((topology.spec_neighbor(cell, direction)) is Some || boundary_ok@[variant as int]@[direction.spec_index() as int]));
                }
                return false;
            }
            proof {
                assert forall|d: T::Direction| #[trigger] d.spec_index() < di + 1 implies (topology.spec_neighbor(cell, d) is Some
                    || open@[d.spec_index() as int]) by {
                    if d.spec_index() == di {
                        assert(d == direction);
                    }
                }
            }
            di += 1;
        }
        proof {
            assert forall|d: T::Direction| (#[trigger] topology.spec_neighbor(cell, d)) is Some || open@[d.spec_index() as int] by {
                assert(d.spec_index() < count);
            }
        }
        true
    };
    let wave = Wfc::with_constraints(topology, rules, seed, allowed);
    proof {
        assert forall|direction: T::Direction, p: int, q: int|
            0 <= p < pattern_variants@.len() && 0 <= q < pattern_variants@.len() implies (#[trigger] wave.spec_rules().spec_allows(
                direction,
                p,
                q,
            ) <==> ({
                let outgoing = variant_sockets@[pattern_variants@[p] as int]@[direction.spec_index() as int]@;
                let incoming = variant_sockets@[pattern_variants@[q] as int]@[direction.spec_opposite().spec_index() as int]@;
                outgoing.len() == incoming.len() && forall|i: int| 0 <= i < outgoing.len() ==> outgoing[i] == incoming[i]
            })) by {
            lemma_facing_sockets_agree_sample_by_sample(
                variant_sockets@,
                pattern_variants@[p] as int,
                pattern_variants@[q] as int,
                direction,
            );
        }
    }
    Some(wave)
}

/// Whether no signature before position `t` equals the one at `t`.
pub open spec fn first_of_kind(signatures: Seq<Vec<u32>>, t: int) -> bool {
    forall|u: int| 0 <= u < t ==> (#[trigger] signatures[u])@ != signatures[t]@
}

/// Whether some kept position carries the same signature as position `s`.
spec fn represented(signatures: Seq<Vec<u32>>, kept: Seq<usize>, s: int) -> bool {
    exists|i: int| 0 <= i < kept.len() && (#[trigger] signatures[kept[i] as int])@ == signatures[s]@
}

/// The positions whose signature differs from every earlier one, in order: one
/// representative of each distinct signature, the first.
pub fn first_distinct(signatures: &Vec<Vec<u32>>) -> (r: Vec<usize>)
    ensures
        forall|i: int, j: int| 0 <= i < j < r@.len() ==> r@[i] < r@[j],
        forall|i: int| 0 <= i < r@.len() ==> #[trigger] r@[i] < signatures@.len(),
        forall|t: int|
            0 <= t < signatures@.len() ==> (r@.contains(t as usize) <==> #[trigger] first_of_kind(signatures@, t)),
{
    let mut kept: Vec<usize> = Vec::new();
    let mut t: usize = 0;
    while t < signatures.len()
        invariant
            t <= signatures@.len(),
            forall|i: int, j: int| 0 <= i < j < kept@.len() ==> kept@[i] < kept@[j],
            forall|i: int| 0 <= i < kept@.len() ==> #[trigger] kept@[i] < t,
            forall|s: int|
                0 <= s < t ==> (kept@.contains(s as usize) <==> #[trigger] first_of_kind(signatures@, s)),
            forall|s: int| 0 <= s < t ==> #[trigger] represented(signatures@, kept@, s),
        decreases signatures@.len() - t,
    {
        let mut duplicate = false;
        let mut k: usize = 0;
        while k < kept.len()
            invariant
                t < signatures@.len(),
                k <= kept@.len(),
                forall|i: int| 0 <= i < kept@.len() ==> #[trigger] kept@[i] < t,
                duplicate == exists|i: int| 0 <= i < k && (#[trigger] signatures@[kept@[i] as int])@ == signatures@[t as int]@,
            decreases kept@.len() - k,
        {
            if slices_equal(signatures[kept[k]].as_slice(), signatures[t].as_slice()) {
                duplicate = true;
            }
            k += 1;
        }
        let ghost before = kept@;
        if !duplicate {
            kept.push(t);
        }
        proof {
            assert forall|i: int, j: int| 0 <= i < j < kept@.len() implies kept@[i] < kept@[j] by {
                if j == before.len() {
                    assert(kept@[i] == before[i]);
                    assert(before[i] < t);
                }
            }
            assert forall|i: int| 0 <= i < kept@.len() implies #[trigger] kept@[i] < t + 1 by {
                if i < before.len() {
                    assert(kept@[i] == before[i]);
                }
            }
            assert forall|s: int| 0 <= s < t + 1 implies #[trigger] represented(signatures@, kept@, s) by {
                if s < t {
                    assert(represented(signatures@, before, s));
                    let i = choose|i: int| 0 <= i < before.len() && (#[trigger] signatures@[before[i] as int])@ == signatures@[s]@;
                    assert(kept@[i] == before[i]);
                } else if duplicate {
                    let i = choose|i: int| 0 <= i < before.len() && (#[trigger] signatures@[before[i] as int])@ == signatures@[t as int]@;
                    assert(kept@[i] == before[i]);
                } else {
                    assert(kept@[before.len() as int] == t);
                    assert(signatures@[kept@[before.len() as int] as int]@ == signatures@[t as int]@);
                }
            }
            assert forall|s: int|
                0 <= s < t + 1 implies (kept@.contains(s as usize) <==> #[trigger] first_of_kind(signatures@, s)) by {
                if s < t {
                    if kept@.contains(s as usize) {
                        let i = choose|i: int| 0 <= i < kept@.len() && kept@[i] == s as usize;
                        if i < before.len() {
                            assert(before.contains(s as usize));
                        }
                    }
                    if before.contains(s as usize) {
                        let i = choose|i: int| 0 <= i < before.len() && before[i] == s as usize;
                        assert(kept@[i] == s as usize);
                    }
                } else {
                    if duplicate {
                        let i = choose|i: int| 0 <= i < before.len() && (#[trigger] signatures@[before[i] as int])@ == signatures@[t as int]@;
                        assert(before[i] < t);
                        if kept@.contains(s as usize) {
                            let w = choose|w: int| 0 <= w < kept@.len() && kept@[w] == s as usize;
                            assert(kept@[w] == before[w]);
                        }
                    } else {
                        assert(kept@[before.len() as int] == t);
                        assert forall|u: int| 0 <= u < s implies (#[trigger] signatures@[u])@ != signatures@[s]@ by {
                            if signatures@[u]@ == signatures@[s]@ {
                                assert(represented(signatures@, before, u));
                                let i = choose|i: int| 0 <= i < before.len() && (#[trigger] signatures@[before[i] as int])@ == signatures@[u]@;
                                assert(signatures@[before[i] as int]@ == signatures@[t as int]@);
                            }
                        }
                    }
                }
            }
        }
        t += 1;
    }
    kept
}

} // verus!

verus! {

/// What a primary click on the canvas does.
#[derive(Clone, Copy, Debug, Default, PartialEq, Eq, Hash, Structural)]
pub enum CanvasTool {
    #[default]
    Inspect,
    Pin(usize),
    Unpin,
}

/// Whether a click with `only` clears `pin`: any pin when `only` is `None`, else the pins
/// equal to `only`.
pub open spec fn cleared_by(pin: Option<usize>, only: Option<usize>) -> bool {
    pin is Some && (only is None || pin == only)
}

/// Clears the pins that `only` selects and returns how many were cleared.
fn clear_where(pins: &mut Grid<Option<usize>>, only: Option<usize>) -> (r: usize)
    ensures
        final(pins).spec_extent() == old(pins).spec_extent(),
        final(pins)@.len() == old(pins)@.len(),
        forall|i: int| 0 <= i < old(pins)@.len() ==> #[trigger] final(pins)@[i] == if cleared_by(old(pins)@[i], only) {
            None
        } else {
            old(pins)@[i]
        },
        r == count_true(old(pins)@.map_values(|pin: Option<usize>| cleared_by(pin, only))),
{
    let cells = pins.as_slice();
    let ghost flags = cells@.map_values(|pin: Option<usize>| cleared_by(pin, only));
    let mut kept: Vec<Option<usize>> = Vec::with_capacity(cells.len());
    let mut cleared: usize = 0;
    let mut index: usize = 0;
    while index < cells.len()
        invariant
            cells@ == pins@,
            flags == cells@.map_values(|pin: Option<usize>| cleared_by(pin, only)),
            index <= cells@.len(),
            kept@.len() == index,
            forall|i: int| 0 <= i < index ==> #[trigger] kept@[i] == if cleared_by(cells@[i], only) {
                None
            } else {
                cells@[i]
            },
            cleared == count_true(flags.take(index as int)),
            cleared <= index,
        decreases cells@.len() - index,
    {
        proof {
            assert(flags.take(index as int + 1).drop_last() =~= flags.take(index as int));
        }
        let pin = cells[index];
        let clear = match pin {
            Some(value) => match only {
                Some(target) => value == target,
                None => true,
            },
            None => false,
        };
        if clear {
            kept.push(None);
            cleared += 1;
        } else {
            kept.push(pin);
        }
        index += 1;
    }
    proof {
        assert(flags.take(cells@.len() as int) =~= flags);
    }
    let replaced = pins.with_cells(kept);
    *pins = replaced;
    cleared
}

/// Removes every pin and returns how many cells were pinned.
pub fn clear_pins(pins: &mut Grid<Option<usize>>) -> (r: usize)
    ensures
        final(pins).spec_extent() == old(pins).spec_extent(),
        final(pins)@ == Seq::new(old(pins)@.len(), |i: int| None::<usize>),
        r == count_true(old(pins)@.map_values(|pin: Option<usize>| pin is Some)),
{
    let r = clear_where(pins, None);
    proof {
        assert(pins@ =~= Seq::new(old(pins)@.len(), |i: int| None::<usize>));
        assert(old(pins)@.map_values(|pin: Option<usize>| cleared_by(pin, None)) =~= old(pins)@.map_values(
            |pin: Option<usize>| pin is Some,
        ));
    }
    r
}

/// Sets the pin of the cell at `coord`; `false`, and nothing changes, when the grid has no
/// such cell or the cell already holds `variant`.
pub fn set_pin(pins: &mut Grid<Option<usize>>, coord: Coord2, variant: Option<usize>) -> (r: bool)
    ensures
        final(pins).spec_extent() == old(pins).spec_extent(),
        r == (pin_at(old(pins), Some(coord)) matches Some(pin) && pin != variant),
        r ==> final(pins)@ == old(pins)@.update(spec_linear_index(old(pins).spec_extent(), coord).unwrap() as int, variant),
        !r ==> final(pins)@ == old(pins)@,
{
    let ghost before = pins@;
    let ghost at = spec_linear_index(pins.spec_extent(), coord);
    let changed = match pins.get_mut(coord) {
        Some(pin) => {
            let changed = *pin != variant;
            proof {
                if !changed {
                    assert(before[at.unwrap() as int] == variant);
                }
            }
            *pin = variant;
            changed
        },
        None => false,
    };
    proof {
        if at is Some && !changed {
            let i = at.unwrap() as int;
            assert(before[i] == variant);
            assert(before.update(i, variant) =~= before);
        }
    }
    changed
}

/// Applies a click at `coord`: a secondary click unpins, a primary click does what `tool`
/// says. Returns whether a pin changed.
pub fn apply_tool(pins: &mut Grid<Option<usize>>, tool: CanvasTool, coord: Coord2, secondary: bool) -> (r: bool)
    ensures
        final(pins).spec_extent() == old(pins).spec_extent(),
        ({
            let action = if secondary { CanvasTool::Unpin } else { tool };
            let target = match action {
                CanvasTool::Pin(index) => Some(index),
                _ => None,
            };
            if action == CanvasTool::Inspect {
                !r && final(pins)@ == old(pins)@
            } else {
                &&& r == (pin_at(old(pins), Some(coord)) matches Some(pin) && pin != target)
                &&& r ==> final(pins)@ == old(pins)@.update(
                    spec_linear_index(old(pins).spec_extent(), coord).unwrap() as int,
                    target,
                )
                &&& !r ==> final(pins)@ == old(pins)@
            }
        }),
{
    let action = if secondary {
        CanvasTool::Unpin
    } else {
        tool
    };
    match action {
        CanvasTool::Inspect => false,
        CanvasTool::Pin(index) => set_pin(pins, coord, Some(index)),
        CanvasTool::Unpin => set_pin(pins, coord, None),
    }
}

/// Whether `tool` may be selected: a pin tool needs an enabled variant.
pub fn tool_allowed(tool: CanvasTool, enabled: &Vec<bool>) -> (r: bool)
    ensures
        r == match tool {
            CanvasTool::Pin(index) => index < enabled@.len() && enabled@[index as int],
            _ => true,
        },
{
    match tool {
        CanvasTool::Pin(index) => index < enabled.len() && enabled[index],
        _ => true,
    }
}

/// Enables or disables the variant at `index`. Disabling one clears its pins and drops its
/// pin tool. `None`, and nothing changes, when there is no such variant or it already has
/// that state; else the number of pins cleared.
pub fn set_variant_enabled(
    enabled: &mut Vec<bool>,
    pins: &mut Grid<Option<usize>>,
    tool: &mut CanvasTool,
    index: usize,
    value: bool,
) -> (r: Option<usize>)
    ensures
        final(pins).spec_extent() == old(pins).spec_extent(),
        r is None <==> index >= old(enabled)@.len() || old(enabled)@[index as int] == value,
        r is None ==> final(enabled)@ == old(enabled)@ && final(pins)@ == old(pins)@ && *final(tool) == *old(tool),
        r is Some ==> final(enabled)@ == old(enabled)@.update(index as int, value),
        r is Some && value ==> final(pins)@ == old(pins)@ && *final(tool) == *old(tool) && r == Some(0usize),
        r is Some && !value ==> {
            &&& final(pins)@.len() == old(pins)@.len()
            &&& forall|i: int| 0 <= i < old(pins)@.len() ==> #[trigger] final(pins)@[i] == if old(pins)@[i] == Some(index) {
                None
            } else {
                old(pins)@[i]
            }
            &&& r == Some(count_true(old(pins)@.map_values(|pin: Option<usize>| pin == Some(index))) as usize)
            &&& *final(tool) == if *old(tool) == CanvasTool::Pin(index) {
                CanvasTool::Inspect
            } else {
                *old(tool)
            }
        },
{
    if index >= enabled.len() || enabled[index] == value {
        return None;
    }
    enabled.set(index, value);
    if value {
        return Some(0);
    }
    let ghost before = pins@;
    let cleared = clear_where(pins, Some(index));
    proof {
        assert(before.map_values(|pin: Option<usize>| cleared_by(pin, Some(index))) =~= before.map_values(
            |pin: Option<usize>| pin == Some(index),
        ));
    }
    if *tool == CanvasTool::Pin(index) {
        *tool = CanvasTool::Inspect;
    }
    Some(cleared)
}

/// The orientation of a catalog variant in either grid mode.
#[derive(Clone, Copy, Debug, PartialEq, Eq, Hash, Structural)]
pub enum Orientation {
    Square(D4),
    Hex(D6),
}

/// A catalog variant: a base tile in one orientation.
#[derive(Clone, Copy, Debug, PartialEq, Eq, Hash, Structural)]
pub struct VariantView {
    pub tile: TileId,
    pub orientation: Orientation,
}

/// The variant that `variant` becomes when tile ids move as `tile_map` says (`None` when its
/// tile is gone).
pub open spec fn mapped_variant(variant: VariantView, tile_map: Seq<Option<TileId>>) -> Option<VariantView> {
    if variant.tile.0 < tile_map.len() {
        match tile_map[variant.tile.0 as int] {
            Some(tile) => Some(VariantView { tile, orientation: variant.orientation }),
            None => None,
        }
    } else {
        None
    }
}

/// The first position of `variant` in `variants`.
pub open spec fn first_position(variants: Seq<VariantView>, variant: VariantView) -> Option<usize>
    decreases variants.len(),
{
    if variants.len() == 0 {
        None
    } else {
        match first_position(variants.drop_last(), variant) {
            Some(position) => Some(position),
            None => if variants.last() == variant {
                Some((variants.len() - 1) as usize)
            } else {
                None
            },
        }
    }
}

/// Where an old variant went in the new catalog.
pub open spec fn remapped_index(
    variant: VariantView,
    new_variants: Seq<VariantView>,
    tile_map: Seq<Option<TileId>>,
) -> Option<usize> {
    match mapped_variant(variant, tile_map) {
        Some(target) => first_position(new_variants, target),
        None => None,
    }
}

proof fn lemma_first_position_bounds(variants: Seq<VariantView>, variant: VariantView)
    requires
        variants.len() <= usize::MAX,
    ensures
        first_position(variants, variant) matches Some(p) ==> p < variants.len() && variants[p as int] == variant
            && forall|k: int| 0 <= k < p ==> variants[k] != variant,
        first_position(variants, variant) is None ==> forall|k: int| 0 <= k < variants.len() ==> variants[k] != variant,
    decreases variants.len(),
{
    if variants.len() > 0 {
        let prefix = variants.drop_last();
        lemma_first_position_bounds(prefix, variant);
        assert forall|k: int| 0 <= k < prefix.len() implies prefix[k] == variants[k] by {}
        match first_position(prefix, variant) {
            Some(p) => {
                assert(prefix[p as int] == variants[p as int]);
                assert forall|k: int| 0 <= k < p implies variants[k] != variant by {
                    assert(prefix[k] == variants[k]);
                }
            },
            None => {
                assert forall|k: int| 0 <= k < variants.len() - 1 implies variants[k] != variant by {
                    assert(prefix[k] == variants[k]);
                }
            },
        }
    }
}

/// The first position in `variants` that holds `target`.
fn find_variant(variants: &Vec<VariantView>, target: VariantView) -> (r: Option<usize>)
    ensures
        r == first_position(variants@, target),
{
    let mut index: usize = 0;
    while index < variants.len()
        invariant
            index <= variants@.len(),
            first_position(variants@.take(index as int), target) is None,
        decreases variants@.len() - index,
    {
        proof {
            assert(variants@.take(index as int + 1).drop_last() =~= variants@.take(index as int));
        }
        if variants[index] == target {
            proof {
                lemma_first_prefix(variants@, target, index as int + 1);
            }
            return Some(index);
        }
        index += 1;
    }
    proof {
        assert(variants@.take(index as int) =~= variants@);
    }
    None
}

/// A position found in a prefix is the position in the whole sequence.
proof fn lemma_first_prefix(variants: Seq<VariantView>, target: VariantView, n: int)
    requires
        0 <= n <= variants.len(),
        first_position(variants.take(n), target) is Some,
    ensures
        first_position(variants, target) == first_position(variants.take(n), target),
    decreases variants.len() - n,
{
    if n < variants.len() {
        assert(variants.take(n + 1).drop_last() =~= variants.take(n));
        lemma_first_prefix(variants, target, n + 1);
    } else {
        assert(variants.take(n) =~= variants);
    }
}

/// For each old variant, its position in the new catalog: its tile moved as `tile_map` says
/// (indexed by old tile id), its orientation kept; `None` when its tile is gone or the new
/// catalog has no such variant.
pub fn variant_remap(
    old_variants: &Vec<VariantView>,
    new_variants: &Vec<VariantView>,
    tile_map: &Vec<Option<TileId>>,
) -> (r: Vec<Option<usize>>)
    ensures
        r@.len() == old_variants@.len(),
        forall|i: int| 0 <= i < old_variants@.len() ==> #[trigger] r@[i] == remapped_index(
            old_variants@[i],
            new_variants@,
            tile_map@,
        ),
{
    let mut remap: Vec<Option<usize>> = Vec::with_capacity(old_variants.len());
    let mut index: usize = 0;
    while index < old_variants.len()
        invariant
            index <= old_variants@.len(),
            remap@.len() == index,
            forall|i: int| 0 <= i < index ==> #[trigger] remap@[i] == remapped_index(
                old_variants@[i],
                new_variants@,
                tile_map@,
            ),
        decreases old_variants@.len() - index,
    {
        let variant = old_variants[index];
        let tile = variant.tile.0;
        let target = if tile < tile_map.len() {
            match tile_map[tile] {
                Some(mapped) => Some(VariantView { tile: mapped, orientation: variant.orientation }),
                None => None,
            }
        } else {
            None
        };
        let found = match target {
            Some(target) => find_variant(new_variants, target),
            None => None,
        };
        remap.push(found);
        index += 1;
    }
    remap
}

/// Reconciling a catalog keeps a variant's identity: an old variant's new position holds the
/// same orientation of the tile its tile moved to, and is the first position that does; it
/// has no new position exactly when its tile was removed or the new catalog lacks that
/// orientation of the moved tile.
pub proof fn lemma_remap_keeps_tile_and_orientation(
    variant: VariantView,
    new_variants: Seq<VariantView>,
    tile_map: Seq<Option<TileId>>,
)
    requires
        new_variants.len() <= usize::MAX,
    ensures
        remapped_index(variant, new_variants, tile_map) is Some ==> {
            let p = remapped_index(variant, new_variants, tile_map).unwrap() as int;
            &&& 0 <= p < new_variants.len()
            &&& variant.tile.0 < tile_map.len()
            &&& tile_map[variant.tile.0 as int] is Some
            &&& new_variants[p] == VariantView { tile: tile_map[variant.tile.0 as int].unwrap(), orientation: variant.orientation }
            &&& forall|k: int| 0 <= k < p ==> new_variants[k] != new_variants[p]
        },
        remapped_index(variant, new_variants, tile_map) is None <==> !{
            &&& variant.tile.0 < tile_map.len()
            &&& tile_map[variant.tile.0 as int] is Some
            &&& exists|k: int|
                0 <= k < new_variants.len() && new_variants[k] == VariantView {
                    tile: tile_map[variant.tile.0 as int].unwrap(),
                    orientation: variant.orientation,
                }
        },
{
    if variant.tile.0 < tile_map.len() && tile_map[variant.tile.0 as int] is Some {
        let target = VariantView { tile: tile_map[variant.tile.0 as int].unwrap(), orientation: variant.orientation };
        assert(mapped_variant(variant, tile_map) == Some(target));
        lemma_first_position_bounds(new_variants, target);
        if first_position(new_variants, target) is None {
            assert(!exists|k: int| 0 <= k < new_variants.len() && new_variants[k] == target);
        }
    }
}

/// The enabled flags of a new catalog of `count` variants: every variant starts enabled, and
/// each old variant, in order, hands its flag to the position it moved to.
pub open spec fn reconciled_flags(count: nat, remap: Seq<Option<usize>>, old_enabled: Seq<bool>) -> Seq<bool>
    decreases remap.len(),
{
    if remap.len() == 0 {
        Seq::new(count, |j: int| true)
    } else {
        let flags = reconciled_flags(count, remap.drop_last(), old_enabled);
        match remap.last() {
            Some(position) => flags.update(position as int, old_enabled[remap.len() - 1]),
            None => flags,
        }
    }
}

proof fn lemma_reconciled_len(count: nat, remap: Seq<Option<usize>>, old_enabled: Seq<bool>)
    requires
        forall|i: int| 0 <= i < remap.len() ==> (#[trigger] remap[i] matches Some(position) ==> position < count),
    ensures
        reconciled_flags(count, remap, old_enabled).len() == count,
    decreases remap.len(),
{
    if remap.len() > 0 {
        let prefix = remap.drop_last();
        assert forall|i: int| 0 <= i < prefix.len() implies (#[trigger] prefix[i] matches Some(position) ==> position < count) by {
            assert(prefix[i] == remap[i]);
        }
        lemma_reconciled_len(count, prefix, old_enabled);
        assert(remap[remap.len() - 1] == remap.last());
    }
}

/// Whether old variant `i` is the last one that `remap` moves to new position `j`.
pub open spec fn last_arrival(remap: Seq<Option<usize>>, j: int, i: int) -> bool {
    &&& 0 <= i < remap.len()
    &&& remap[i] == Some(j as usize)
    &&& forall|later: int| i < later < remap.len() ==> remap[later] != Some(j as usize)
}

/// Whether no old variant moves to new position `j`.
pub open spec fn no_arrival(remap: Seq<Option<usize>>, j: int) -> bool {
    forall|i: int| 0 <= i < remap.len() ==> remap[i] != Some(j as usize)
}

/// Reconciled flags carry flags over: a new variant that no old variant moved to starts
/// enabled, and one that old variants moved to takes the flag of the last of them.
#[verifier::rlimit(40)]
pub proof fn lemma_reconciled_flags_carry_the_incoming_flag(count: nat, remap: Seq<Option<usize>>, old_enabled: Seq<bool>, j: int)
    requires
        remap.len() <= old_enabled.len(),
        count <= usize::MAX,
        forall|i: int| 0 <= i < remap.len() ==> (#[trigger] remap[i] matches Some(position) ==> position < count),
        0 <= j < count,
    ensures
        no_arrival(remap, j) ==> reconciled_flags(count, remap, old_enabled)[j],
        forall|i: int| #[trigger] last_arrival(remap, j, i) ==> reconciled_flags(count, remap, old_enabled)[j] == old_enabled[i],
    decreases remap.len(),
{
    if remap.len() == 0 {
        assert(reconciled_flags(count, remap, old_enabled) == Seq::new(count, |k: int| true));
    } else {
        let prefix = remap.drop_last();
        let n = remap.len() - 1;
        assert forall|i: int| 0 <= i < prefix.len() implies (#[trigger] prefix[i] matches Some(position) ==> position < count) by {
            assert(prefix[i] == remap[i]);
        }
        lemma_reconciled_len(count, prefix, old_enabled);
        lemma_reconciled_flags_carry_the_incoming_flag(count, prefix, old_enabled, j);
        let flags = reconciled_flags(count, prefix, old_enabled);
        assert(remap.last() == remap[n]);
        assert(reconciled_flags(count, remap, old_enabled) == match remap[n] {
            Some(position) => flags.update(position as int, old_enabled[n]),
            None => flags,
        });
        if remap[n] == Some(j as usize) {
            assert(reconciled_flags(count, remap, old_enabled)[j] == old_enabled[n]);
            assert forall|i: int| #[trigger] last_arrival(remap, j, i) implies i == n by {
                if i < n {
                    assert(remap[n] != Some(j as usize));
                }
            }
        } else {
            assert(reconciled_flags(count, remap, old_enabled)[j] == flags[j]);
            assert forall|i: int| #[trigger] last_arrival(remap, j, i) implies flags[j] == old_enabled[i] by {
                assert(i < n);
                assert(prefix[i] == remap[i]);
                assert forall|later: int| i < later < prefix.len() implies prefix[later] != Some(j as usize) by {
                    assert(prefix[later] == remap[later]);
                }
                assert(last_arrival(prefix, j, i));
            }
            if no_arrival(remap, j) {
                assert forall|i: int| 0 <= i < prefix.len() implies prefix[i] != Some(j as usize) by {
                    assert(prefix[i] == remap[i]);
                }
                assert(no_arrival(prefix, j));
            }
        }
    }
}

/// The enabled flags of a new catalog of `count` variants, carried over through `remap`.
pub fn reconcile_enabled(count: usize, remap: &Vec<Option<usize>>, old_enabled: &Vec<bool>) -> (r: Vec<bool>)
    requires
        old_enabled@.len() == remap@.len(),
        forall|i: int| 0 <= i < remap@.len() ==> (#[trigger] remap@[i] matches Some(position) ==> position < count),
    ensures
        r@ == reconciled_flags(count as nat, remap@, old_enabled@),
        r@.len() == count,
{
    let mut flags: Vec<bool> = Vec::new();
    let mut filled: usize = 0;
    while filled < count
        invariant
            filled <= count,
            flags@ == Seq::new(filled as nat, |j: int| true),
        decreases count - filled,
    {
        flags.push(true);
        filled += 1;
        proof {
            assert(flags@ =~= Seq::new(filled as nat, |j: int| true));
        }
    }
    let mut index: usize = 0;
    while index < remap.len()
        invariant
            index <= remap@.len(),
            old_enabled@.len() == remap@.len(),
            forall|i: int| 0 <= i < remap@.len() ==> (#[trigger] remap@[i] matches Some(position) ==> position < count),
            flags@ == reconciled_flags(count as nat, remap@.take(index as int), old_enabled@),
            flags@.len() == count,
        decreases remap@.len() - index,
    {
        proof {
            assert(remap@.take(index as int + 1).drop_last() =~= remap@.take(index as int));
        }
        if let Some(position) = remap[index] {
            flags.set(position, old_enabled[index]);
        }
        index += 1;
    }
    proof {
        assert(remap@.take(index as int) =~= remap@);
        lemma_reconciled_len(count as nat, remap@, old_enabled@);
    }
    flags
}

/// The pin a cell holds once variants moved as `remap` says.
pub open spec fn remapped_pin(pin: Option<usize>, remap: Seq<Option<usize>>) -> Option<usize> {
    match pin {
        Some(old) => if old < remap.len() {
            remap[old as int]
        } else {
            None
        },
        None => None,
    }
}

/// Moves every pin as `remap` says; a pin whose variant is gone is dropped.
pub fn remap_pins(pins: &mut Grid<Option<usize>>, remap: &Vec<Option<usize>>)
    ensures
        final(pins).spec_extent() == old(pins).spec_extent(),
        final(pins)@.len() == old(pins)@.len(),
        forall|i: int| 0 <= i < old(pins)@.len() ==> #[trigger] final(pins)@[i] == remapped_pin(old(pins)@[i], remap@),
{
    let cells = pins.as_slice();
    let mut moved: Vec<Option<usize>> = Vec::with_capacity(cells.len());
    let mut index: usize = 0;
    while index < cells.len()
        invariant
            cells@ == pins@,
            index <= cells@.len(),
            moved@.len() == index,
            forall|i: int| 0 <= i < index ==> #[trigger] moved@[i] == remapped_pin(cells@[i], remap@),
        decreases cells@.len() - index,
    {
        let pin = match cells[index] {
            Some(old) => if old < remap.len() {
                remap[old]
            } else {
                None
            },
            None => None,
        };
        moved.push(pin);
        index += 1;
    }
    let replaced = pins.with_cells(moved);
    *pins = replaced;
}

/// The canvas tool once variants moved as `remap` says: a pin tool follows its variant while
/// the variant exists and is enabled, and falls back to inspecting otherwise.
pub open spec fn remapped_tool(tool: CanvasTool, remap: Seq<Option<usize>>, enabled: Seq<bool>) -> CanvasTool {
    match tool {
        CanvasTool::Pin(old) => match remapped_pin(Some(old), remap) {
            Some(position) => if enabled[position as int] {
                CanvasTool::Pin(position)
            } else {
                CanvasTool::Inspect
            },
            None => CanvasTool::Inspect,
        },
        _ => tool,
    }
}

/// Moves the canvas tool as `remap` says.
pub fn remap_tool(tool: CanvasTool, remap: &Vec<Option<usize>>, enabled: &Vec<bool>) -> (r: CanvasTool)
    requires
        forall|i: int| 0 <= i < remap@.len() ==> (#[trigger] remap@[i] matches Some(position) ==> position < enabled@.len()),
    ensures
        r == remapped_tool(tool, remap@, enabled@),
{
    match tool {
        CanvasTool::Pin(old) => {
            let moved = if old < remap.len() {
                remap[old]
            } else {
                None
            };
            match moved {
                Some(position) => if enabled[position] {
                    CanvasTool::Pin(position)
                } else {
                    CanvasTool::Inspect
                },
                None => CanvasTool::Inspect,
            }
        },
        _ => tool,
    }
}

/// Reconciles the editor state with a re-derived catalog, by `(tile, orientation)` identity:
/// the new catalog's enabled flags (returned), the pins and the pin tool. `tile_map` says
/// where each old tile id went (`None` for a removed tile).
pub fn reconcile_catalog(
    old_variants: &Vec<VariantView>,
    old_enabled: &Vec<bool>,
    new_variants: &Vec<VariantView>,
    tile_map: &Vec<Option<TileId>>,
    pins: &mut Grid<Option<usize>>,
    tool: &mut CanvasTool,
) -> (r: Vec<bool>)
    requires
        old_enabled@.len() == old_variants@.len(),
    ensures
        ({
            let remap = Seq::new(
                old_variants@.len(),
                |i: int| remapped_index(old_variants@[i], new_variants@, tile_map@),
            );
            &&& r@ == reconciled_flags(new_variants@.len(), remap, old_enabled@)
            &&& r@.len() == new_variants@.len()
            &&& final(pins).spec_extent() == old(pins).spec_extent()
            &&& final(pins)@.len() == old(pins)@.len()
            &&& forall|i: int| 0 <= i < old(pins)@.len() ==> #[trigger] final(pins)@[i] == remapped_pin(old(pins)@[i], remap)
            &&& *final(tool) == remapped_tool(*old(tool), remap, r@)
        }),
{
    let remap = variant_remap(old_variants, new_variants, tile_map);
    let new_count = new_variants.len();
    proof {
        assert(new_variants@.len() == new_count);
        assert forall|i: int| 0 <= i < remap@.len() implies (#[trigger] remap@[i] matches Some(position)
            ==> position < new_variants@.len()) by {
            match mapped_variant(old_variants@[i], tile_map@) {
                Some(target) => lemma_first_position_bounds(new_variants@, target),
                None => {},
            }
        }
        assert(remap@ =~= Seq::new(
            old_variants@.len(),
            |i: int| remapped_index(old_variants@[i], new_variants@, tile_map@),
        ));
    }
    let enabled = reconcile_enabled(new_count, &remap, old_enabled);
    remap_pins(pins, &remap);
    *tool = remap_tool(*tool, &remap, &enabled);
    enabled
}

/// Where tile `tile` goes when the tile at `removed` leaves the set: later tiles move down by
/// one, the removed tile is gone.
pub open spec fn spec_tile_after_removal(tile: usize, removed: usize) -> Option<TileId> {
    if tile < removed {
        Some(TileId(tile))
    } else if tile == removed {
        None
    } else {
        Some(TileId((tile - 1) as usize))
    }
}

/// Whether one of `count` tiles gets id `id` when the tile at `removed` leaves the set.
pub open spec fn id_taken_after_removal(count: usize, removed: usize, id: usize) -> bool {
    exists|t: usize| t < count && #[trigger] spec_tile_after_removal(t, removed) == Some(TileId(id))
}

/// Removing the tile at `removed` from `count` tiles renumbers the survivors onto the ids of
/// the smaller set, in order: the removed tile alone is dropped, every survivor gets an id
/// below `count - 1`, survivors keep their relative order, and every id below `count - 1`
/// goes to one survivor. So the survivors before `removed` keep their ids and those after
/// it move down by one.
pub proof fn lemma_removal_renumbers_survivors_in_order(count: usize, removed: usize)
    requires
        removed < count,
    ensures
        forall|t: usize| t < count ==> (#[trigger] spec_tile_after_removal(t, removed) is None <==> t == removed),
        forall|t: usize| t < count && t != removed ==> (#[trigger] spec_tile_after_removal(t, removed)).unwrap().0 < count - 1,
        forall|s: usize, t: usize|
            s < t < count && s != removed && t != removed ==> (#[trigger] spec_tile_after_removal(s, removed)).unwrap().0
                < (#[trigger] spec_tile_after_removal(t, removed)).unwrap().0,
        forall|id: usize| id < count - 1 ==> #[trigger] id_taken_after_removal(count, removed, id),
{
    assert forall|id: usize| id < count - 1 implies #[trigger] id_taken_after_removal(count, removed, id) by {
        if id < removed {
            assert(spec_tile_after_removal(id, removed) == Some(TileId(id)));
        } else {
            assert(spec_tile_after_removal((id + 1) as usize, removed) == Some(TileId(id)));
        }
    }
}

/// For each of `count` tile ids, where it goes when the tile at `removed` leaves the set.
pub fn tile_map_after_removal(count: usize, removed: usize) -> (r: Vec<Option<TileId>>)
    ensures
        r@.len() == count,
        forall|i: int| 0 <= i < count ==> #[trigger] r@[i] == spec_tile_after_removal(i as usize, removed),
        forall|x: int, y: int| 0 <= x < y < count && (#[trigger] r@[x]) is Some ==> r@[x] != #[trigger] r@[y],
{
    let mut map: Vec<Option<TileId>> = Vec::with_capacity(count);
    let mut tile: usize = 0;
    while tile < count
        invariant
            tile <= count,
            map@.len() == tile,
            forall|i: int| 0 <= i < tile ==> #[trigger] map@[i] == spec_tile_after_removal(i as usize, removed),
        decreases count - tile,
    {
        let moved = if tile < removed {
            Some(TileId(tile))
        } else if tile == removed {
            None
        } else {
            Some(TileId(tile - 1))
        };
        map.push(moved);
        tile += 1;
    }
    map
}

/// The selected tile after the tile at `removed` left the set, `remaining` tiles staying: a
/// selection elsewhere follows its tile; a removed selection moves to the tile now at the
/// removed position, or to the last tile, or to none when no tile is left.
pub fn selected_after_removal(selected: Option<TileId>, removed: usize, remaining: usize) -> (r: Option<TileId>)
    ensures
        r == match selected {
            Some(tile) => if tile.0 != removed {
                spec_tile_after_removal(tile.0, removed)
            } else if remaining == 0 {
                None
            } else if removed < remaining {
                Some(TileId(removed))
            } else {
                Some(TileId((remaining - 1) as usize))
            },
            None => None,
        },
        selected matches Some(tile) && tile.0 <= remaining && removed <= remaining ==> (r is Some <==> remaining > 0),
        selected matches Some(tile) && tile.0 <= remaining && removed <= remaining && r is Some ==> r.unwrap().0 < remaining,
        selected is Some && selected.unwrap().0 != removed ==> r is Some && (selected.unwrap().0 < removed <==> r.unwrap().0
            == selected.unwrap().0),
{
    match selected {
        Some(tile) => {
            if tile.0 < removed {
                Some(tile)
            } else if tile.0 > removed {
                Some(TileId(tile.0 - 1))
            } else if remaining == 0 {
                None
            } else if removed < remaining {
                Some(TileId(removed))
            } else {
                Some(TileId(remaining - 1))
            }
        },
        None => None,
    }
}

/// The longest side an editor grid may have.
pub const MAX_DIMENSION: usize = 64;

/// Whether an editor grid may have `extent`: each side between 1 and [`MAX_DIMENSION`].
pub open spec fn spec_valid_extent(extent: Extent2) -> bool {
    1 <= extent.width <= MAX_DIMENSION && 1 <= extent.height <= MAX_DIMENSION
}

/// Whether an editor grid may have `extent`.
pub fn valid_extent(extent: Extent2) -> (r: bool)
    ensures
        r == spec_valid_extent(extent),
{
    1 <= extent.width && extent.width <= MAX_DIMENSION && 1 <= extent.height && extent.height <= MAX_DIMENSION
}

/// The pin grid after a resize to `extent`: a cell that the old grid has keeps its pin, a new
/// cell has none.
pub fn resized_pins(pins: &Grid<Option<usize>>, extent: Extent2) -> (r: Grid<Option<usize>>)
    requires
        spec_valid_extent(extent),
    ensures
        r.spec_extent() == extent,
        r@.len() == spec_area(extent),
        forall|i: int| 0 <= i < r@.len() ==> #[trigger] r@[i] == match pin_at(pins, spec_coordinate(extent, i as usize)) {
            Some(pin) => pin,
            None => None,
        },
        forall|coord: Coord2| spec_extent_contains(extent, coord) ==> #[trigger] pin_at(&r, Some(coord)) == Some(
            match pin_at(pins, Some(coord)) {
                Some(pin) => pin,
                None => None,
            },
        ),
{
    assert(extent.width * extent.height <= 64 * 64) by (nonlinear_arith)
        requires
            extent.width <= 64,
            extent.height <= 64,
    ;
    let area = extent.width * extent.height;
    let mut cells: Vec<Option<usize>> = Vec::with_capacity(area);
    let mut index: usize = 0;
    while index < area
        invariant
            spec_valid_extent(extent),
            area == spec_area(extent),
            area <= 64 * 64,
            index <= area,
            cells@.len() == index,
            forall|i: int| 0 <= i < index ==> #[trigger] cells@[i] == match pin_at(pins, spec_coordinate(extent, i as usize)) {
                Some(pin) => pin,
                None => None,
            },
        decreases area - index,
    {
        proof {
            crate::spatial::lemma_coordinate_exists(extent, index);
        }
        let coord = extent.coordinate(index).unwrap();
        let pin = match pins.get(coord) {
            Some(pin) => *pin,
            None => None,
        };
        cells.push(pin);
        index += 1;
    }
    match Grid::from_vec(extent, cells) {
        Ok(grid) => {
            proof {
                assert forall|coord: Coord2| spec_extent_contains(extent, coord) implies #[trigger] pin_at(&grid, Some(coord))
                    == Some(
                    match pin_at(pins, Some(coord)) {
                        Some(pin) => pin,
                        None => None,
                    },
                ) by {
                    crate::spatial::lemma_coordinate_of_linear_index(extent, coord);
                    let i = (coord.y * extent.width + coord.x) as usize;
                    assert(cells@[i as int] == grid@[i as int]);
                }
            }
            grid
        },
        Err(_) => {
            proof {
                assert(false);
            }
            pins.with_cells(Vec::new())
        },
    }
}

/// The number of cells of the wave that still have more than one candidate.
pub fn unresolved_count<T: Topology>(wave: &Wfc<T>) -> (r: usize)
    requires
        wave.wf(),
    ensures
        r == count_true(Seq::new(
            wave.spec_topology().spec_cell_count(),
            |c: int| count_true(wave.spec_domains()[c]) > 1,
        )),
{
    let ghost flags = Seq::new(
        wave.spec_topology().spec_cell_count(),
        |c: int| count_true(wave.spec_domains()[c]) > 1,
    );
    let cells = wave.topology().cell_count();
    let mut unresolved: usize = 0;
    let mut c: usize = 0;
    while c < cells
        invariant
            wave.wf(),
            cells == wave.spec_topology().spec_cell_count(),
            flags.len() == cells,
            forall|k: int| 0 <= k < cells ==> #[trigger] flags[k] == (count_true(wave.spec_domains()[k]) > 1),
            c <= cells,
            unresolved == count_true(flags.take(c as int)),
            unresolved <= c,
        decreases cells - c,
    {
        proof {
            assert(flags.take(c as int + 1).drop_last() =~= flags.take(c as int));
        }
        match wave.candidate_count(CellId(c)) {
            Some(count) => {
                if count > 1 {
                    unresolved += 1;
                }
            },
            None => {},
        }
        c += 1;
    }
    proof {
        assert(flags.take(cells as int) =~= flags);
    }
    unresolved
}

/// The variants still possible in `cell`, in pattern order; empty for a cell outside the
/// topology.
pub fn candidate_variants<T: Topology>(wave: &Wfc<T>, cell: CellId, pattern_variants: &Vec<usize>) -> (r: Vec<usize>)
    requires
        wave.wf(),
        pattern_variants@.len() == wave.spec_rules().spec_pattern_count(),
    ensures
        cell.0 >= wave.spec_topology().spec_cell_count() ==> r@.len() == 0,
        cell.0 < wave.spec_topology().spec_cell_count() ==> exists|listed: Seq<usize>|
            spec_lists_flags(listed, #[trigger] wave.spec_domains()[cell.0 as int]) && r@ == listed.map_values(
                |p: usize| pattern_variants@[p as int],
            ),
{
    match wave.candidates(cell) {
        Some(list) => {
            let ghost listed = list@.map_values(|p: PatternId| p.0);
            proof {
                assert(wave.spec_domains()[cell.0 as int].len() == pattern_variants@.len());
            }
            let mut variants: Vec<usize> = Vec::with_capacity(list.len());
            let mut i: usize = 0;
            while i < list.len()
                invariant
                    listed == list@.map_values(|p: PatternId| p.0),
                    spec_lists_flags(listed, wave.spec_domains()[cell.0 as int]),
                    wave.spec_domains()[cell.0 as int].len() == pattern_variants@.len(),
                    i <= list@.len(),
                    variants@.len() == i,
                    forall|k: int| 0 <= k < i ==> #[trigger] variants@[k] == pattern_variants@[listed[k] as int],
                decreases list@.len() - i,
            {
                let pattern = list[i].index();
                assert(listed[i as int] == pattern);
                assert(wave.spec_domains()[cell.0 as int][listed[i as int] as int]);
                variants.push(pattern_variants[pattern]);
                i += 1;
            }
            proof {
                assert(variants@ =~= listed.map_values(|p: usize| pattern_variants@[p as int]));
            }
            variants
        },
        None => Vec::new(),
    }
}

/// Reconciliation keeps each variant's toggle by identity: when no two old variants move to
/// the same position, the variant at each new position has the flag of the old variant that
/// moved there, and a variant that nothing moved to starts enabled.
pub proof fn lemma_reconcile_keeps_toggles(count: nat, remap: Seq<Option<usize>>, old_enabled: Seq<bool>)
    requires
        remap.len() <= old_enabled.len(),
        forall|i: int| 0 <= i < remap.len() ==> (#[trigger] remap[i] matches Some(position) ==> position < count),
        forall|a: int, b: int| 0 <= a < b < remap.len() && (#[trigger] remap[a]) is Some ==> remap[a] != #[trigger] remap[b],
    ensures
        forall|i: int| 0 <= i < remap.len() && (#[trigger] remap[i]) is Some ==> reconciled_flags(count, remap, old_enabled)[remap[i].unwrap() as int]
            == old_enabled[i],
        forall|j: usize| j < count && (forall|i: int| 0 <= i < remap.len() ==> #[trigger] remap[i] != Some(j)) ==> #[trigger] reconciled_flags(
            count,
            remap,
            old_enabled,
        )[j as int],
    decreases remap.len(),
{
    lemma_reconciled_len(count, remap, old_enabled);
    if remap.len() > 0 {
        let prefix = remap.drop_last();
        let last = remap.len() - 1;
        assert forall|i: int| 0 <= i < prefix.len() implies (#[trigger] prefix[i] matches Some(position) ==> position < count) by {
            assert(prefix[i] == remap[i]);
        }
        assert forall|a: int, b: int| 0 <= a < b < prefix.len() && (#[trigger] prefix[a]) is Some implies prefix[a] != #[trigger] prefix[b] by {
            assert(prefix[a] == remap[a]);
            assert(prefix[b] == remap[b]);
        }
        lemma_reconcile_keeps_toggles(count, prefix, old_enabled);
        lemma_reconciled_len(count, prefix, old_enabled);
        let flags = reconciled_flags(count, prefix, old_enabled);
        assert(remap.last() == remap[last]);
        assert forall|i: int| 0 <= i < remap.len() && (#[trigger] remap[i]) is Some implies reconciled_flags(
            count,
            remap,
            old_enabled,
        )[remap[i].unwrap() as int] == old_enabled[i] by {
            if i < last {
                assert(prefix[i] == remap[i]);
                if remap[last] is Some {
                    assert(remap[i] != remap[last]);
                }
            }
        }
        assert forall|j: usize| j < count && (forall|i: int| 0 <= i < remap.len() ==> #[trigger] remap[i] != Some(j)) implies #[trigger] reconciled_flags(
            count,
            remap,
            old_enabled,
        )[j as int] by {
            assert forall|i: int| 0 <= i < prefix.len() implies #[trigger] prefix[i] != Some(j) by {
                assert(prefix[i] == remap[i]);
            }
            assert(remap[last] != Some(j));
        }
    }
}

/// Distinct variants whose tiles move to distinct ids land on distinct positions of the new
/// catalog, so [`lemma_reconcile_keeps_toggles`] applies to what [`variant_remap`] returns.
pub proof fn lemma_remap_is_injective(
    old_variants: Seq<VariantView>,
    new_variants: Seq<VariantView>,
    tile_map: Seq<Option<TileId>>,
    a: int,
    b: int,
)
    requires
        new_variants.len() <= usize::MAX,
        0 <= a < b < old_variants.len(),
        old_variants[a] != old_variants[b],
        forall|x: int, y: int| 0 <= x < y < tile_map.len() && (#[trigger] tile_map[x]) is Some ==> tile_map[x] != #[trigger] tile_map[y],
        remapped_index(old_variants[a], new_variants, tile_map) is Some,
    ensures
        remapped_index(old_variants[a], new_variants, tile_map) != remapped_index(old_variants[b], new_variants, tile_map),
{
    let va = old_variants[a];
    let vb = old_variants[b];
    if remapped_index(va, new_variants, tile_map) == remapped_index(vb, new_variants, tile_map) {
        let ta = mapped_variant(va, tile_map).unwrap();
        let tb = mapped_variant(vb, tile_map).unwrap();
        lemma_first_position_bounds(new_variants, ta);
        lemma_first_position_bounds(new_variants, tb);
        assert(ta == tb);
        if va.tile.0 < vb.tile.0 {
            assert(tile_map[va.tile.0 as int] != tile_map[vb.tile.0 as int]);
        } else if vb.tile.0 < va.tile.0 {
            assert(tile_map[vb.tile.0 as int] != tile_map[va.tile.0 as int]);
        }
        assert(va == vb);
    }
}

/// What a canvas cell shows of the wave.
#[derive(Clone, Copy, Debug, PartialEq, Eq, Hash, Structural)]
pub enum CellState {
    /// The cell is outside the topology.
    Unavailable,
    /// No candidate is left.
    Contradiction,
    /// Several candidates are left.
    Superposition { candidates: usize },
    /// One variant is left; `pinned` says whether a pin put it there.
    Collapsed { variant: usize, pinned: bool },
}

/// The state of `cell` in the wave, its patterns read as the variants `pattern_variants`
/// lists, with `pinned` passed through for a collapsed cell.
pub fn cell_state<T: Topology>(wave: &Wfc<T>, cell: CellId, pattern_variants: &Vec<usize>, pinned: bool) -> (r: CellState)
    requires
        wave.wf(),
        pattern_variants@.len() == wave.spec_rules().spec_pattern_count(),
    ensures
        cell.0 >= wave.spec_topology().spec_cell_count() ==> r == CellState::Unavailable,
        cell.0 < wave.spec_topology().spec_cell_count() ==> {
            let domain = wave.spec_domains()[cell.0 as int];
            let candidates = count_true(domain);
            &&& candidates == 0 ==> r == CellState::Contradiction
            &&& candidates > 1 ==> r == (CellState::Superposition { candidates: candidates as usize })
            &&& candidates == 1 ==> exists|p: int|
                0 <= p < domain.len() && domain[p] && r == (CellState::Collapsed {
                    variant: pattern_variants@[p],
                    pinned,
                })
        },
{
    match wave.candidate_count(cell) {
        None => CellState::Unavailable,
        Some(0) => CellState::Contradiction,
        Some(1) => {
            let pattern = wave.collapsed_pattern(cell).unwrap();
            let variant = pattern_variants[pattern.index()];
            CellState::Collapsed { variant, pinned }
        },
        Some(candidates) => CellState::Superposition { candidates },
    }
}

/// The pointer button that drives a paint stroke.
#[derive(Clone, Copy, Debug, PartialEq, Eq, Hash, Structural)]
pub enum StrokeButton {
    /// Paints with the chosen color.
    Primary,
    /// Erases to the closed-edge background.
    Secondary,
}

/// A paint stroke in progress: where it is and the sample it last reached.
#[derive(Clone, Copy, Debug, PartialEq, Eq, Hash, Structural)]
pub struct PaintStroke {
    pub mode: GridMode,
    pub tile: TileId,
    pub button: StrokeButton,
    pub last_sample: Coord2,
}

/// One pointer frame of the raster editor. A release ends the stroke; a press over a sample
/// paints from where the stroke of the same mode, tile and button left off (or from the
/// sample itself) to that sample, the secondary button with `EDGE_BACKGROUND` and the
/// primary one with `paint_color`, and the stroke moves on to the sample. Returns the
/// stroke afterwards and the segment to paint, if any.
pub fn stroke_step(
    stroke: Option<PaintStroke>,
    mode: GridMode,
    tile: TileId,
    released: bool,
    pressed_on: bool,
    hovered: Option<Coord2>,
    primary: bool,
    secondary: bool,
    paint_color: Rgba,
) -> (r: (Option<PaintStroke>, Option<(Coord2, Coord2, Rgba)>))
    ensures
        ({
            let current = if released { None } else { stroke };
            if !pressed_on || (hovered is Some && !primary && !secondary) {
                r == (current, None::<(Coord2, Coord2, Rgba)>)
            } else if hovered is None {
                r == (None::<PaintStroke>, None::<(Coord2, Coord2, Rgba)>)
            } else {
                let sample = hovered.unwrap();
                let button = if secondary { StrokeButton::Secondary } else { StrokeButton::Primary };
                let from = match current {
                    Some(previous) => if previous.mode == mode && previous.tile == tile && previous.button == button {
                        previous.last_sample
                    } else {
                        sample
                    },
                    None => sample,
                };
                let color = if secondary { EDGE_BACKGROUND } else { paint_color };
                r == (Some(PaintStroke { mode, tile, button, last_sample: sample }), Some((from, sample, color)))
            }
        }),
{
    let current = if released { None } else { stroke };
    if !pressed_on {
        return (current, None);
    }
    let sample = match hovered {
        Some(sample) => sample,
        None => return (None, None),
    };
    let button = if secondary {
        StrokeButton::Secondary
    } else if primary {
        StrokeButton::Primary
    } else {
        return (current, None);
    };
    let from = match current {
        Some(previous) => if previous.mode == mode && previous.tile == tile && previous.button == button {
            previous.last_sample
        } else {
            sample
        },
        None => sample,
    };
    let color = if secondary { EDGE_BACKGROUND } else { paint_color };
    (Some(PaintStroke { mode, tile, button, last_sample: sample }), Some((from, sample, color)))
}

} // verus!
