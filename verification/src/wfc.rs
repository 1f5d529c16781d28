//! Wave Function Collapse over an arbitrary finite topology: dense pattern domains,
//! directional compatibility rules, and propagation to arc consistency.
use core::marker::PhantomData;
use std::collections::VecDeque;

use vstd::prelude::*;
use vstd::string::StringExecFns;

use crate::text::{decimal, push_decimal};
use crate::topology::{CellId, Direction, Topology};

verus! {

/// A stable, dense identifier for one pattern in a [`WfcRules`] table.
#[derive(Clone, Copy, Debug, PartialEq, Eq, PartialOrd, Ord, Hash, Structural)]
pub struct PatternId(pub usize);

impl PatternId {
    pub fn new(index: usize) -> (r: Self)
        ensures
            r.0 == index,
    {
        PatternId(index)
    }

    pub fn index(self) -> (r: usize)
        ensures
            r == self.0,
    {
        self.0
    }
}

/// An error constructing WFC rules.
#[derive(Clone, Debug, PartialEq, Eq)]
pub enum WfcError {
    NoPatterns,
    RuleTableOverflow { patterns: usize, directions: usize },
}

impl WfcError {
    /// The error's message.
    pub fn to_string(&self) -> (r: String)
        ensures
            r@ == match *self {
                WfcError::NoPatterns => "WFC needs at least one pattern"@,
                WfcError::RuleTableOverflow { patterns, directions } => "WFC compatibility table overflows usize for "@
                    + decimal(patterns as nat) + " patterns and "@ + decimal(directions as nat) + " directions"@,
            },
    {
        match *self {
            WfcError::NoPatterns => "WFC needs at least one pattern".to_owned(),
            WfcError::RuleTableOverflow { patterns, directions } => {
                let mut text = "WFC compatibility table overflows usize for ".to_owned();
                push_decimal(&mut text, patterns);
                text.append(" patterns and ");
                push_decimal(&mut text, directions);
                text.append(" directions");
                text
            },
        }
    }
}

/// The position of an ordered (direction, source, neighbor) triple in a rule table.
pub open spec fn rule_slot(patterns: int, direction: int, source: int, neighbor: int) -> int {
    direction * (patterns * patterns) + source * patterns + neighbor
}

proof fn lemma_rule_slot_bounds(patterns: int, directions: int, direction: int, source: int, neighbor: int)
    requires
        0 <= direction < directions,
        0 <= source < patterns,
        0 <= neighbor < patterns,
    ensures
        0 <= rule_slot(patterns, direction, source, neighbor) < directions * (patterns * patterns),
        rule_slot(patterns, direction, source, neighbor) + 1 == rule_slot(patterns, direction, source, neighbor + 1),
{
    assert(0 <= rule_slot(patterns, direction, source, neighbor) < directions * (patterns * patterns)) by (nonlinear_arith)
        requires
            0 <= direction < directions,
            0 <= source < patterns,
            0 <= neighbor < patterns,
    ;
}

/// The (direction, source, neighbor) triple stored at a table position.
pub open spec fn slot_triple(patterns: int, slot: int) -> (int, int, int) {
    (slot / (patterns * patterns), (slot % (patterns * patterns)) / patterns, slot % patterns)
}

/// The table entry at `slot` is an outcome of asking `compatible` about its triple.
pub open spec fn slot_holds<D: Direction, F: Fn(D, PatternId, PatternId) -> bool>(
    compatible: F,
    patterns: int,
    slot: int,
    value: bool,
) -> bool {
    let triple = slot_triple(patterns, slot);
    call_ensures(
        compatible,
        (D::spec_from_index(triple.0 as nat), PatternId(triple.1 as usize), PatternId(triple.2 as usize)),
        value,
    )
}

proof fn lemma_slot_triple_bounds(patterns: int, directions: int, slot: int)
    requires
        patterns > 0,
        0 <= slot < directions * (patterns * patterns),
    ensures
        0 <= slot_triple(patterns, slot).0 < directions,
        0 <= slot_triple(patterns, slot).1 < patterns,
        0 <= slot_triple(patterns, slot).2 < patterns,
        slot % (patterns * patterns) / patterns == slot_triple(patterns, slot).1,
{
    let pp = patterns * patterns;
    assert(pp > 0) by (nonlinear_arith)
        requires
            patterns > 0,
            pp == patterns * patterns,
    ;
    vstd::arithmetic::div_mod::lemma_fundamental_div_mod(slot, pp);
    vstd::arithmetic::div_mod::lemma_mod_pos_bound(slot, pp);
    vstd::arithmetic::div_mod::lemma_mod_pos_bound(slot, patterns);
    assert(0 <= slot / pp < directions) by (nonlinear_arith)
        requires
            0 <= slot < directions * pp,
            pp > 0,
            slot == pp * (slot / pp) + slot % pp,
            0 <= slot % pp < pp,
    ;
    let r = slot % pp;
    vstd::arithmetic::div_mod::lemma_fundamental_div_mod(r, patterns);
    vstd::arithmetic::div_mod::lemma_mod_pos_bound(r, patterns);
    assert(0 <= r / patterns < patterns) by (nonlinear_arith)
        requires
            0 <= r < patterns * patterns,
            patterns > 0,
            r == patterns * (r / patterns) + r % patterns,
            0 <= r % patterns < patterns,
    ;
}

proof fn lemma_slot_triple_of_rule_slot(patterns: int, direction: int, source: int, neighbor: int)
    requires
        0 <= direction,
        0 <= source < patterns,
        0 <= neighbor < patterns,
    ensures
        slot_triple(patterns, rule_slot(patterns, direction, source, neighbor)) == (direction, source, neighbor),
{
    let pp = patterns * patterns;
    let inner = source * patterns + neighbor;
    assert(0 <= inner < pp) by (nonlinear_arith)
        requires
            0 <= source < patterns,
            0 <= neighbor < patterns,
            inner == source * patterns + neighbor,
            pp == patterns * patterns,
    ;
    let slot = rule_slot(patterns, direction, source, neighbor);
    assert(slot == direction * pp + inner);
    vstd::arithmetic::div_mod::lemma_fundamental_div_mod_converse(slot, pp, direction, inner);
    vstd::arithmetic::div_mod::lemma_fundamental_div_mod_converse(inner, patterns, source, neighbor);
    assert(slot % patterns == neighbor) by {
        assert(slot == (direction * patterns + source) * patterns + neighbor) by (nonlinear_arith)
            requires
                slot == direction * pp + inner,
                pp == patterns * patterns,
                inner == source * patterns + neighbor,
        ;
        vstd::arithmetic::div_mod::lemma_fundamental_div_mod_converse(slot, patterns, direction * patterns + source, neighbor);
    }
}

/// Immutable directional compatibility rules for WFC patterns.
///
/// `allows(direction, source, neighbor)` is consulted for every ordered topology neighbor
/// relationship, so asymmetric constraints can be modeled.
#[derive(Debug, PartialEq, Eq)]
pub struct WfcRules<D: Direction> {
    pattern_count: usize,
    compatible: Vec<bool>,
    direction: PhantomData<D>,
}

impl<D: Direction> WfcRules<D> {
    #[verifier::type_invariant]
    spec fn inv(self) -> bool {
        &&& self.pattern_count > 0
        &&& self.compatible@.len() == D::spec_count() * (self.pattern_count * self.pattern_count)
    }

    /// The number of patterns.
    pub closed spec fn spec_pattern_count(self) -> nat {
        self.pattern_count as nat
    }

    /// The flattened compatibility table, direction-major then source-major.
    pub closed spec fn spec_table(self) -> Seq<bool> {
        self.compatible@
    }

    /// Whether `neighbor` may sit next to `source` in `direction`.
    pub open spec fn spec_allows(self, direction: D, source: int, neighbor: int) -> bool {
        let slot = rule_slot(self.spec_pattern_count() as int, direction.spec_index() as int, source, neighbor);
        0 <= slot < self.spec_table().len() && self.spec_table()[slot]
    }

    /// Builds the compatibility table by asking `compatible` about every ordered
    /// direction and pattern pair.
    pub fn new(pattern_count: usize, compatible: impl Fn(D, PatternId, PatternId) -> bool) -> (r: Result<Self, WfcError>)
        requires
            forall|direction: D, source: PatternId, neighbor: PatternId|
                call_requires(compatible, (direction, source, neighbor)),
        ensures
            pattern_count == 0 ==> r == Err::<Self, WfcError>(WfcError::NoPatterns),
            pattern_count > 0 && D::spec_count() * (pattern_count * pattern_count) > usize::MAX ==> r == Err::<Self, WfcError>(
                (WfcError::RuleTableOverflow { patterns: pattern_count, directions: D::spec_count() as usize }),
            ),
            r is Ok <==> pattern_count > 0 && D::spec_count() * (pattern_count * pattern_count) <= usize::MAX,
            r matches Ok(rules) ==> rules.spec_pattern_count() == pattern_count,
            r matches Ok(rules) ==> forall|direction: D, source: int, neighbor: int|
                0 <= source < pattern_count && 0 <= neighbor < pattern_count ==> call_ensures(
                    compatible,
                    (direction, PatternId(source as usize), PatternId(neighbor as usize)),
                    #[trigger] rules.spec_allows(direction, source, neighbor),
                ),
    {
        proof {
            D::lemma_direction_laws();
        }
        if pattern_count == 0 {
            return Err(WfcError::NoPatterns);
        }
        let directions = D::count();
        let pair_count = match pattern_count.checked_mul(pattern_count) {
            Some(pairs) => pairs,
            None => {
                assert(directions * (pattern_count * pattern_count) > usize::MAX) by (nonlinear_arith)
                    requires
                        pattern_count * pattern_count > usize::MAX,
                        directions >= 1,
                ;
                return Err(WfcError::RuleTableOverflow { patterns: pattern_count, directions });
            },
        };
        let table_len = match pair_count.checked_mul(directions) {
            Some(len) => len,
            None => {
                assert(directions * (pattern_count * pattern_count) == pair_count * directions) by (nonlinear_arith)
                    requires
                        pair_count == pattern_count * pattern_count,
                ;
                return Err(WfcError::RuleTableOverflow { patterns: pattern_count, directions });
            },
        };
        assert(table_len == directions * (pattern_count * pattern_count)) by (nonlinear_arith)
            requires
                pair_count == pattern_count * pattern_count,
                table_len == pair_count * directions,
        ;
        let n = pattern_count;
        let mut table: Vec<bool> = Vec::with_capacity(table_len);
        let mut slot: usize = 0;
        while slot < table_len
            invariant
                directions == D::spec_count(),
                0 < n,
                pair_count == n * n,
                table_len == directions * (n * n),
                slot <= table_len,
                table@.len() == slot,
                forall|direction: D, source: PatternId, neighbor: PatternId|
                    call_requires(compatible, (direction, source, neighbor)),
                forall|k: int| 0 <= k < slot ==> #[trigger] slot_holds(compatible, n as int, k, table@[k]),
            decreases table_len - slot,
        {
            proof {
                lemma_slot_triple_bounds(n as int, directions as int, slot as int);
            }
            let d = slot / pair_count;
            let s = (slot % pair_count) / n;
            let t = slot % n;
            let allowed = compatible(D::from_index(d), PatternId::new(s), PatternId::new(t));
            table.push(allowed);
            proof {
                assert(slot_holds(compatible, n as int, slot as int, table@[slot as int]));
            }
            slot += 1;
        }
        let rules = WfcRules { pattern_count, compatible: table, direction: PhantomData };
        proof {
            assert forall|direction: D, source: int, neighbor: int|
                0 <= source < pattern_count && 0 <= neighbor < pattern_count implies call_ensures(
                    compatible,
                    (direction, PatternId(source as usize), PatternId(neighbor as usize)),
                    #[trigger] rules.spec_allows(direction, source, neighbor),
                ) by {
                let dd = direction.spec_index() as int;
                lemma_rule_slot_bounds(n as int, directions as int, dd, source, neighbor);
                lemma_slot_triple_of_rule_slot(n as int, dd, source, neighbor);
                let k = rule_slot(n as int, dd, source, neighbor);
                assert(slot_holds(compatible, n as int, k, table@[k]));
                assert(D::spec_from_index(direction.spec_index()) == direction);
            }
        }
        Ok(rules)
    }

    pub fn pattern_count(&self) -> (r: usize)
        ensures
            r == self.spec_pattern_count(),
            r > 0,
    {
        proof {
            use_type_invariant(self);
        }
        self.pattern_count
    }

    /// Looks up the table entry for an ordered (direction, source, neighbor) triple; an
    /// index past the table reads as `false`.
    pub fn allows(&self, direction: D, source: PatternId, neighbor: PatternId) -> (r: bool)
        ensures
            r == self.spec_allows(direction, source.0 as int, neighbor.0 as int),
    {
        proof {
            use_type_invariant(self);
        }
        let patterns = self.pattern_count;
        let table_len = self.compatible.len();
        proof {
            D::lemma_direction_laws();
        }
        let pair_count = match patterns.checked_mul(patterns) {
            Some(pairs) => pairs,
            None => {
                proof {
                    assert(false) by (nonlinear_arith)
                        requires
                            patterns * patterns > usize::MAX,
                            table_len == D::spec_count() * (patterns * patterns),
                            D::spec_count() >= 1,
                            table_len <= usize::MAX,
                    ;
                }
                return false;
            },
        };
        let direction_offset = match direction.index().checked_mul(pair_count) {
            Some(offset) => offset,
            None => {
                assert(rule_slot(patterns as int, direction.spec_index() as int, source.0 as int, neighbor.0 as int) > usize::MAX) by (nonlinear_arith)
                    requires
                        direction.spec_index() * pair_count > usize::MAX,
                        pair_count == patterns * patterns,
                ;
                return false;
            },
        };
        let source_offset = match source.index().checked_mul(patterns) {
            Some(offset) => offset,
            None => return false,
        };
        let index = match direction_offset.checked_add(source_offset) {
            Some(partial) => match partial.checked_add(neighbor.index()) {
                Some(index) => index,
                None => return false,
            },
            None => return false,
        };
        if index < table_len {
            self.compatible[index]
        } else {
            false
        }
    }
}

impl<D: Direction> Clone for WfcRules<D> {
    fn clone(&self) -> (r: Self)
        ensures
            r.spec_pattern_count() == self.spec_pattern_count(),
            r.spec_table() == self.spec_table(),
    {
        proof {
            use_type_invariant(self);
        }
        WfcRules { pattern_count: self.pattern_count, compatible: self.compatible.clone(), direction: PhantomData }
    }
}

/// Current terminal or non-terminal state of a WFC wave.
#[derive(Clone, Copy, Debug, PartialEq, Eq, Hash, Structural)]
pub enum WfcStatus {
    Running,
    Solved,
    Contradiction { cell: CellId },
}

/// One observation and the propagation it triggered.
#[derive(Clone, Copy, Debug, PartialEq, Eq, Hash)]
pub struct WfcStep {
    pub cell: CellId,
    pub pattern: PatternId,
    pub removed_candidates: usize,
    pub status: WfcStatus,
}

/// The number of `true` entries.
pub open spec fn count_true(s: Seq<bool>) -> nat
    decreases s.len(),
{
    if s.len() == 0 {
        0
    } else {
        count_true(s.drop_last()) + if s.last() { 1nat } else { 0nat }
    }
}

/// The total number of candidates over all cells.
pub open spec fn total_candidates(domains: Seq<Seq<bool>>) -> nat
    decreases domains.len(),
{
    if domains.len() == 0 {
        0
    } else {
        total_candidates(domains.drop_last()) + count_true(domains.last())
    }
}

proof fn lemma_count_true_bounds(s: Seq<bool>)
    ensures
        count_true(s) <= s.len(),
        count_true(s) == 0 <==> forall|i: int| 0 <= i < s.len() ==> !s[i],
    decreases s.len(),
{
    if s.len() > 0 {
        lemma_count_true_bounds(s.drop_last());
        if count_true(s) == 0 {
            assert forall|i: int| 0 <= i < s.len() implies !s[i] by {
                if i < s.len() - 1 {
                    assert(s.drop_last()[i] == s[i]);
                }
            }
        }
        if forall|i: int| 0 <= i < s.len() ==> !s[i] {
            assert forall|i: int| 0 <= i < s.drop_last().len() implies !s.drop_last()[i] by {
                assert(s.drop_last()[i] == s[i]);
            }
        }
    }
}

proof fn lemma_count_true_update(s: Seq<bool>, i: int, v: bool)
    requires
        0 <= i < s.len(),
    ensures
        count_true(s.update(i, v)) + (if s[i] { 1int } else { 0int }) == count_true(s) + (if v { 1int } else { 0int }),
    decreases s.len(),
{
    let u = s.update(i, v);
    if i == s.len() - 1 {
        assert(u.drop_last() =~= s.drop_last());
    } else {
        assert(u.drop_last() =~= s.drop_last().update(i, v));
        lemma_count_true_update(s.drop_last(), i, v);
    }
}

/// A sequence with exactly one `true` entry has it at a unique position.
proof fn lemma_count_true_one(s: Seq<bool>, i: int)
    requires
        0 <= i < s.len(),
        s[i],
        count_true(s) == 1,
    ensures
        forall|j: int| 0 <= j < s.len() && j != i ==> !s[j],
{
    lemma_count_true_update(s, i, false);
    lemma_count_true_bounds(s.update(i, false));
    assert forall|j: int| 0 <= j < s.len() && j != i implies !s[j] by {
        assert(s.update(i, false)[j] == s[j]);
    }
}

proof fn lemma_total_update(domains: Seq<Seq<bool>>, c: int, x: Seq<bool>)
    requires
        0 <= c < domains.len(),
    ensures
        total_candidates(domains.update(c, x)) + count_true(domains[c]) == total_candidates(domains) + count_true(x),
    decreases domains.len(),
{
    let u = domains.update(c, x);
    if c == domains.len() - 1 {
        assert(u.drop_last() =~= domains.drop_last());
    } else {
        assert(u.drop_last() =~= domains.drop_last().update(c, x));
        lemma_total_update(domains.drop_last(), c, x);
    }
}

proof fn lemma_total_bound(domains: Seq<Seq<bool>>, patterns: nat)
    requires
        forall|c: int| 0 <= c < domains.len() ==> #[trigger] domains[c].len() == patterns,
    ensures
        total_candidates(domains) <= domains.len() * patterns,
    decreases domains.len(),
{
    if domains.len() > 0 {
        let rest = domains.drop_last();
        assert forall|c: int| 0 <= c < rest.len() implies #[trigger] rest[c].len() == patterns by {
            assert(rest[c] == domains[c]);
        }
        lemma_total_bound(rest, patterns);
        lemma_count_true_bounds(domains.last());
        assert(total_candidates(domains) <= domains.len() * patterns) by (nonlinear_arith)
            requires
                total_candidates(domains) == total_candidates(rest) + count_true(domains.last()),
                total_candidates(rest) <= rest.len() * patterns,
                count_true(domains.last()) <= patterns,
                rest.len() + 1 == domains.len(),
        ;
    }
}

/// Whether `pattern` at `target` has a supporting candidate at `source` across
/// `direction`. A cell that neighbors itself needs each candidate to support itself.
pub open spec fn spec_supported<D: Direction>(
    rules: WfcRules<D>,
    domains: Seq<Seq<bool>>,
    source: int,
    target: int,
    direction: D,
    pattern: int,
) -> bool {
    if source == target {
        rules.spec_allows(direction, pattern, pattern)
    } else {
        exists|q: int|
            0 <= q < rules.spec_pattern_count() && #[trigger] domains[source][q] && rules.spec_allows(direction, q, pattern)
    }
}

/// Every candidate of the neighbor of `cell` in `direction` is supported by `cell`.
pub open spec fn spec_arc_consistent_at<T: Topology>(
    topology: T,
    rules: WfcRules<T::Direction>,
    domains: Seq<Seq<bool>>,
    cell: int,
    direction: T::Direction,
) -> bool {
    match topology.spec_neighbor(CellId(cell as usize), direction) {
        None => true,
        Some(target) => forall|p: int|
            0 <= p < rules.spec_pattern_count() && #[trigger] domains[target.0 as int][p]
                ==> spec_supported(rules, domains, cell, target.0 as int, direction, p),
    }
}

/// Every ordered neighbor relationship of the topology is arc consistent.
pub open spec fn spec_arc_consistent<T: Topology>(topology: T, rules: WfcRules<T::Direction>, domains: Seq<Seq<bool>>) -> bool {
    forall|cell: int, direction: T::Direction|
        0 <= cell < topology.spec_cell_count() ==> #[trigger] spec_arc_consistent_at(topology, rules, domains, cell, direction)
}

/// One candidate flag per pattern for every cell.
pub open spec fn spec_shaped(domains: Seq<Seq<bool>>, cells: nat, patterns: nat) -> bool {
    &&& domains.len() == cells
    &&& forall|c: int| 0 <= c < cells ==> #[trigger] domains[c].len() == patterns
}

/// Every candidate of `a` is a candidate of `b`.
pub open spec fn spec_refines(a: Seq<Seq<bool>>, b: Seq<Seq<bool>>) -> bool {
    &&& a.len() == b.len()
    &&& forall|c: int, p: int| 0 <= c < a.len() && 0 <= p < a[c].len() && #[trigger] a[c][p] ==> p < b[c].len() && b[c][p]
}

/// The candidates of `target` that the candidates of `source` still support across
/// `direction`.
pub open spec fn spec_revised_domain<D: Direction>(
    rules: WfcRules<D>,
    domains: Seq<Seq<bool>>,
    source: int,
    target: int,
    direction: D,
) -> Seq<bool> {
    Seq::new(
        domains[target].len(),
        |k: int| domains[target][k] && spec_supported(rules, domains, source, target, direction, k),
    )
}

/// Whether `source` has a neighbor across `direction` that holds a candidate `source` does not
/// support, so that revising the neighbor removes something.
pub open spec fn spec_revision_removes<T: Topology>(
    topology: T,
    rules: WfcRules<T::Direction>,
    domains: Seq<Seq<bool>>,
    source: int,
    direction: T::Direction,
) -> bool {
    match topology.spec_neighbor(CellId(source as usize), direction) {
        Some(target) => target.0 < domains.len() && exists|k: int|
            0 <= k < domains[target.0 as int].len() && #[trigger] domains[target.0 as int][k] && !spec_supported(
                rules,
                domains,
                source,
                target.0 as int,
                direction,
                k,
            ),
        None => false,
    }
}

/// The first cell at or after `from` with no candidate.
pub open spec fn first_empty(domains: Seq<Seq<bool>>, cells: int, from: int) -> Option<int>
    decreases cells - from,
{
    if from >= cells {
        None
    } else if count_true(domains[from]) == 0 {
        Some(from)
    } else {
        first_empty(domains, cells, from + 1)
    }
}

/// The status settled domains call for: the first empty cell is a contradiction; otherwise
/// the wave is solved when every cell has one candidate, and running if not.
pub open spec fn spec_settled_status(domains: Seq<Seq<bool>>, cells: nat) -> WfcStatus {
    match first_empty(domains, cells as int, 0) {
        Some(c) => WfcStatus::Contradiction { cell: CellId(c as usize) },
        None => if forall|c: int| 0 <= c < cells ==> #[trigger] count_true(domains[c]) == 1 {
            WfcStatus::Solved
        } else {
            WfcStatus::Running
        },
    }
}

/// Revising a neighbor that holds an unsupported candidate removes at least one candidate.
pub proof fn lemma_revision_shrinks<T: Topology>(
    topology: T,
    rules: WfcRules<T::Direction>,
    domains: Seq<Seq<bool>>,
    source: int,
    direction: T::Direction,
)
    requires
        spec_revision_removes(topology, rules, domains, source, direction),
    ensures
        ({
            let t = topology.spec_neighbor(CellId(source as usize), direction).unwrap().0 as int;
            total_candidates(domains.update(t, spec_revised_domain(rules, domains, source, t, direction))) < total_candidates(
                domains,
            )
        }),
{
    let t = topology.spec_neighbor(CellId(source as usize), direction).unwrap().0 as int;
    let old_domain = domains[t];
    let x = spec_revised_domain(rules, domains, source, t, direction);
    let k = choose|k: int|
        0 <= k < domains[t].len() && #[trigger] domains[t][k] && !spec_supported(rules, domains, source, t, direction, k);
    lemma_count_true_update(old_domain, k, false);
    assert forall|j: int| 0 <= j < x.len() && x[j] implies old_domain.update(k, false)[j] by {}
    lemma_count_true_monotone(x, old_domain.update(k, false));
    lemma_total_update(domains, t, x);
}

/// Where propagation from the cells of `queue` ends: cells are taken from the front; an
/// empty cell is a contradiction; otherwise each direction of the cell, in index order,
/// revises its neighbor, an emptied neighbor is a contradiction and a shrunk one joins the
/// back of the queue. When the queue runs dry the domains settle on
/// [`spec_settled_status`].
pub open spec fn spec_drain<T: Topology>(
    topology: T,
    rules: WfcRules<T::Direction>,
    domains: Seq<Seq<bool>>,
    queue: Seq<usize>,
) -> (Seq<Seq<bool>>, WfcStatus)
    decreases total_candidates(domains), queue.len(), 0nat,
{
    if queue.len() == 0 {
        (domains, spec_settled_status(domains, topology.spec_cell_count()))
    } else if count_true(domains[queue[0] as int]) == 0 {
        (domains, WfcStatus::Contradiction { cell: CellId(queue[0]) })
    } else {
        spec_visit(topology, rules, domains, queue.drop_first(), queue[0] as int, 0)
    }
}

/// Propagation while cell `source` revises its neighbors, from direction index `di` on (see
/// [`spec_drain`]).
pub open spec fn spec_visit<T: Topology>(
    topology: T,
    rules: WfcRules<T::Direction>,
    domains: Seq<Seq<bool>>,
    queue: Seq<usize>,
    source: int,
    di: nat,
) -> (Seq<Seq<bool>>, WfcStatus)
    decreases total_candidates(domains), queue.len(), (T::Direction::spec_count() + 1 - if di < T::Direction::spec_count() {
        di
    } else {
        T::Direction::spec_count()
    }) as nat,
{
    if di >= T::Direction::spec_count() {
        spec_drain(topology, rules, domains, queue)
    } else {
        let direction = T::Direction::spec_from_index(di);
        if spec_revision_removes(topology, rules, domains, source, direction) {
            let target = topology.spec_neighbor(CellId(source as usize), direction).unwrap();
            let t = target.0 as int;
            let revised = domains.update(t, spec_revised_domain(rules, domains, source, t, direction));
            proof {
                lemma_revision_shrinks(topology, rules, domains, source, direction);
            }
            if count_true(revised[t]) == 0 {
                (revised, WfcStatus::Contradiction { cell: target })
            } else {
                spec_visit(topology, rules, revised, queue.push(target.0), source, di + 1)
            }
        } else {
            spec_visit(topology, rules, domains, queue, source, di + 1)
        }
    }
}

/// Where propagating `initial` from every cell, in index order, ends: the domains and the
/// status a wave with these initial constraints starts with.
pub open spec fn spec_settle<T: Topology>(
    topology: T,
    rules: WfcRules<T::Direction>,
    initial: Seq<Seq<bool>>,
) -> (Seq<Seq<bool>>, WfcStatus) {
    spec_drain(topology, rules, initial, Seq::new(topology.spec_cell_count(), |i: int| i as usize))
}

/// `result` keeps every arc-consistent refinement of `start`: propagation removed only
/// candidates that no arc-consistent choice of candidates can contain.
pub open spec fn spec_keeps_consistent_refinements<T: Topology>(
    topology: T,
    rules: WfcRules<T::Direction>,
    start: Seq<Seq<bool>>,
    result: Seq<Seq<bool>>,
) -> bool {
    forall|e: Seq<Seq<bool>>|
        spec_shaped(e, topology.spec_cell_count(), rules.spec_pattern_count()) && #[trigger] spec_refines(e, start)
            && spec_arc_consistent(topology, rules, e) ==> spec_refines(e, result)
}

/// The status agrees with the domains: a contradiction names an empty cell; otherwise the
/// domains are arc consistent, no cell is empty, and the wave is solved exactly when every
/// cell has a single candidate.
pub open spec fn spec_status_consistent<T: Topology>(
    topology: T,
    rules: WfcRules<T::Direction>,
    domains: Seq<Seq<bool>>,
    status: WfcStatus,
) -> bool {
    match status {
        WfcStatus::Contradiction { cell } => cell.0 < topology.spec_cell_count() && count_true(domains[cell.0 as int]) == 0,
        _ => {
            &&& spec_arc_consistent(topology, rules, domains)
            &&& forall|c: int| 0 <= c < topology.spec_cell_count() ==> #[trigger] count_true(domains[c]) >= 1
            &&& (status == WfcStatus::Solved <==> forall|c: int|
                0 <= c < topology.spec_cell_count() ==> #[trigger] count_true(domains[c]) == 1)
        },
    }
}

/// The candidates of one cell, with their number.
#[derive(Debug)]
struct Domain {
    allowed: Vec<bool>,
    len: usize,
}

/// A domain with one flag per pattern whose count matches its flags.
spec fn domain_wf(domain: Domain, patterns: nat) -> bool {
    &&& domain.allowed@.len() == patterns
    &&& domain.len == count_true(domain.allowed@)
}

/// The candidate flags of every cell.
spec fn domains_view(domains: Seq<Domain>) -> Seq<Seq<bool>> {
    Seq::new(domains.len(), |c: int| domains[c].allowed@)
}

impl Domain {
    fn duplicate(&self) -> (r: Domain)
        ensures
            r.allowed@ == self.allowed@,
            r.len == self.len,
    {
        let mut allowed: Vec<bool> = Vec::with_capacity(self.allowed.len());
        let mut index: usize = 0;
        while index < self.allowed.len()
            invariant
                index <= self.allowed@.len(),
                allowed@ == self.allowed@.subrange(0, index as int),
            decreases self.allowed@.len() - index,
        {
            allowed.push(self.allowed[index]);
            index += 1;
            assert(allowed@ =~= self.allowed@.subrange(0, index as int));
        }
        assert(allowed@ =~= self.allowed@);
        Domain { allowed, len: self.len }
    }

    /// Keeps the candidates that `keep` accepts and removes the others, asking `keep` once
    /// about each candidate, in index order. Returns how many were removed.
    fn retain(&mut self, keep: impl Fn(PatternId) -> bool) -> (removed: usize)
        requires
            domain_wf(*old(self), old(self).allowed@.len()),
            forall|p: int| 0 <= p < old(self).allowed@.len() && old(self).allowed@[p] ==> call_requires(keep, (PatternId(p as usize),)),
        ensures
            domain_wf(*final(self), old(self).allowed@.len()),
            forall|p: int| 0 <= p < old(self).allowed@.len() && !old(self).allowed@[p] ==> !#[trigger] final(self).allowed@[p],
            forall|p: int|
                0 <= p < old(self).allowed@.len() && old(self).allowed@[p] ==> call_ensures(
                    keep,
                    (PatternId(p as usize),),
                    #[trigger] final(self).allowed@[p],
                ),
            removed + count_true(final(self).allowed@) == count_true(old(self).allowed@),
    {
        let ghost before = self.allowed@;
        let count = self.allowed.len();
        let mut removed: usize = 0;
        let mut index: usize = 0;
        while index < count
            invariant
                index <= count,
                count == before.len(),
                self.allowed@.len() == count,
                self.len == count_true(self.allowed@),
                removed + count_true(self.allowed@) == count_true(before),
                forall|p: int| 0 <= p < count && before[p] ==> call_requires(keep, (PatternId(p as usize),)),
                forall|p: int| 0 <= p < index && !before[p] ==> !#[trigger] self.allowed@[p],
                forall|p: int| 0 <= p < index && before[p] ==> call_ensures(keep, (PatternId(p as usize),), #[trigger] self.allowed@[p]),
                forall|p: int| index <= p < count ==> #[trigger] self.allowed@[p] == before[p],
            decreases count - index,
        {
            if self.allowed[index] {
                let pattern = PatternId::new(index);
                assert(pattern == PatternId(index));
                let kept = keep(pattern);
                if !kept {
                    proof {
                        lemma_count_true_update(self.allowed@, index as int, false);
                        lemma_count_true_bounds(before);
                    }
                    self.allowed.set(index, false);
                    self.len = self.len - 1;
                    removed = removed + 1;
                }
            }
            index += 1;
        }
        removed
    }
}

/// A seeded SplitMix64 generator.
#[derive(Clone, Copy, Debug)]
struct SplitMix64 {
    state: u64,
}

/// The SplitMix64 state increment.
pub open spec fn splitmix_gamma() -> u64 {
    0x9e37_79b9_7f4a_7c15
}

/// The SplitMix64 output function applied to an advanced state.
pub open spec fn splitmix_mix(state: u64) -> u64 {
    let value = (state ^ (state >> 30u64)).wrapping_mul(0xbf58_476d_1ce4_e5b9);
    let value = (value ^ (value >> 27u64)).wrapping_mul(0x94d0_49bb_1331_11eb);
    value ^ (value >> 31u64)
}

/// Scales a 64-bit random value into `[0, upper)` by keeping the high half of the product.
pub open spec fn scaled_index(value: u64, upper: usize) -> usize {
    ((value as int * upper as int) / 0x1_0000_0000_0000_0000int) as usize
}

impl SplitMix64 {
    fn new(seed: u64) -> (r: Self)
        ensures
            r.state == seed,
    {
        SplitMix64 { state: seed }
    }

    fn next_u64(&mut self) -> (r: u64)
        ensures
            final(self).state == old(self).state.wrapping_add(splitmix_gamma()),
            r == splitmix_mix(final(self).state),
    {
        self.state = self.state.wrapping_add(0x9e37_79b9_7f4a_7c15);
        let mut value = self.state;
        value = (value ^ (value >> 30)).wrapping_mul(0xbf58_476d_1ce4_e5b9);
        value = (value ^ (value >> 27)).wrapping_mul(0x94d0_49bb_1331_11eb);
        value ^ (value >> 31)
    }

    fn index(&mut self, upper: usize) -> (r: usize)
        ensures
            final(self).state == old(self).state.wrapping_add(splitmix_gamma()),
            r == scaled_index(splitmix_mix(final(self).state), upper),
            upper > 0 ==> r < upper,
    {
        let value = self.next_u64();
        assert(value as u128 * upper as u128 <= u128::MAX) by (nonlinear_arith)
            requires
                value <= u64::MAX,
                upper <= u64::MAX,
        ;
        let product = value as u128 * upper as u128;
        let high = product >> 64;
        proof {
            assert(high == product / 0x1_0000_0000_0000_0000u128) by (bit_vector)
                requires
                    high == product >> 64,
            ;
            assert(value as int * upper as int / 0x1_0000_0000_0000_0000int <= upper) by (nonlinear_arith)
                requires
                    value < 0x1_0000_0000_0000_0000int,
                    upper >= 0,
            ;
            if upper > 0 {
                assert(value as int * upper as int / 0x1_0000_0000_0000_0000int < upper) by (nonlinear_arith)
                    requires
                        value < 0x1_0000_0000_0000_0000int,
                        upper > 0,
                ;
            }
        }
        high as usize
    }
}

/// A candidate that survives a shrink of another cell keeps its support.
proof fn lemma_arc_survives_shrink<T: Topology>(
    topology: T,
    rules: WfcRules<T::Direction>,
    old_domains: Seq<Seq<bool>>,
    new_domains: Seq<Seq<bool>>,
    changed: int,
    cell: int,
    direction: T::Direction,
)
    requires
        spec_arc_consistent_at(topology, rules, old_domains, cell, direction),
        0 <= cell < topology.spec_cell_count(),
        cell != changed,
        old_domains.len() == topology.spec_cell_count(),
        spec_refines(new_domains, old_domains),
        forall|c: int| 0 <= c < old_domains.len() && c != changed ==> new_domains[c] == old_domains[c],
        spec_shaped(old_domains, topology.spec_cell_count(), rules.spec_pattern_count()),
        spec_shaped(new_domains, topology.spec_cell_count(), rules.spec_pattern_count()),
    ensures
        spec_arc_consistent_at(topology, rules, new_domains, cell, direction),
{
    topology.lemma_neighbor_in_range(CellId(cell as usize), direction);
    match topology.spec_neighbor(CellId(cell as usize), direction) {
        None => {},
        Some(target) => {
            let t = target.0 as int;
            assert forall|p: int|
                0 <= p < rules.spec_pattern_count() && #[trigger] new_domains[t][p] implies spec_supported(
                rules,
                new_domains,
                cell,
                t,
                direction,
                p,
            ) by {
                assert(old_domains[t][p]);
                if cell != t {
                    let q = choose|q: int|
                        0 <= q < rules.spec_pattern_count() && #[trigger] old_domains[cell][q]
                            && rules.spec_allows(direction, q, p);
                    assert(new_domains[cell][q]);
                }
            }
        },
    }
}

/// A seeded Wave Function Collapse state over an arbitrary finite [`Topology`].
///
/// The solver owns only dense pattern domains and compatibility rules. Pattern
/// payloads, tile rendering, and other application data remain with the caller.
#[derive(Debug)]
pub struct Wfc<T: Topology> {
    topology: T,
    rules: WfcRules<T::Direction>,
    initial_domains: Vec<Domain>,
    domains: Vec<Domain>,
    status: WfcStatus,
    seed: u64,
    random: SplitMix64,
}

impl<T: Topology> Wfc<T> {
    pub closed spec fn spec_topology(&self) -> T {
        self.topology
    }

    pub closed spec fn spec_rules(&self) -> WfcRules<T::Direction> {
        self.rules
    }

    /// The current candidates of every cell.
    pub closed spec fn spec_domains(&self) -> Seq<Seq<bool>> {
        domains_view(self.domains@)
    }

    /// The candidates the wave was constructed with, before any propagation.
    pub closed spec fn spec_initial(&self) -> Seq<Seq<bool>> {
        domains_view(self.initial_domains@)
    }

    pub closed spec fn spec_status(&self) -> WfcStatus {
        self.status
    }

    /// The wave holds exactly what propagating its initial constraints from every cell
    /// leaves: the candidates and the status of a fresh start.
    pub open spec fn spec_settled_start(&self) -> bool {
        (self.spec_domains(), self.spec_status()) == spec_settle(self.spec_topology(), self.spec_rules(), self.spec_initial())
    }

    pub closed spec fn spec_seed(&self) -> u64 {
        self.seed
    }

    /// The state of the wave's random number generator.
    pub closed spec fn spec_random_state(&self) -> u64 {
        self.random.state
    }

    /// The internal bookkeeping is consistent: one domain per cell, one flag per
    /// pattern, and cached candidate counts that match the flags.
    pub closed spec fn spec_well_shaped(&self) -> bool {
        let patterns = self.rules.spec_pattern_count();
        let cells = self.topology.spec_cell_count();
        &&& self.domains@.len() == cells
        &&& self.initial_domains@.len() == cells
        &&& forall|c: int| 0 <= c < cells ==> #[trigger] domain_wf(self.domains@[c], patterns)
        &&& forall|c: int| 0 <= c < cells ==> #[trigger] domain_wf(self.initial_domains@[c], patterns)
        &&& cells * patterns <= usize::MAX
    }

    /// The wave's invariant: well shaped, no candidate beyond the initial constraints, and
    /// a status that agrees with the domains.
    pub open spec fn wf(&self) -> bool {
        &&& self.spec_well_shaped()
        &&& spec_shaped(self.spec_domains(), self.spec_topology().spec_cell_count(), self.spec_rules().spec_pattern_count())
        &&& spec_shaped(self.spec_initial(), self.spec_topology().spec_cell_count(), self.spec_rules().spec_pattern_count())
        &&& spec_refines(self.spec_domains(), self.spec_initial())
        &&& spec_status_consistent(self.spec_topology(), self.spec_rules(), self.spec_domains(), self.spec_status())
    }

    proof fn lemma_shaped(&self)
        requires
            self.spec_well_shaped(),
        ensures
            spec_shaped(self.spec_domains(), self.topology.spec_cell_count(), self.rules.spec_pattern_count()),
            spec_shaped(self.spec_initial(), self.topology.spec_cell_count(), self.rules.spec_pattern_count()),
            forall|c: int| 0 <= c < self.topology.spec_cell_count() ==> #[trigger] self.spec_domains()[c] == self.domains@[c].allowed@,
            total_candidates(self.spec_domains()) <= usize::MAX,
    {
        let patterns = self.rules.spec_pattern_count();
        let cells = self.topology.spec_cell_count();
        assert forall|c: int| 0 <= c < cells implies #[trigger] self.spec_domains()[c].len() == patterns by {
            assert(domain_wf(self.domains@[c], patterns));
        }
        assert forall|c: int| 0 <= c < cells implies #[trigger] self.spec_initial()[c].len() == patterns by {
            assert(domain_wf(self.initial_domains@[c], patterns));
        }
        lemma_total_bound(self.spec_domains(), patterns);
    }

    /// Whether `pattern` at `target` is supported by a candidate of `source`.
    fn has_support(&self, source: usize, target: usize, direction: T::Direction, pattern: usize) -> (r: bool)
        requires
            self.spec_well_shaped(),
            source < self.topology.spec_cell_count(),
            pattern < self.rules.spec_pattern_count(),
        ensures
            r == spec_supported(self.rules, self.spec_domains(), source as int, target as int, direction, pattern as int),
    {
        if source == target {
            return self.rules.allows(direction, PatternId::new(pattern), PatternId::new(pattern));
        }
        proof {
            self.lemma_shaped();
            assert(domain_wf(self.domains@[source as int], self.rules.spec_pattern_count()));
        }
        let patterns = self.rules.pattern_count();
        let mut q: usize = 0;
        while q < patterns
            invariant
                self.spec_well_shaped(),
                source < self.topology.spec_cell_count(),
                source != target,
                patterns == self.rules.spec_pattern_count(),
                self.domains@[source as int].allowed@.len() == patterns,
                self.spec_domains()[source as int] == self.domains@[source as int].allowed@,
                q <= patterns,
                forall|k: int| 0 <= k < q ==> !(#[trigger] self.spec_domains()[source as int][k]
                    && self.rules.spec_allows(direction, k, pattern as int)),
            decreases patterns - q,
        {
            if self.domains[source].allowed[q] && self.rules.allows(direction, PatternId::new(q), PatternId::new(pattern)) {
                return true;
            }
            q += 1;
        }
        false
    }

    /// Removes from the neighbor of `source` in `direction` every candidate that no
    /// candidate of `source` supports. Returns the neighbor if anything was removed, and
    /// how many candidates were removed.
    fn revise(&mut self, source: usize, direction: T::Direction) -> (r: (Option<usize>, usize))
        requires
            old(self).spec_well_shaped(),
            source < old(self).topology.spec_cell_count(),
        ensures
            final(self).spec_well_shaped(),
            final(self).topology == old(self).topology,
            final(self).rules == old(self).rules,
            final(self).initial_domains == old(self).initial_domains,
            final(self).status == old(self).status,
            final(self).seed == old(self).seed,
            final(self).random == old(self).random,
            spec_refines(final(self).spec_domains(), old(self).spec_domains()),
            spec_arc_consistent_at(final(self).topology, final(self).rules, final(self).spec_domains(), source as int, direction),
            forall|e: Seq<Seq<bool>>|
                spec_shaped(e, old(self).topology.spec_cell_count(), old(self).rules.spec_pattern_count())
                    && #[trigger] spec_refines(e, old(self).spec_domains())
                    && spec_arc_consistent(old(self).topology, old(self).rules, e) ==> spec_refines(e, final(self).spec_domains()),
            r.1 + total_candidates(final(self).spec_domains()) == total_candidates(old(self).spec_domains()),
            r.0 is Some <==> r.1 > 0,
            r.0 is None ==> final(self).spec_domains() == old(self).spec_domains(),
            r.0 is Some <==> spec_revision_removes(old(self).topology, old(self).rules, old(self).spec_domains(), source as int, direction),
            r.0 matches Some(target) ==> final(self).spec_domains() == old(self).spec_domains().update(
                target as int,
                spec_revised_domain(old(self).rules, old(self).spec_domains(), source as int, target as int, direction),
            ),
            r.0 matches Some(target) ==> {
                &&& old(self).topology.spec_neighbor(CellId(source), direction) == Some(CellId(target))
                &&& target < old(self).topology.spec_cell_count()
                &&& forall|c: int| 0 <= c < old(self).topology.spec_cell_count() && c != target
                    ==> #[trigger] final(self).spec_domains()[c] == old(self).spec_domains()[c]
            },
    {
        let ghost before = self.spec_domains();
        proof {
            self.lemma_shaped();
        }
        let target = match self.topology.neighbor(CellId::new(source), direction) {
            None => {
                return (None, 0);
            },
            Some(cell) => cell.index(),
        };
        let patterns = self.rules.pattern_count();
        proof {
            assert(domain_wf(self.domains@[target as int], patterns as nat));
        }
        let mut mask: Vec<bool> = Vec::with_capacity(patterns);
        let mut any = false;
        let mut p: usize = 0;
        while p < patterns
            invariant
                self.spec_well_shaped(),
                self.spec_domains() == before,
                source < self.topology.spec_cell_count(),
                target < self.topology.spec_cell_count(),
                patterns == self.rules.spec_pattern_count(),
                before[target as int] == self.domains@[target as int].allowed@,
                before[target as int].len() == patterns,
                p <= patterns,
                mask@.len() == p,
                forall|k: int| 0 <= k < p ==> #[trigger] mask@[k] == (before[target as int][k]
                    && !spec_supported(self.rules, before, source as int, target as int, direction, k)),
                any == exists|k: int| 0 <= k < p && #[trigger] mask@[k],
            decreases patterns - p,
        {
            let unsupported = self.domains[target].allowed[p] && !self.has_support(source, target, direction, p);
            let ghost old_mask = mask@;
            let ghost old_any = any;
            mask.push(unsupported);
            any = any || unsupported;
            proof {
                assert forall|k: int| 0 <= k < p implies mask@[k] == old_mask[k] by {}
                if old_any {
                    let k = choose|k: int| 0 <= k < p && #[trigger] old_mask[k];
                    assert(mask@[k]);
                } else if unsupported {
                    assert(mask@[p as int]);
                } else {
                    assert forall|k: int| 0 <= k < p + 1 implies !mask@[k] by {
                        if k < p {
                            assert(!old_mask[k]);
                        }
                    }
                }
            }
            p += 1;
        }
        if !any {
            proof {
                let t = target as int;
                assert(self.topology.spec_neighbor(CellId(source), direction) == Some(CellId(target)));
                if spec_revision_removes(self.topology, self.rules, before, source as int, direction) {
                    let k = choose|k: int|
                        0 <= k < before[t].len() && #[trigger] before[t][k] && !spec_supported(self.rules, before, source as int, t, direction, k);
                    assert(mask@[k]);
                }
                assert forall|k: int|
                    0 <= k < patterns && #[trigger] before[t][k] implies spec_supported(
                    self.rules,
                    before,
                    source as int,
                    t,
                    direction,
                    k,
                ) by {
                    assert(!mask@[k]);
                }
            }
            return (None, 0);
        }
        let ghost target_before = self.domains@[target as int].allowed@;
        let flags = &mask;
        let supported = |candidate: PatternId| -> (kept: bool)
            requires
                candidate.0 < flags@.len(),
            ensures
                kept == !flags@[candidate.0 as int],
        {
            let index = candidate.index();
            !flags[index]
        };
        let removed = self.domains[target].retain(supported);
        proof {
            assert forall|k: int| 0 <= k < patterns implies #[trigger] self.domains@[target as int].allowed@[k] == (target_before[k]
                && !mask@[k]) by {
                if target_before[k] {
                    assert(PatternId(k as usize).0 == k);
                }
            }
        }
        proof {
            let t = target as int;
            let after = self.spec_domains();
            let cells = self.topology.spec_cell_count();
            assert(after =~= before.update(t, self.domains@[t].allowed@));
            lemma_total_update(before, t, self.domains@[t].allowed@);
            assert(forall|c: int| 0 <= c < cells && c != t ==> #[trigger] domain_wf(self.domains@[c], patterns as nat));
            assert(domain_wf(self.domains@[t], patterns as nat));
            assert(spec_refines(after, before));
            // Every remaining candidate of the target is supported.
            assert forall|k: int|
                0 <= k < patterns && #[trigger] after[t][k] implies spec_supported(
                self.rules,
                after,
                source as int,
                t,
                direction,
                k,
            ) by {
                assert(!mask@[k]);
                assert(before[t][k]);
                if source as int != t {
                    let q = choose|q: int|
                        0 <= q < patterns && #[trigger] before[source as int][q]
                            && self.rules.spec_allows(direction, q, k);
                    assert(after[source as int][q]);
                }
            }
            // Arc-consistent refinements never hold a removed candidate.
            assert forall|e: Seq<Seq<bool>>|
                spec_shaped(e, cells, patterns as nat) && #[trigger] spec_refines(e, before)
                    && spec_arc_consistent(self.topology, self.rules, e) implies spec_refines(e, after) by {
                assert forall|c: int, k: int| 0 <= c < e.len() && 0 <= k < e[c].len() && #[trigger] e[c][k]
                    implies k < after[c].len() && after[c][k] by {
                    if c == t {
                        assert(spec_arc_consistent_at(self.topology, self.rules, e, source as int, direction));
                        assert(spec_supported(self.rules, e, source as int, t, direction, k));
                        if source as int != t {
                            let q = choose|q: int|
                                0 <= q < patterns && #[trigger] e[source as int][q] && self.rules.spec_allows(direction, q, k);
                            assert(before[source as int][q]);
                        }
                        assert(!mask@[k]);
                    }
                }
            }
            if removed == 0 {
                lemma_count_true_bounds(self.domains@[t].allowed@);
                let k = choose|k: int| 0 <= k < patterns && #[trigger] mask@[k];
                assert(false) by {
                    assert(before[t][k]);
                    assert(!after[t][k]);
                    lemma_count_true_update(before[t], k, false);
                    lemma_count_true_bounds(before[t].update(k, false));
                    assert forall|j: int| 0 <= j < patterns && after[t][j] implies before[t].update(k, false)[j] by {}
                    lemma_count_true_monotone(after[t], before[t].update(k, false));
                }
            }
        }
        proof {
            let t = target as int;
            let after = self.spec_domains();
            assert(after[t] =~= spec_revised_domain(self.rules, before, source as int, t, direction));
            assert(after =~= before.update(t, spec_revised_domain(self.rules, before, source as int, t, direction)));
            let k = choose|k: int| 0 <= k < patterns && #[trigger] mask@[k];
            assert(before[t][k]);
        }
        (Some(target), removed)
    }
}

impl<T: Topology> Wfc<T> {
    /// The status the domains call for: the first empty cell is a contradiction; otherwise
    /// the wave is solved when every cell has one candidate, and still running if not.
    fn status_of_domains(&self) -> (r: WfcStatus)
        requires
            self.spec_well_shaped(),
            spec_arc_consistent(self.topology, self.rules, self.spec_domains()),
        ensures
            spec_status_consistent(self.topology, self.rules, self.spec_domains(), r),
            r == spec_settled_status(self.spec_domains(), self.topology.spec_cell_count()),
    {
        proof {
            self.lemma_shaped();
        }
        let count = self.domains.len();
        let patterns = self.rules.pattern_count();
        let mut index: usize = 0;
        while index < count
            invariant
                self.spec_well_shaped(),
                count == self.topology.spec_cell_count(),
                patterns == self.rules.spec_pattern_count(),
                index <= count,
                forall|c: int| 0 <= c < self.topology.spec_cell_count() ==> #[trigger] self.spec_domains()[c] == self.domains@[c].allowed@,
                forall|c: int| 0 <= c < index ==> #[trigger] count_true(self.spec_domains()[c]) >= 1,
                first_empty(self.spec_domains(), count as int, 0) == first_empty(self.spec_domains(), count as int, index as int),
            decreases count - index,
        {
            proof {
                assert(domain_wf(self.domains@[index as int], patterns as nat));
            }
            if self.domains[index].len == 0 {
                return WfcStatus::Contradiction { cell: CellId::new(index) };
            }
            index += 1;
        }
        assert(first_empty(self.spec_domains(), count as int, count as int) is None);
        let mut all_single = true;
        index = 0;
        while index < count
            invariant
                self.spec_well_shaped(),
                count == self.topology.spec_cell_count(),
                patterns == self.rules.spec_pattern_count(),
                index <= count,
                forall|c: int| 0 <= c < self.topology.spec_cell_count() ==> #[trigger] self.spec_domains()[c] == self.domains@[c].allowed@,
                all_single == forall|c: int| 0 <= c < index ==> #[trigger] count_true(self.spec_domains()[c]) == 1,
            decreases count - index,
        {
            proof {
                assert(domain_wf(self.domains@[index as int], patterns as nat));
            }
            let single = self.domains[index].len == 1;
            proof {
                if all_single && single {
                    assert forall|c: int| 0 <= c < index + 1 implies #[trigger] count_true(self.spec_domains()[c]) == 1 by {}
                }
                if !single {
                    assert(count_true(self.spec_domains()[index as int]) != 1);
                }
            }
            all_single = all_single && single;
            index += 1;
        }
        if all_single { WfcStatus::Solved } else { WfcStatus::Running }
    }

    /// Sets the status from the domains (see [`Self::status_of_domains`]).
    fn update_status(&mut self)
        requires
            old(self).spec_well_shaped(),
            spec_arc_consistent(old(self).topology, old(self).rules, old(self).spec_domains()),
        ensures
            final(self).spec_well_shaped(),
            final(self).topology == old(self).topology,
            final(self).rules == old(self).rules,
            final(self).initial_domains == old(self).initial_domains,
            final(self).domains == old(self).domains,
            final(self).seed == old(self).seed,
            final(self).random == old(self).random,
            spec_status_consistent(final(self).topology, final(self).rules, final(self).spec_domains(), final(self).status),
            final(self).status == spec_settled_status(final(self).spec_domains(), final(self).topology.spec_cell_count()),
    {
        self.status = self.status_of_domains();
    }

    /// Propagates removals from the queued cells until every ordered neighbor relationship
    /// is arc consistent or a cell runs out of candidates. Returns the number of removed
    /// candidates.
    fn propagate_from(&mut self, queue: VecDeque<usize>) -> (removed: usize)
        requires
            old(self).spec_well_shaped(),
            forall|i: int| 0 <= i < queue@.len() ==> #[trigger] queue@[i] < old(self).topology.spec_cell_count(),
            forall|c: int, d: T::Direction|
                0 <= c < old(self).topology.spec_cell_count() && !queued(queue@, c)
                    ==> #[trigger] spec_arc_consistent_at(old(self).topology, old(self).rules, old(self).spec_domains(), c, d),
        ensures
            final(self).spec_well_shaped(),
            final(self).topology == old(self).topology,
            final(self).rules == old(self).rules,
            final(self).initial_domains == old(self).initial_domains,
            final(self).seed == old(self).seed,
            final(self).random == old(self).random,
            spec_refines(final(self).spec_domains(), old(self).spec_domains()),
            spec_keeps_consistent_refinements(old(self).topology, old(self).rules, old(self).spec_domains(), final(self).spec_domains()),
            removed + total_candidates(final(self).spec_domains()) == total_candidates(old(self).spec_domains()),
            spec_status_consistent(final(self).topology, final(self).rules, final(self).spec_domains(), final(self).status),
            (final(self).spec_domains(), final(self).status) == spec_drain(old(self).topology, old(self).rules, old(self).spec_domains(), queue@),
    {
        let ghost start = self.spec_domains();
        let ghost goal = spec_drain(self.topology, self.rules, start, queue@);
        let ghost given = queue@;
        let ghost cells = self.topology.spec_cell_count();
        let ghost patterns = self.rules.spec_pattern_count();
        proof {
            self.lemma_shaped();
            D_laws::<T>();
            assert(spec_refines(start, start));
            assert forall|e: Seq<Seq<bool>>|
                spec_shaped(e, cells, patterns) && #[trigger] spec_refines(e, start)
                    && spec_arc_consistent(self.topology, self.rules, e) implies spec_refines(e, start) by {}
        }
        let directions = T::Direction::count();
        let mut pending = queue;
        let mut removed: usize = 0;
        while pending.len() > 0
            invariant
                self.spec_well_shaped(),
                self.topology == old(self).topology,
                self.rules == old(self).rules,
                self.initial_domains == old(self).initial_domains,
                self.seed == old(self).seed,
                self.random == old(self).random,
                cells == self.topology.spec_cell_count(),
                patterns == self.rules.spec_pattern_count(),
                directions == T::Direction::spec_count(),
                start == old(self).spec_domains(),
                total_candidates(start) <= usize::MAX,
                spec_shaped(start, cells, patterns),
                forall|i: int| 0 <= i < pending@.len() ==> #[trigger] pending@[i] < cells,
                forall|c: int, d: T::Direction|
                    0 <= c < cells && !queued(pending@, c)
                        ==> #[trigger] spec_arc_consistent_at(self.topology, self.rules, self.spec_domains(), c, d),
                spec_refines(self.spec_domains(), start),
                spec_keeps_consistent_refinements(self.topology, self.rules, start, self.spec_domains()),
                removed + total_candidates(self.spec_domains()) == total_candidates(start),
                spec_drain(self.topology, self.rules, self.spec_domains(), pending@) == goal,
                goal == spec_drain(old(self).topology, old(self).rules, start, given),
                given == queue@,
            decreases total_candidates(self.spec_domains()), pending@.len(),
        {
            let ghost queue_before = pending@;
            let source = pending.pop_front().unwrap();
            proof {
                assert(source == queue_before[0]);
                assert(pending@ =~= queue_before.drop_first());
                assert forall|c: int| queued(queue_before, c) && c != source implies queued(pending@, c) by {
                    let i = choose|i: int| 0 <= i < queue_before.len() && queue_before[i] as int == c;
                    assert(i > 0);
                    assert(pending@[i - 1] == queue_before[i]);
                }
                assert(forall|i: int| 0 <= i < pending@.len() ==> #[trigger] pending@[i] == queue_before[i + 1]);
                self.lemma_shaped();
                assert(domain_wf(self.domains@[source as int], patterns));
            }
            if self.domains[source].len == 0 {
                proof {
                    assert(count_true(self.spec_domains()[source as int]) == 0);
                    assert(spec_drain(self.topology, self.rules, self.spec_domains(), queue_before) == (
                        self.spec_domains(),
                        WfcStatus::Contradiction { cell: CellId(source) },
                    ));
                }
                self.status = WfcStatus::Contradiction { cell: CellId::new(source) };
                return removed;
            }
            let ghost total_at_pop = total_candidates(self.spec_domains());
            let ghost queue_len_at_pop = pending@.len();
            let mut di: usize = 0;
            while di < directions
                invariant
                    self.spec_well_shaped(),
                    self.topology == old(self).topology,
                    self.rules == old(self).rules,
                    self.initial_domains == old(self).initial_domains,
                    self.seed == old(self).seed,
                    self.random == old(self).random,
                    cells == self.topology.spec_cell_count(),
                    patterns == self.rules.spec_pattern_count(),
                    directions == T::Direction::spec_count(),
                    start == old(self).spec_domains(),
                    total_candidates(start) <= usize::MAX,
                    spec_shaped(start, cells, patterns),
                    source < cells,
                    di <= directions,
                    forall|i: int| 0 <= i < pending@.len() ==> #[trigger] pending@[i] < cells,
                    forall|c: int, d: T::Direction|
                        0 <= c < cells && c != source && !queued(pending@, c)
                            ==> #[trigger] spec_arc_consistent_at(self.topology, self.rules, self.spec_domains(), c, d),
                    queued(pending@, source as int) || forall|d: T::Direction|
                        d.spec_index() < di ==> #[trigger] spec_arc_consistent_at(self.topology, self.rules, self.spec_domains(), source as int, d),
                    spec_refines(self.spec_domains(), start),
                    spec_keeps_consistent_refinements(self.topology, self.rules, start, self.spec_domains()),
                    removed + total_candidates(self.spec_domains()) == total_candidates(start),
                    total_candidates(self.spec_domains()) < total_at_pop || pending@.len() == queue_len_at_pop,
                    total_candidates(self.spec_domains()) <= total_at_pop,
                    spec_visit(self.topology, self.rules, self.spec_domains(), pending@, source as int, di as nat) == goal,
                    given == queue@,
                    goal == spec_drain(old(self).topology, old(self).rules, start, given),
                decreases directions - di,
            {
                let direction = T::Direction::from_index(di);
                let ghost before = self.spec_domains();
                let ghost queue_mid = pending@;
                proof {
                    self.lemma_shaped();
                    assert(spec_shaped(before, cells, patterns));
                }
                let (touched, removed_here) = self.revise(source, direction);
                proof {
                    D_laws::<T>();
                    self.lemma_shaped();
                    lemma_refines_transitive(self.spec_domains(), before, start);
                    let after = self.spec_domains();
                    assert forall|e: Seq<Seq<bool>>|
                        spec_shaped(e, cells, patterns) && #[trigger] spec_refines(e, start)
                            && spec_arc_consistent(self.topology, self.rules, e) implies spec_refines(e, after) by {
                        assert(spec_refines(e, before));
                    }
                }
                removed = removed + removed_here;
                match touched {
                    None => {
                        proof {
                            if !queued(pending@, source as int) {
                                assert forall|d: T::Direction| d.spec_index() < di + 1
                                    implies #[trigger] spec_arc_consistent_at(self.topology, self.rules, self.spec_domains(), source as int, d) by {
                                    if d.spec_index() == di {
                                        assert(d == direction);
                                    }
                                }
                            }
                        }
                    },
                    Some(target) => {
                        proof {
                            let after = self.spec_domains();
                            assert forall|c: int, d: T::Direction|
                                0 <= c < cells && c != target && spec_arc_consistent_at(self.topology, self.rules, before, c, d)
                                    implies #[trigger] spec_arc_consistent_at(self.topology, self.rules, after, c, d) by {
                                lemma_arc_survives_shrink(self.topology, self.rules, before, after, target as int, c, d);
                            }
                            assert(domain_wf(self.domains@[target as int], patterns));
                        }
                        if self.domains[target].len == 0 {
                            proof {
                                let after = self.spec_domains();
                                assert(count_true(after[target as int]) == 0);
                                assert(direction == T::Direction::spec_from_index(di as nat));
                                assert(spec_revision_removes(self.topology, self.rules, before, source as int, direction));
                                assert(spec_visit(self.topology, self.rules, before, queue_mid, source as int, di as nat) == (
                                    after,
                                    WfcStatus::Contradiction { cell: CellId(target) },
                                ));
                            }
                            self.status = WfcStatus::Contradiction { cell: CellId::new(target) };
                            return removed;
                        }
                        pending.push_back(target);
                        proof {
                            let after = self.spec_domains();
                            assert(pending@ == queue_mid.push(target));
                            assert(pending@[queue_mid.len() as int] == target);
                            assert(queued(pending@, target as int));
                            assert forall|c: int| queued(queue_mid, c) implies queued(pending@, c) by {
                                let i = choose|i: int| 0 <= i < queue_mid.len() && queue_mid[i] as int == c;
                                assert(pending@[i] == queue_mid[i]);
                            }
                            assert forall|c: int, d: T::Direction|
                                0 <= c < cells && c != source && !queued(pending@, c)
                                    implies #[trigger] spec_arc_consistent_at(self.topology, self.rules, after, c, d) by {
                                assert(!queued(queue_mid, c));
                                assert(spec_arc_consistent_at(self.topology, self.rules, before, c, d));
                            }
                            if !queued(pending@, source as int) {
                                assert(!queued(queue_mid, source as int));
                                assert(source != target);
                                assert forall|d: T::Direction| d.spec_index() < di + 1
                                    implies #[trigger] spec_arc_consistent_at(self.topology, self.rules, after, source as int, d) by {
                                    if d.spec_index() == di {
                                        assert(d == direction);
                                    } else {
                                        assert(spec_arc_consistent_at(self.topology, self.rules, before, source as int, d));
                                    }
                                }
                            }
                        }
                    },
                }
                di += 1;
            }
            proof {
                D_laws::<T>();
                assert forall|c: int, d: T::Direction|
                    0 <= c < cells && !queued(pending@, c)
                        implies #[trigger] spec_arc_consistent_at(self.topology, self.rules, self.spec_domains(), c, d) by {
                    if c == source as int {
                        assert(d.spec_index() < directions);
                    }
                }
            }
        }
        proof {
            assert forall|c: int, d: T::Direction| 0 <= c < cells
                implies #[trigger] spec_arc_consistent_at(self.topology, self.rules, self.spec_domains(), c, d) by {
                assert(!queued(pending@, c));
            }
        }
        self.update_status();
        removed
    }
}

/// Whether `cell` waits in `queue`.
spec fn queued(queue: Seq<usize>, cell: int) -> bool {
    exists|i: int| 0 <= i < queue.len() && queue[i] as int == cell
}

/// The direction laws of a topology's direction set.
proof fn D_laws<T: Topology>()
    ensures
        0 < T::Direction::spec_count() <= usize::MAX,
        forall|d: T::Direction| #[trigger] d.spec_index() < T::Direction::spec_count(),
        forall|d: T::Direction| T::Direction::spec_from_index(#[trigger] d.spec_index()) == d,
        forall|i: nat| i < T::Direction::spec_count() ==> (#[trigger] T::Direction::spec_from_index(i)).spec_index() == i,
{
    T::Direction::lemma_direction_laws();
}

/// Refinement is transitive.
proof fn lemma_refines_transitive(a: Seq<Seq<bool>>, b: Seq<Seq<bool>>, c: Seq<Seq<bool>>)
    requires
        spec_refines(a, b),
        spec_refines(b, c),
    ensures
        spec_refines(a, c),
{
    assert forall|i: int, p: int| 0 <= i < a.len() && 0 <= p < a[i].len() && #[trigger] a[i][p]
        implies p < c[i].len() && c[i][p] by {
        assert(b[i][p]);
    }
}

/// Fewer flags set means a smaller count.
proof fn lemma_count_true_monotone(a: Seq<bool>, b: Seq<bool>)
    requires
        a.len() == b.len(),
        forall|i: int| 0 <= i < a.len() && a[i] ==> b[i],
    ensures
        count_true(a) <= count_true(b),
    decreases a.len(),
{
    if a.len() > 0 {
        assert forall|i: int| 0 <= i < a.drop_last().len() && a.drop_last()[i] implies b.drop_last()[i] by {
            assert(a.drop_last()[i] == a[i]);
            assert(b.drop_last()[i] == b[i]);
        }
        lemma_count_true_monotone(a.drop_last(), b.drop_last());
    }
}

/// Copies every domain.
fn duplicate_domains(domains: &Vec<Domain>) -> (r: Vec<Domain>)
    ensures
        r@.len() == domains@.len(),
        forall|c: int| 0 <= c < domains@.len() ==> (#[trigger] r@[c]).allowed@ == domains@[c].allowed@ && r@[c].len == domains@[c].len,
{
    let mut copy: Vec<Domain> = Vec::with_capacity(domains.len());
    let mut index: usize = 0;
    while index < domains.len()
        invariant
            index <= domains@.len(),
            copy@.len() == index,
            forall|c: int| 0 <= c < index ==> (#[trigger] copy@[c]).allowed@ == domains@[c].allowed@ && copy@[c].len == domains@[c].len,
        decreases domains@.len() - index,
    {
        copy.push(domains[index].duplicate());
        index += 1;
    }
    copy
}

/// Appending one flag adds it to the count.
proof fn lemma_count_true_push(s: Seq<bool>, b: bool)
    ensures
        count_true(s.push(b)) == count_true(s) + if b { 1nat } else { 0nat },
{
    assert(s.push(b).drop_last() =~= s);
}

/// The domains left by observing `pattern` at `cell`: that cell keeps only `pattern`.
pub open spec fn spec_observed(domains: Seq<Seq<bool>>, cell: int, pattern: int) -> Seq<Seq<bool>> {
    domains.update(cell, Seq::new(domains[cell].len(), |p: int| p == pattern && domains[cell][p]))
}

impl<T: Topology> Wfc<T> {
    /// Queues every cell and propagates to a fixed point.
    fn propagate_all(&mut self) -> (removed: usize)
        requires
            old(self).spec_well_shaped(),
        ensures
            final(self).spec_well_shaped(),
            final(self).topology == old(self).topology,
            final(self).rules == old(self).rules,
            final(self).initial_domains == old(self).initial_domains,
            final(self).seed == old(self).seed,
            final(self).random == old(self).random,
            spec_refines(final(self).spec_domains(), old(self).spec_domains()),
            spec_keeps_consistent_refinements(old(self).topology, old(self).rules, old(self).spec_domains(), final(self).spec_domains()),
            removed + total_candidates(final(self).spec_domains()) == total_candidates(old(self).spec_domains()),
            spec_status_consistent(final(self).topology, final(self).rules, final(self).spec_domains(), final(self).status),
            (final(self).spec_domains(), final(self).status) == spec_settle(old(self).topology, old(self).rules, old(self).spec_domains()),
    {
        let count = self.domains.len();
        let mut queue: VecDeque<usize> = VecDeque::with_capacity(count);
        let mut c: usize = 0;
        while c < count
            invariant
                count == self.topology.spec_cell_count(),
                c <= count,
                queue@.len() == c,
                forall|i: int| 0 <= i < c ==> #[trigger] queue@[i] == i,
            decreases count - c,
        {
            queue.push_back(c);
            c += 1;
        }
        proof {
            assert forall|k: int| 0 <= k < count implies queued(queue@, k) by {
                assert(queue@[k] == k);
            }
            assert(queue@ =~= Seq::new(self.topology.spec_cell_count(), |i: int| i as usize));
        }
        self.propagate_from(queue)
    }

    /// Starts a wave with application-defined initial candidate constraints: `pattern` is a
    /// candidate of `cell` when `initially_allowed(cell, pattern)` holds. The constraints are
    /// propagated at once; [`Self::restart`] restores exactly these constraints.
    ///
    /// The candidate flags take one byte per cell and pattern, so their number fits in memory.
    pub fn with_constraints(
        topology: T,
        rules: WfcRules<T::Direction>,
        seed: u64,
        initially_allowed: impl Fn(CellId, PatternId) -> bool,
    ) -> (r: Self)
        requires
            topology.spec_cell_count() * rules.spec_pattern_count() <= usize::MAX,
            forall|cell: CellId, pattern: PatternId| call_requires(initially_allowed, (cell, pattern)),
        ensures
            r.wf(),
            r.spec_topology() == topology,
            r.spec_rules() == rules,
            r.spec_seed() == seed,
            r.spec_random_state() == seed,
            forall|c: int, p: int|
                0 <= c < topology.spec_cell_count() && 0 <= p < rules.spec_pattern_count() ==> call_ensures(
                    initially_allowed,
                    (CellId(c as usize), PatternId(p as usize)),
                    #[trigger] r.spec_initial()[c][p],
                ),
            spec_keeps_consistent_refinements(topology, rules, r.spec_initial(), r.spec_domains()),
            r.spec_settled_start(),
    {
        let cells = topology.cell_count();
        let patterns = rules.pattern_count();
        let mut initial: Vec<Domain> = Vec::with_capacity(cells);
        let mut c: usize = 0;
        while c < cells
            invariant
                cells == topology.spec_cell_count(),
                patterns == rules.spec_pattern_count(),
                c <= cells,
                initial@.len() == c,
                forall|cell: CellId, pattern: PatternId| call_requires(initially_allowed, (cell, pattern)),
                forall|k: int| 0 <= k < c ==> #[trigger] domain_wf(initial@[k], patterns as nat),
                forall|k: int, p: int| 0 <= k < c && 0 <= p < patterns ==> call_ensures(
                    initially_allowed,
                    (CellId(k as usize), PatternId(p as usize)),
                    #[trigger] initial@[k].allowed@[p],
                ),
            decreases cells - c,
        {
            let mut allowed: Vec<bool> = Vec::with_capacity(patterns);
            let mut len: usize = 0;
            let mut p: usize = 0;
            while p < patterns
                invariant
                    p <= patterns,
                    allowed@.len() == p,
                    len == count_true(allowed@),
                    forall|cell: CellId, pattern: PatternId| call_requires(initially_allowed, (cell, pattern)),
                    forall|q: int| 0 <= q < p ==> call_ensures(
                        initially_allowed,
                        (CellId(c), PatternId(q as usize)),
                        #[trigger] allowed@[q],
                    ),
                decreases patterns - p,
            {
                let flag = initially_allowed(CellId::new(c), PatternId::new(p));
                proof {
                    lemma_count_true_push(allowed@, flag);
                    lemma_count_true_bounds(allowed@);
                }
                allowed.push(flag);
                if flag {
                    len = len + 1;
                }
                p += 1;
            }
            initial.push(Domain { allowed, len });
            c += 1;
        }
        let domains = duplicate_domains(&initial);
        let mut wave = Wfc {
            topology,
            rules,
            initial_domains: initial,
            domains,
            status: WfcStatus::Running,
            seed,
            random: SplitMix64::new(seed),
        };
        proof {
            assert forall|k: int| 0 <= k < cells implies #[trigger] domain_wf(wave.domains@[k], patterns as nat) by {
                assert(domain_wf(wave.initial_domains@[k], patterns as nat));
            }
            assert(wave.spec_domains() =~= wave.spec_initial());
        }
        wave.propagate_all();
        proof {
            wave.lemma_shaped();
        }
        wave
    }

    /// Starts a wave with every pattern initially allowed in every cell.
    pub fn new(topology: T, rules: WfcRules<T::Direction>, seed: u64) -> (r: Self)
        requires
            topology.spec_cell_count() * rules.spec_pattern_count() <= usize::MAX,
        ensures
            r.wf(),
            r.spec_topology() == topology,
            r.spec_rules() == rules,
            r.spec_seed() == seed,
            r.spec_random_state() == seed,
            forall|c: int, p: int|
                0 <= c < topology.spec_cell_count() && 0 <= p < rules.spec_pattern_count() ==> #[trigger] r.spec_initial()[c][p],
            spec_keeps_consistent_refinements(topology, rules, r.spec_initial(), r.spec_domains()),
            r.spec_settled_start(),
    {
        let everything = |cell: CellId, pattern: PatternId| -> (b: bool)
            ensures
                b,
        { true };
        Self::with_constraints(topology, rules, seed, everything)
    }

    /// Restores the initial constraints, propagates them again, and restarts the random
    /// generator from `seed`. Returns the new status.
    pub fn restart(&mut self, seed: u64) -> (r: WfcStatus)
        requires
            old(self).wf(),
        ensures
            final(self).wf(),
            final(self).spec_topology() == old(self).spec_topology(),
            final(self).spec_rules() == old(self).spec_rules(),
            final(self).spec_initial() == old(self).spec_initial(),
            final(self).spec_seed() == seed,
            final(self).spec_random_state() == seed,
            spec_keeps_consistent_refinements(final(self).spec_topology(), final(self).spec_rules(), final(self).spec_initial(), final(self).spec_domains()),
            final(self).spec_settled_start(),
            r == final(self).spec_status(),
    {
        proof {
            self.lemma_shaped();
        }
        self.seed = seed;
        self.random = SplitMix64::new(seed);
        self.domains = duplicate_domains(&self.initial_domains);
        self.status = WfcStatus::Running;
        proof {
            let patterns = self.rules.spec_pattern_count();
            assert forall|k: int| 0 <= k < self.topology.spec_cell_count() implies #[trigger] domain_wf(self.domains@[k], patterns) by {
                assert(domain_wf(self.initial_domains@[k], patterns));
            }
            assert(self.spec_domains() =~= self.spec_initial());
        }
        self.propagate_all();
        proof {
            self.lemma_shaped();
        }
        self.status
    }
}

impl<T: Topology> Wfc<T> {
    /// Observes `pattern` at `cell`: every other candidate of that cell is removed, then the
    /// removal is propagated to a fixed point. Nothing happens, and `None` comes back, unless
    /// the wave is running and `pattern` is a candidate of `cell`.
    pub fn observe(&mut self, cell: CellId, pattern: PatternId) -> (r: Option<WfcStep>)
        requires
            old(self).wf(),
        ensures
            final(self).wf(),
            final(self).spec_topology() == old(self).spec_topology(),
            final(self).spec_rules() == old(self).spec_rules(),
            final(self).spec_initial() == old(self).spec_initial(),
            final(self).spec_seed() == old(self).spec_seed(),
            final(self).spec_random_state() == old(self).spec_random_state(),
            r is Some <==> {
                &&& old(self).spec_status() == WfcStatus::Running
                &&& cell.0 < old(self).spec_topology().spec_cell_count()
                &&& pattern.0 < old(self).spec_rules().spec_pattern_count()
                &&& old(self).spec_domains()[cell.0 as int][pattern.0 as int]
            },
            r is None ==> final(self).spec_domains() == old(self).spec_domains() && final(self).spec_status()
                == old(self).spec_status(),
            r matches Some(step) ==> {
                let observed = spec_observed(old(self).spec_domains(), cell.0 as int, pattern.0 as int);
                &&& step.cell == cell
                &&& step.pattern == pattern
                &&& step.status == final(self).spec_status()
                &&& step.removed_candidates + total_candidates(final(self).spec_domains()) == total_candidates(
                    old(self).spec_domains(),
                )
                &&& spec_refines(final(self).spec_domains(), observed)
                &&& spec_keeps_consistent_refinements(
                    final(self).spec_topology(),
                    final(self).spec_rules(),
                    observed,
                    final(self).spec_domains(),
                )
                &&& (final(self).spec_domains(), final(self).spec_status()) == spec_drain(
                    old(self).spec_topology(),
                    old(self).spec_rules(),
                    observed,
                    seq![cell.0],
                )
            },
    {
        proof {
            self.lemma_shaped();
        }
        if self.status != WfcStatus::Running {
            return None;
        }
        let cells = self.domains.len();
        let patterns = self.rules.pattern_count();
        let c = cell.index();
        let chosen = pattern.index();
        if c >= cells || chosen >= patterns {
            return None;
        }
        proof {
            assert(domain_wf(self.domains@[c as int], patterns as nat));
        }
        if !self.domains[c].allowed[chosen] {
            return None;
        }
        let ghost before = self.spec_domains();
        let ghost cell_before = self.domains@[c as int].allowed@;
        let only_chosen = |candidate: PatternId| -> (kept: bool)
            ensures
                kept == (candidate.0 == chosen),
        {
            candidate.index() == chosen
        };
        let removed_by_observation = self.domains[c].retain(only_chosen);
        let ghost observed = spec_observed(before, c as int, chosen as int);
        proof {
            assert forall|k: int| 0 <= k < patterns implies #[trigger] self.domains@[c as int].allowed@[k] == (cell_before[k] && k
                == chosen) by {
                if cell_before[k] {
                    assert(PatternId(k as usize).0 == k);
                }
            }
            let after = self.spec_domains();
            assert(after[c as int] =~= observed[c as int]);
            assert(after =~= observed);
            assert(after =~= before.update(c as int, self.domains@[c as int].allowed@));
            lemma_total_update(before, c as int, self.domains@[c as int].allowed@);
            assert forall|k: int| 0 <= k < cells implies #[trigger] domain_wf(self.domains@[k], patterns as nat) by {}
            self.lemma_shaped();
            assert(spec_refines(observed, before));
            assert forall|k: int, d: T::Direction|
                0 <= k < cells && !queued(seq![c], k)
                    implies #[trigger] spec_arc_consistent_at(self.topology, self.rules, observed, k, d) by {
                if k == c as int {
                    assert(seq![c][0] == c);
                }
                assert(spec_arc_consistent_at(self.topology, self.rules, before, k, d));
                lemma_arc_survives_shrink(self.topology, self.rules, before, observed, c as int, k, d);
            }
        }
        let mut queue: VecDeque<usize> = VecDeque::with_capacity(1);
        queue.push_back(c);
        proof {
            assert(queue@ =~= seq![c]);
        }
        let removed_by_propagation = self.propagate_from(queue);
        proof {
            lemma_refines_transitive(self.spec_domains(), observed, before);
            lemma_refines_transitive(self.spec_domains(), before, self.spec_initial());
            self.lemma_shaped();
        }
        Some(WfcStep {
            cell,
            pattern,
            removed_candidates: removed_by_observation + removed_by_propagation,
            status: self.status,
        })
    }
}

/// `listed` names, in increasing order, exactly the positions whose flag is set.
pub open spec fn spec_lists_flags(listed: Seq<usize>, flags: Seq<bool>) -> bool {
    &&& forall|i: int, j: int| 0 <= i < j < listed.len() ==> listed[i] < listed[j]
    &&& forall|i: int| 0 <= i < listed.len() ==> listed[i] < flags.len() && #[trigger] flags[listed[i] as int]
    &&& forall|p: int| 0 <= p < flags.len() && #[trigger] flags[p] ==> exists|i: int| 0 <= i < listed.len() && listed[i] == p
}

/// Lists, in increasing order, the positions whose flag is set.
fn list_flags(flags: &Vec<bool>) -> (r: Vec<usize>)
    ensures
        spec_lists_flags(r@, flags@),
        r@.len() == count_true(flags@),
{
    let mut listed: Vec<usize> = Vec::new();
    let mut p: usize = 0;
    while p < flags.len()
        invariant
            p <= flags@.len(),
            spec_lists_flags(listed@, flags@.subrange(0, p as int)),
            forall|i: int| 0 <= i < listed@.len() ==> #[trigger] listed@[i] < p,
            listed@.len() == count_true(flags@.subrange(0, p as int)),
        decreases flags@.len() - p,
    {
        let ghost prefix = flags@.subrange(0, p as int);
        let ghost next = flags@.subrange(0, p as int + 1);
        proof {
            assert(next.drop_last() =~= prefix);
            assert(forall|k: int| 0 <= k < p ==> next[k] == prefix[k]);
        }
        if flags[p] {
            let ghost old_listed = listed@;
            listed.push(p);
            proof {
                assert forall|k: int| 0 <= k < next.len() && #[trigger] next[k]
                    implies exists|i: int| 0 <= i < listed@.len() && listed@[i] == k by {
                    if k < p {
                        assert(prefix[k]);
                        let i = choose|i: int| 0 <= i < old_listed.len() && old_listed[i] == k;
                        assert(listed@[i] == k);
                    } else {
                        assert(listed@[old_listed.len() as int] == k);
                    }
                }
            }
        } else {
            proof {
                assert forall|k: int| 0 <= k < next.len() && #[trigger] next[k]
                    implies exists|i: int| 0 <= i < listed@.len() && listed@[i] == k by {
                    assert(prefix[k]);
                }
            }
        }
        p += 1;
    }
    proof {
        assert(flags@.subrange(0, flags@.len() as int) =~= flags@);
    }
    listed
}

impl<T: Topology> Wfc<T> {
    pub fn status(&self) -> (r: WfcStatus)
        ensures
            r == self.spec_status(),
    {
        self.status
    }

    pub fn seed(&self) -> (r: u64)
        ensures
            r == self.spec_seed(),
    {
        self.seed
    }

    pub fn topology(&self) -> (r: &T)
        ensures
            *r == self.spec_topology(),
    {
        &self.topology
    }

    pub fn rules(&self) -> (r: &WfcRules<T::Direction>)
        ensures
            *r == self.spec_rules(),
    {
        &self.rules
    }

    /// The number of candidates left in `cell`, or `None` for a cell outside the topology.
    pub fn candidate_count(&self, cell: CellId) -> (r: Option<usize>)
        requires
            self.wf(),
        ensures
            r is Some <==> cell.0 < self.spec_topology().spec_cell_count(),
            r matches Some(n) ==> n == count_true(self.spec_domains()[cell.0 as int]),
    {
        proof {
            self.lemma_shaped();
        }
        if cell.index() >= self.domains.len() {
            return None;
        }
        proof {
            assert(domain_wf(self.domains@[cell.0 as int], self.rules.spec_pattern_count()));
        }
        Some(self.domains[cell.index()].len)
    }

    /// The candidates left in `cell`, in increasing order, or `None` for a cell outside the
    /// topology.
    pub fn candidates(&self, cell: CellId) -> (r: Option<Vec<PatternId>>)
        requires
            self.wf(),
        ensures
            r is Some <==> cell.0 < self.spec_topology().spec_cell_count(),
            r matches Some(list) ==> spec_lists_flags(
                list@.map_values(|p: PatternId| p.0),
                self.spec_domains()[cell.0 as int],
            ),
    {
        proof {
            self.lemma_shaped();
        }
        if cell.index() >= self.domains.len() {
            return None;
        }
        let indices = list_flags(&self.domains[cell.index()].allowed);
        let mut list: Vec<PatternId> = Vec::with_capacity(indices.len());
        let mut i: usize = 0;
        while i < indices.len()
            invariant
                i <= indices@.len(),
                list@.len() == i,
                forall|k: int| 0 <= k < i ==> (#[trigger] list@[k]).0 == indices@[k],
            decreases indices@.len() - i,
        {
            list.push(PatternId::new(indices[i]));
            i += 1;
        }
        proof {
            assert(list@.map_values(|p: PatternId| p.0) =~= indices@);
        }
        Some(list)
    }

    /// The single candidate of a collapsed `cell`; `None` when the cell has zero or several
    /// candidates or lies outside the topology.
    pub fn collapsed_pattern(&self, cell: CellId) -> (r: Option<PatternId>)
        requires
            self.wf(),
        ensures
            r is Some <==> cell.0 < self.spec_topology().spec_cell_count() && count_true(
                self.spec_domains()[cell.0 as int],
            ) == 1,
            r matches Some(p) ==> p.0 < self.spec_rules().spec_pattern_count()
                && self.spec_domains()[cell.0 as int][p.0 as int],
    {
        proof {
            self.lemma_shaped();
        }
        if cell.index() >= self.domains.len() {
            return None;
        }
        let c = cell.index();
        proof {
            assert(domain_wf(self.domains@[c as int], self.rules.spec_pattern_count()));
        }
        if self.domains[c].len != 1 {
            return None;
        }
        let patterns = self.domains[c].allowed.len();
        proof {
            assert(self.spec_domains()[c as int] == self.domains@[c as int].allowed@);
        }
        let mut p: usize = 0;
        while p < patterns
            invariant
                p <= patterns,
                c == cell.0,
                c < self.domains@.len(),
                c < self.spec_topology().spec_cell_count(),
                patterns == self.rules.spec_pattern_count(),
                patterns == self.domains@[c as int].allowed@.len(),
                self.domains@[c as int].allowed@ == self.spec_domains()[c as int],
                count_true(self.domains@[c as int].allowed@) == 1,
                forall|k: int| 0 <= k < p ==> !(#[trigger] self.domains@[c as int].allowed@[k]),
            decreases patterns - p,
        {
            if self.domains[c].allowed[p] {
                return Some(PatternId::new(p));
            }
            p += 1;
        }
        proof {
            lemma_count_true_bounds(self.domains@[c as int].allowed@);
        }
        None
    }

    /// The cells that still have more than one candidate, in increasing order: the cells an
    /// observation may choose from.
    pub fn observable_cells(&self) -> (r: Vec<CellId>)
        requires
            self.wf(),
        ensures
            forall|i: int, j: int| 0 <= i < j < r@.len() ==> r@[i].0 < r@[j].0,
            forall|i: int| 0 <= i < r@.len() ==> (#[trigger] r@[i]).0 < self.spec_topology().spec_cell_count()
                && count_true(self.spec_domains()[r@[i].0 as int]) > 1,
            forall|c: int| 0 <= c < self.spec_topology().spec_cell_count() && count_true(#[trigger] self.spec_domains()[c]) > 1
                ==> exists|i: int| 0 <= i < r@.len() && r@[i].0 == c,
            self.spec_status() == WfcStatus::Running ==> r@.len() > 0,
    {
        proof {
            self.lemma_shaped();
        }
        let count = self.domains.len();
        let mut cells: Vec<CellId> = Vec::new();
        let mut c: usize = 0;
        while c < count
            invariant
                self.wf(),
                count == self.spec_topology().spec_cell_count(),
                c <= count,
                forall|k: int| 0 <= k < count ==> #[trigger] self.spec_domains()[k] == self.domains@[k].allowed@,
                forall|k: int| 0 <= k < count ==> #[trigger] domain_wf(self.domains@[k], self.rules.spec_pattern_count()),
                forall|i: int, j: int| 0 <= i < j < cells@.len() ==> cells@[i].0 < cells@[j].0,
                forall|i: int| 0 <= i < cells@.len() ==> (#[trigger] cells@[i]).0 < c
                    && count_true(self.spec_domains()[cells@[i].0 as int]) > 1,
                forall|k: int| 0 <= k < c && count_true(#[trigger] self.spec_domains()[k]) > 1
                    ==> exists|i: int| 0 <= i < cells@.len() && cells@[i].0 == k,
            decreases count - c,
        {
            proof {
                assert(domain_wf(self.domains@[c as int], self.rules.spec_pattern_count()));
            }
            if self.domains[c].len > 1 {
                let ghost old_cells = cells@;
                cells.push(CellId::new(c));
                proof {
                    assert forall|k: int| 0 <= k < c + 1 && count_true(#[trigger] self.spec_domains()[k]) > 1
                        implies exists|i: int| 0 <= i < cells@.len() && cells@[i].0 == k by {
                        if k < c {
                            let i = choose|i: int| 0 <= i < old_cells.len() && old_cells[i].0 == k;
                            assert(cells@[i].0 == k);
                        } else {
                            assert(cells@[old_cells.len() as int].0 == k);
                        }
                    }
                }
            }
            c += 1;
        }
        proof {
            if self.spec_status() == WfcStatus::Running {
                let domains = self.spec_domains();
                let cells_count = self.spec_topology().spec_cell_count();
                let k = choose|k: int| 0 <= k < cells_count && !(#[trigger] count_true(domains[k]) == 1);
                assert(count_true(domains[k]) >= 1);
                assert(count_true(domains[k]) > 1);
            }
        }
        cells
    }

    /// Advances the wave's random generator and scales its output into `[0, upper)`.
    pub fn random_index(&mut self, upper: usize) -> (r: usize)
        requires
            old(self).wf(),
            upper > 0,
        ensures
            final(self).wf(),
            final(self).spec_topology() == old(self).spec_topology(),
            final(self).spec_rules() == old(self).spec_rules(),
            final(self).spec_initial() == old(self).spec_initial(),
            final(self).spec_domains() == old(self).spec_domains(),
            final(self).spec_status() == old(self).spec_status(),
            final(self).spec_seed() == old(self).spec_seed(),
            final(self).spec_random_state() == old(self).spec_random_state().wrapping_add(splitmix_gamma()),
            r == scaled_index(splitmix_mix(final(self).spec_random_state()), upper),
            r < upper,
    {
        self.random.index(upper)
    }

    /// Advances the wave's random generator and returns its next 64-bit output.
    pub fn random_u64(&mut self) -> (r: u64)
        requires
            old(self).wf(),
        ensures
            final(self).wf(),
            final(self).spec_topology() == old(self).spec_topology(),
            final(self).spec_rules() == old(self).spec_rules(),
            final(self).spec_initial() == old(self).spec_initial(),
            final(self).spec_domains() == old(self).spec_domains(),
            final(self).spec_status() == old(self).spec_status(),
            final(self).spec_seed() == old(self).spec_seed(),
            final(self).spec_random_state() == old(self).spec_random_state().wrapping_add(splitmix_gamma()),
            r == splitmix_mix(final(self).spec_random_state()),
    {
        self.random.next_u64()
    }
}

/// Two sequences of candidate flags of the same shape that refine each other are equal.
proof fn lemma_mutual_refinement_equal(a: Seq<Seq<bool>>, b: Seq<Seq<bool>>, cells: nat, patterns: nat)
    requires
        spec_shaped(a, cells, patterns),
        spec_shaped(b, cells, patterns),
        spec_refines(a, b),
        spec_refines(b, a),
    ensures
        a == b,
{
    assert forall|c: int| 0 <= c < cells implies #[trigger] a[c] == b[c] by {
        assert forall|p: int| 0 <= p < patterns implies a[c][p] == b[c][p] by {
            if a[c][p] {
                assert(b[c][p]);
            }
            if b[c][p] {
                assert(a[c][p]);
            }
        }
        assert(a[c] =~= b[c]);
    }
    assert(a =~= b);
}

/// A cell left empty by a wave that keeps every arc-consistent refinement is empty in each
/// of those refinements too.
proof fn lemma_empty_cell_stays_empty<T: Topology>(
    wave: Wfc<T>,
    e: Seq<Seq<bool>>,
    cell: int,
)
    requires
        wave.wf(),
        spec_keeps_consistent_refinements(wave.spec_topology(), wave.spec_rules(), wave.spec_initial(), wave.spec_domains()),
        spec_shaped(e, wave.spec_topology().spec_cell_count(), wave.spec_rules().spec_pattern_count()),
        spec_refines(e, wave.spec_initial()),
        spec_arc_consistent(wave.spec_topology(), wave.spec_rules(), e),
        0 <= cell < wave.spec_topology().spec_cell_count(),
        count_true(wave.spec_domains()[cell]) == 0,
    ensures
        count_true(e[cell]) == 0,
{
    assert(spec_refines(e, wave.spec_domains()));
    lemma_count_true_bounds(wave.spec_domains()[cell]);
    assert forall|p: int| 0 <= p < e[cell].len() implies !e[cell][p] by {
        if e[cell][p] {
            assert(wave.spec_domains()[cell][p]);
        }
    }
    lemma_count_true_bounds(e[cell]);
}

/// Propagation does not depend on the order in which cells were revised: two waves over the
/// same topology, rules and initial constraints whose propagation kept every arc-consistent
/// refinement agree on whether they hit a contradiction, and when neither did they hold the
/// same candidates and the same status.
pub proof fn lemma_propagation_result_is_unique<T: Topology>(a: Wfc<T>, b: Wfc<T>)
    requires
        a.wf(),
        b.wf(),
        a.spec_topology() == b.spec_topology(),
        a.spec_rules() == b.spec_rules(),
        a.spec_initial() == b.spec_initial(),
        spec_keeps_consistent_refinements(a.spec_topology(), a.spec_rules(), a.spec_initial(), a.spec_domains()),
        spec_keeps_consistent_refinements(b.spec_topology(), b.spec_rules(), b.spec_initial(), b.spec_domains()),
    ensures
        (a.spec_status() is Contradiction) == (b.spec_status() is Contradiction),
        !(a.spec_status() is Contradiction) ==> a.spec_domains() == b.spec_domains() && a.spec_status()
            == b.spec_status(),
{
    let cells = a.spec_topology().spec_cell_count();
    let patterns = a.spec_rules().spec_pattern_count();
    if let WfcStatus::Contradiction { cell } = a.spec_status() {
        if !(b.spec_status() is Contradiction) {
            assert(spec_refines(b.spec_domains(), a.spec_initial()));
            lemma_empty_cell_stays_empty(a, b.spec_domains(), cell.0 as int);
            assert(count_true(b.spec_domains()[cell.0 as int]) >= 1);
        }
    } else if let WfcStatus::Contradiction { cell } = b.spec_status() {
        assert(spec_refines(a.spec_domains(), b.spec_initial()));
        lemma_empty_cell_stays_empty(b, a.spec_domains(), cell.0 as int);
        assert(count_true(a.spec_domains()[cell.0 as int]) >= 1);
    } else {
        assert(spec_refines(b.spec_domains(), a.spec_initial()));
        assert(spec_refines(a.spec_domains(), b.spec_initial()));
        lemma_mutual_refinement_equal(a.spec_domains(), b.spec_domains(), cells, patterns);
        if a.spec_status() == WfcStatus::Solved {
            assert(b.spec_status() == WfcStatus::Solved);
        }
        if b.spec_status() == WfcStatus::Solved {
            assert(a.spec_status() == WfcStatus::Solved);
        }
    }
}

/// A fresh start is determined by its inputs: two waves over the same topology, rules and
/// initial constraints that both hold a fresh start have the same candidates and the same
/// status, down to the cell a contradiction names. So [`Wfc::restart`] gives back the
/// candidates and the status that [`Wfc::with_constraints`] built from the same inputs.
pub proof fn lemma_fresh_start_is_determined<T: Topology>(a: Wfc<T>, b: Wfc<T>)
    requires
        a.spec_settled_start(),
        b.spec_settled_start(),
        a.spec_topology() == b.spec_topology(),
        a.spec_rules() == b.spec_rules(),
        a.spec_initial() == b.spec_initial(),
    ensures
        a.spec_domains() == b.spec_domains(),
        a.spec_status() == b.spec_status(),
{
}

/// A contradiction is reported only when the constraints admit no way out: every
/// arc-consistent choice of candidates within the initial constraints leaves the named cell
/// empty, so in particular no complete compatible assignment exists.
pub proof fn lemma_contradiction_has_no_consistent_refinement<T: Topology>(wave: Wfc<T>, e: Seq<Seq<bool>>)
    requires
        wave.wf(),
        spec_keeps_consistent_refinements(wave.spec_topology(), wave.spec_rules(), wave.spec_initial(), wave.spec_domains()),
        wave.spec_status() is Contradiction,
        spec_shaped(e, wave.spec_topology().spec_cell_count(), wave.spec_rules().spec_pattern_count()),
        spec_refines(e, wave.spec_initial()),
        spec_arc_consistent(wave.spec_topology(), wave.spec_rules(), e),
    ensures
        wave.spec_status() matches WfcStatus::Contradiction { cell } && count_true(e[cell.0 as int]) == 0,
{
    if let WfcStatus::Contradiction { cell } = wave.spec_status() {
        lemma_empty_cell_stays_empty(wave, e, cell.0 as int);
    }
}

/// A solved wave is a complete compatible assignment: every cell holds one pattern, and for
/// every ordered neighbor relationship the rules allow the neighbor's pattern next to the
/// cell's pattern in that direction.
pub proof fn lemma_solved_wave_is_compatible<T: Topology>(
    wave: Wfc<T>,
    cell: int,
    direction: T::Direction,
    source_pattern: int,
    neighbor_pattern: int,
)
    requires
        wave.wf(),
        wave.spec_status() == WfcStatus::Solved,
        0 <= cell < wave.spec_topology().spec_cell_count(),
        0 <= source_pattern < wave.spec_rules().spec_pattern_count(),
        0 <= neighbor_pattern < wave.spec_rules().spec_pattern_count(),
        wave.spec_domains()[cell][source_pattern],
        wave.spec_topology().spec_neighbor(CellId(cell as usize), direction) matches Some(target)
            && wave.spec_domains()[target.0 as int][neighbor_pattern],
    ensures
        count_true(wave.spec_domains()[cell]) == 1,
        wave.spec_rules().spec_allows(direction, source_pattern, neighbor_pattern),
{
    let topology = wave.spec_topology();
    let rules = wave.spec_rules();
    let domains = wave.spec_domains();
    let patterns = rules.spec_pattern_count();
    topology.lemma_neighbor_in_range(CellId(cell as usize), direction);
    let target = topology.spec_neighbor(CellId(cell as usize), direction).unwrap();
    let t = target.0 as int;
    assert(spec_arc_consistent_at(topology, rules, domains, cell, direction));
    assert(spec_supported(rules, domains, cell, t, direction, neighbor_pattern));
    assert(count_true(domains[cell]) == 1);
    assert(domains[cell].len() == patterns);
    lemma_count_true_one(domains[cell], source_pattern);
    if cell != t {
        let q = choose|q: int| 0 <= q < patterns && #[trigger] domains[cell][q] && rules.spec_allows(direction, q, neighbor_pattern);
        assert(q == source_pattern);
    } else {
        assert(neighbor_pattern == source_pattern);
    }
}

} // verus!
