//! The symmetry groups of the square (D4) and of the pointy-top hexagon (D6).
use vstd::prelude::*;

use crate::spatial::{Coord2, fits_i32};
use crate::topology::{
    Direction, HexDirection, SquareDirection, hex_from_index, hex_index, square_from_index,
    square_index, square_offset,
};

verus! {

/// Clockwise quarter-turn rotations in screen coordinates (`x` right, `y` down).
#[derive(Clone, Copy, Debug, Default, PartialEq, Eq, PartialOrd, Ord, Hash, Structural)]
pub enum QuarterTurns {
    #[default]
    Zero,
    One,
    Two,
    Three,
}

/// The number of quarter turns.
pub open spec fn quarter_count(rotation: QuarterTurns) -> int {
    match rotation {
        QuarterTurns::Zero => 0,
        QuarterTurns::One => 1,
        QuarterTurns::Two => 2,
        QuarterTurns::Three => 3,
    }
}

/// The rotation by `count` quarter turns, taken modulo four.
pub open spec fn quarter_from_count(count: int) -> QuarterTurns {
    let c = count % 4;
    if c == 0 {
        QuarterTurns::Zero
    } else if c == 1 {
        QuarterTurns::One
    } else if c == 2 {
        QuarterTurns::Two
    } else {
        QuarterTurns::Three
    }
}

impl QuarterTurns {
    /// Every rotation, from zero to three quarter turns.
    pub fn all() -> (r: Vec<QuarterTurns>)
        ensures
            r@.len() == 4,
            forall|i: int| 0 <= i < 4 ==> quarter_count(#[trigger] r@[i]) == i,
    {
        vec![QuarterTurns::Zero, QuarterTurns::One, QuarterTurns::Two, QuarterTurns::Three]
    }

    fn count(self) -> (r: u8)
        ensures
            r == quarter_count(self),
    {
        match self {
            QuarterTurns::Zero => 0,
            QuarterTurns::One => 1,
            QuarterTurns::Two => 2,
            QuarterTurns::Three => 3,
        }
    }

    fn from_count(count: u8) -> (r: Self)
        ensures
            r == quarter_from_count(count as int),
    {
        match count % 4 {
            0 => QuarterTurns::Zero,
            1 => QuarterTurns::One,
            2 => QuarterTurns::Two,
            _ => QuarterTurns::Three,
        }
    }
}

/// One of the eight symmetries of a square.
///
/// A reflected transform first mirrors `x` across the vertical axis, then applies its
/// clockwise rotation. Transformations act around the origin.
#[derive(Clone, Copy, Debug, Default, PartialEq, Eq, PartialOrd, Ord, Hash, Structural)]
pub struct D4 {
    pub rotation: QuarterTurns,
    pub reflected: bool,
}

/// The square symmetry with the given rotation and reflection flag.
pub open spec fn d4(rotation: QuarterTurns, reflected: bool) -> D4 {
    D4 { rotation, reflected }
}

/// The `i`-th entry of `D4::all`: the rotations first, then the reflected rotations.
pub open spec fn d4_listed(i: int) -> D4 {
    d4(quarter_from_count(i % 4), i >= 4)
}

/// The identity symmetry of the square.
pub open spec fn d4_identity() -> D4 {
    d4(QuarterTurns::Zero, false)
}

/// The action of a square symmetry on an integer vector.
pub open spec fn d4_act(t: D4, v: (int, int)) -> (int, int) {
    let x = if t.reflected { -v.0 } else { v.0 };
    let y = v.1;
    match t.rotation {
        QuarterTurns::Zero => (x, y),
        QuarterTurns::One => (-y, x),
        QuarterTurns::Two => (-x, -y),
        QuarterTurns::Three => (y, -x),
    }
}

/// Whether `checked_apply` succeeds: no component equal to `i32::MIN` is negated on the way.
pub open spec fn d4_apply_defined(t: D4, v: Coord2) -> bool {
    &&& (t.reflected || t.rotation == QuarterTurns::Two || t.rotation == QuarterTurns::Three)
        ==> v.x != i32::MIN
    &&& (t.rotation == QuarterTurns::One || t.rotation == QuarterTurns::Two) ==> v.y != i32::MIN
}

/// The result of `checked_apply`.
pub open spec fn d4_checked_apply(t: D4, v: Coord2) -> Option<Coord2> {
    if d4_apply_defined(t, v) {
        let w = d4_act(t, (v.x as int, v.y as int));
        Some(Coord2 { x: w.0 as i32, y: w.1 as i32 })
    } else {
        None
    }
}

/// The action of a square symmetry on the four directions.
pub open spec fn d4_apply_direction(t: D4, d: SquareDirection) -> SquareDirection {
    let i = square_index(d) as int;
    let mirrored = if t.reflected { (4 - i) % 4 } else { i };
    square_from_index(mirrored + quarter_count(t.rotation))
}

/// The composition `a` after `b`.
pub open spec fn d4_compose(a: D4, b: D4) -> D4 {
    let rotation = if a.reflected {
        quarter_count(a.rotation) - quarter_count(b.rotation) + 4
    } else {
        quarter_count(a.rotation) + quarter_count(b.rotation)
    };
    d4(quarter_from_count(rotation), a.reflected != b.reflected)
}

/// The inverse symmetry.
pub open spec fn d4_inverse(t: D4) -> D4 {
    let rotation = if t.reflected {
        quarter_count(t.rotation)
    } else {
        4 - quarter_count(t.rotation)
    };
    d4(quarter_from_count(rotation), t.reflected)
}

/// The sample order of a square edge: left to right for north and south, top to
/// bottom for east and west.
pub open spec fn square_edge_tangent(d: SquareDirection) -> (int, int) {
    match d {
        SquareDirection::North | SquareDirection::South => (1, 0),
        SquareDirection::East | SquareDirection::West => (0, 1),
    }
}

/// Whether the edge facing `local` is read backwards after the transform carries it to
/// its world direction.
pub open spec fn d4_reverses_edge(t: D4, local: SquareDirection) -> bool {
    let moved = d4_act(t, square_edge_tangent(local));
    let canonical = square_edge_tangent(d4_apply_direction(t, local));
    moved == (-canonical.0, -canonical.1)
}

impl D4 {
    /// The identity.
    pub fn identity() -> (r: Self)
        ensures
            r == d4_identity(),
    {
        D4 { rotation: QuarterTurns::Zero, reflected: false }
    }

    /// All eight symmetries: the four rotations, then the four reflected rotations.
    pub fn all() -> (r: Vec<D4>)
        ensures
            r@.len() == 8,
            forall|i: int|
                0 <= i < 8 ==> #[trigger] r@[i] == d4_listed(i),
    {
        let r = vec![
            D4::new(QuarterTurns::Zero, false),
            D4::new(QuarterTurns::One, false),
            D4::new(QuarterTurns::Two, false),
            D4::new(QuarterTurns::Three, false),
            D4::new(QuarterTurns::Zero, true),
            D4::new(QuarterTurns::One, true),
            D4::new(QuarterTurns::Two, true),
            D4::new(QuarterTurns::Three, true),
        ];
        assert(forall|i: int|
            0 <= i < 8 ==> #[trigger] r@[i] == d4_listed(i));
        r
    }

    pub fn new(rotation: QuarterTurns, reflected: bool) -> (r: Self)
        ensures
            r == d4(rotation, reflected),
    {
        D4 { rotation, reflected }
    }

    pub fn rotation(self) -> (r: QuarterTurns)
        ensures
            r == self.rotation,
    {
        self.rotation
    }

    pub fn is_reflected(self) -> (r: bool)
        ensures
            r == self.reflected,
    {
        self.reflected
    }

    /// Applies the transform to a displacement, returning `None` on signed overflow.
    pub fn checked_apply(self, vector: Coord2) -> (r: Option<Coord2>)
        ensures
            r == d4_checked_apply(self, vector),
    {
        let mut x = vector.x;
        let y = vector.y;
        if self.reflected {
            if x == i32::MIN {
                return None;
            }
            x = -x;
        }
        match self.rotation {
            QuarterTurns::Zero => Some(Coord2::new(x, y)),
            QuarterTurns::One => {
                if y == i32::MIN {
                    return None;
                }
                Some(Coord2::new(-y, x))
            },
            QuarterTurns::Two => {
                if x == i32::MIN || y == i32::MIN {
                    return None;
                }
                Some(Coord2::new(-x, -y))
            },
            QuarterTurns::Three => {
                if x == i32::MIN {
                    return None;
                }
                Some(Coord2::new(y, -x))
            },
        }
    }

    pub fn apply_direction(self, direction: SquareDirection) -> (r: SquareDirection)
        ensures
            r == d4_apply_direction(self, direction),
    {
        let mut index = direction.index();
        if self.reflected {
            index = match index {
                1 => 3,
                3 => 1,
                other => other,
            };
        }
        SquareDirection::from_index((index + self.rotation.count() as usize) % 4)
    }

    /// Returns `self` applied after `other`.
    pub fn compose(self, other: Self) -> (r: Self)
        ensures
            r == d4_compose(self, other),
    {
        let rotation = if self.reflected {
            (self.rotation.count() + 4 - other.rotation.count()) % 4
        } else {
            (self.rotation.count() + other.rotation.count()) % 4
        };
        D4::new(QuarterTurns::from_count(rotation), self.reflected != other.reflected)
    }

    pub fn inverse(self) -> (r: Self)
        ensures
            r == d4_inverse(self),
    {
        let rotation = if self.reflected {
            self.rotation.count()
        } else {
            (4 - self.rotation.count()) % 4
        };
        D4::new(QuarterTurns::from_count(rotation), self.reflected)
    }

    /// Whether the edge facing `local_direction` is read in reverse sample order once the
    /// transform carries it to its world direction.
    pub fn reverses_edge(self, local_direction: SquareDirection) -> (r: bool)
        ensures
            r == d4_reverses_edge(self, local_direction),
    {
        let world = self.apply_direction(local_direction);
        let (tx, ty): (i32, i32) = match local_direction {
            SquareDirection::North | SquareDirection::South => (1, 0),
            SquareDirection::East | SquareDirection::West => (0, 1),
        };
        let (cx, cy): (i32, i32) = match world {
            SquareDirection::North | SquareDirection::South => (1, 0),
            SquareDirection::East | SquareDirection::West => (0, 1),
        };
        match self.checked_apply(Coord2::new(tx, ty)) {
            Some(moved) => moved.x == -cx && moved.y == -cy,
            None => false,
        }
    }
}


/// Composing with the inverse on either side gives the identity, and inverting twice
/// gives the symmetry back.
pub proof fn lemma_d4_inverse(t: D4)
    ensures
        d4_compose(t, d4_inverse(t)) == d4_identity(),
        d4_compose(d4_inverse(t), t) == d4_identity(),
        d4_inverse(d4_inverse(t)) == t,
{
}

/// Composition of square symmetries is associative.
pub proof fn lemma_d4_compose_associative(a: D4, b: D4, c: D4)
    ensures
        d4_compose(a, d4_compose(b, c)) == d4_compose(d4_compose(a, b), c),
{
}

/// A composition acts as applying the right operand first, then the left one, both on
/// vectors and on directions.
pub proof fn lemma_d4_compose_acts(a: D4, b: D4, v: (int, int), d: SquareDirection)
    ensures
        d4_act(d4_compose(a, b), v) == d4_act(a, d4_act(b, v)),
        d4_apply_direction(d4_compose(a, b), d) == d4_apply_direction(a, d4_apply_direction(b, d)),
{
    lemma_d4_compose_acts_on_vectors(a, b, v);
    lemma_d4_compose_acts_on_directions(a, b, d);
}

proof fn lemma_d4_compose_acts_on_vectors(a: D4, b: D4, v: (int, int))
    ensures
        d4_act(d4_compose(a, b), v) == d4_act(a, d4_act(b, v)),
{
    match (a.rotation, b.rotation) {
        (QuarterTurns::Zero, QuarterTurns::Zero) => {},
        (QuarterTurns::Zero, QuarterTurns::One) => {},
        (QuarterTurns::Zero, QuarterTurns::Two) => {},
        (QuarterTurns::Zero, QuarterTurns::Three) => {},
        (QuarterTurns::One, QuarterTurns::Zero) => {},
        (QuarterTurns::One, QuarterTurns::One) => {},
        (QuarterTurns::One, QuarterTurns::Two) => {},
        (QuarterTurns::One, QuarterTurns::Three) => {},
        (QuarterTurns::Two, QuarterTurns::Zero) => {},
        (QuarterTurns::Two, QuarterTurns::One) => {},
        (QuarterTurns::Two, QuarterTurns::Two) => {},
        (QuarterTurns::Two, QuarterTurns::Three) => {},
        (QuarterTurns::Three, QuarterTurns::Zero) => {},
        (QuarterTurns::Three, QuarterTurns::One) => {},
        (QuarterTurns::Three, QuarterTurns::Two) => {},
        (QuarterTurns::Three, QuarterTurns::Three) => {},
    }
}

#[verifier::spinoff_prover]
#[verifier::rlimit(60)]
proof fn lemma_d4_compose_acts_on_directions(a: D4, b: D4, d: SquareDirection)
    ensures
        d4_apply_direction(d4_compose(a, b), d) == d4_apply_direction(a, d4_apply_direction(b, d)),
{
    match (a.rotation, b.rotation, d) {
        (QuarterTurns::Zero, QuarterTurns::Zero, SquareDirection::North) => {},
        (QuarterTurns::Zero, QuarterTurns::Zero, SquareDirection::East) => {},
        (QuarterTurns::Zero, QuarterTurns::Zero, SquareDirection::South) => {},
        (QuarterTurns::Zero, QuarterTurns::Zero, SquareDirection::West) => {},
        (QuarterTurns::Zero, QuarterTurns::One, SquareDirection::North) => {},
        (QuarterTurns::Zero, QuarterTurns::One, SquareDirection::East) => {},
        (QuarterTurns::Zero, QuarterTurns::One, SquareDirection::South) => {},
        (QuarterTurns::Zero, QuarterTurns::One, SquareDirection::West) => {},
        (QuarterTurns::Zero, QuarterTurns::Two, SquareDirection::North) => {},
        (QuarterTurns::Zero, QuarterTurns::Two, SquareDirection::East) => {},
        (QuarterTurns::Zero, QuarterTurns::Two, SquareDirection::South) => {},
        (QuarterTurns::Zero, QuarterTurns::Two, SquareDirection::West) => {},
        (QuarterTurns::Zero, QuarterTurns::Three, SquareDirection::North) => {},
        (QuarterTurns::Zero, QuarterTurns::Three, SquareDirection::East) => {},
        (QuarterTurns::Zero, QuarterTurns::Three, SquareDirection::South) => {},
        (QuarterTurns::Zero, QuarterTurns::Three, SquareDirection::West) => {},
        (QuarterTurns::One, QuarterTurns::Zero, SquareDirection::North) => {},
        (QuarterTurns::One, QuarterTurns::Zero, SquareDirection::East) => {},
        (QuarterTurns::One, QuarterTurns::Zero, SquareDirection::South) => {},
        (QuarterTurns::One, QuarterTurns::Zero, SquareDirection::West) => {},
        (QuarterTurns::One, QuarterTurns::One, SquareDirection::North) => {},
        (QuarterTurns::One, QuarterTurns::One, SquareDirection::East) => {},
        (QuarterTurns::One, QuarterTurns::One, SquareDirection::South) => {},
        (QuarterTurns::One, QuarterTurns::One, SquareDirection::West) => {},
        (QuarterTurns::One, QuarterTurns::Two, SquareDirection::North) => {},
        (QuarterTurns::One, QuarterTurns::Two, SquareDirection::East) => {},
        (QuarterTurns::One, QuarterTurns::Two, SquareDirection::South) => {},
        (QuarterTurns::One, QuarterTurns::Two, SquareDirection::West) => {},
        (QuarterTurns::One, QuarterTurns::Three, SquareDirection::North) => {},
        (QuarterTurns::One, QuarterTurns::Three, SquareDirection::East) => {},
        (QuarterTurns::One, QuarterTurns::Three, SquareDirection::South) => {},
        (QuarterTurns::One, QuarterTurns::Three, SquareDirection::West) => {},
        (QuarterTurns::Two, QuarterTurns::Zero, SquareDirection::North) => {},
        (QuarterTurns::Two, QuarterTurns::Zero, SquareDirection::East) => {},
        (QuarterTurns::Two, QuarterTurns::Zero, SquareDirection::South) => {},
        (QuarterTurns::Two, QuarterTurns::Zero, SquareDirection::West) => {},
        (QuarterTurns::Two, QuarterTurns::One, SquareDirection::North) => {},
        (QuarterTurns::Two, QuarterTurns::One, SquareDirection::East) => {},
        (QuarterTurns::Two, QuarterTurns::One, SquareDirection::South) => {},
        (QuarterTurns::Two, QuarterTurns::One, SquareDirection::West) => {},
        (QuarterTurns::Two, QuarterTurns::Two, SquareDirection::North) => {},
        (QuarterTurns::Two, QuarterTurns::Two, SquareDirection::East) => {},
        (QuarterTurns::Two, QuarterTurns::Two, SquareDirection::South) => {},
        (QuarterTurns::Two, QuarterTurns::Two, SquareDirection::West) => {},
        (QuarterTurns::Two, QuarterTurns::Three, SquareDirection::North) => {},
        (QuarterTurns::Two, QuarterTurns::Three, SquareDirection::East) => {},
        (QuarterTurns::Two, QuarterTurns::Three, SquareDirection::South) => {},
        (QuarterTurns::Two, QuarterTurns::Three, SquareDirection::West) => {},
        (QuarterTurns::Three, QuarterTurns::Zero, SquareDirection::North) => {},
        (QuarterTurns::Three, QuarterTurns::Zero, SquareDirection::East) => {},
        (QuarterTurns::Three, QuarterTurns::Zero, SquareDirection::South) => {},
        (QuarterTurns::Three, QuarterTurns::Zero, SquareDirection::West) => {},
        (QuarterTurns::Three, QuarterTurns::One, SquareDirection::North) => {},
        (QuarterTurns::Three, QuarterTurns::One, SquareDirection::East) => {},
        (QuarterTurns::Three, QuarterTurns::One, SquareDirection::South) => {},
        (QuarterTurns::Three, QuarterTurns::One, SquareDirection::West) => {},
        (QuarterTurns::Three, QuarterTurns::Two, SquareDirection::North) => {},
        (QuarterTurns::Three, QuarterTurns::Two, SquareDirection::East) => {},
        (QuarterTurns::Three, QuarterTurns::Two, SquareDirection::South) => {},
        (QuarterTurns::Three, QuarterTurns::Two, SquareDirection::West) => {},
        (QuarterTurns::Three, QuarterTurns::Three, SquareDirection::North) => {},
        (QuarterTurns::Three, QuarterTurns::Three, SquareDirection::East) => {},
        (QuarterTurns::Three, QuarterTurns::Three, SquareDirection::South) => {},
        (QuarterTurns::Three, QuarterTurns::Three, SquareDirection::West) => {},
    }
}

/// The inverse undoes the action on vectors and on directions.
pub proof fn lemma_d4_inverse_undoes(t: D4, v: (int, int), d: SquareDirection)
    ensures
        d4_act(d4_inverse(t), d4_act(t, v)) == v,
        d4_apply_direction(d4_inverse(t), d4_apply_direction(t, d)) == d,
{
}

/// A direction moves exactly as its unit offset does.
pub proof fn lemma_d4_moves_offsets(t: D4, d: SquareDirection)
    ensures
        d4_act(t, square_offset(d)) == square_offset(d4_apply_direction(t, d)),
{
}

/// A successful checked application is undone by the inverse.
///
/// The one exception is a reflected three-quarter turn of a vector whose `y` is
/// `i32::MIN`: it succeeds, but its inverse would have to negate `i32::MIN`.
pub proof fn lemma_d4_checked_apply_round_trip(t: D4, v: Coord2)
    requires
        d4_checked_apply(t, v) is Some,
        !(t.reflected && t.rotation == QuarterTurns::Three && v.y == i32::MIN),
    ensures
        d4_checked_apply(d4_inverse(t), d4_checked_apply(t, v).unwrap()) == Some(v),
{
}

/// A transformed edge is read either in the canonical order of its world direction or
/// exactly in reverse.
pub proof fn lemma_d4_edge_order(t: D4, local: SquareDirection)
    ensures
        ({
            let moved = d4_act(t, square_edge_tangent(local));
            let canonical = square_edge_tangent(d4_apply_direction(t, local));
            moved == canonical || moved == (-canonical.0, -canonical.1)
        }),
{
}

/// `D4::all` lists every square symmetry exactly once.
pub proof fn lemma_d4_all_complete(t: D4)
    ensures
        exists|i: int| 0 <= i < 8 && t == #[trigger] d4_listed(i),
        forall|i: int, j: int|
            0 <= i < 8 && 0 <= j < 8 && i != j ==> #[trigger] d4_listed(i)
                != #[trigger] d4_listed(j),
{
    let i = quarter_count(t.rotation) + if t.reflected { 4int } else { 0int };
    assert(t == d4_listed(i));
}

/// Clockwise sixth-turn rotations of a pointy-top hexagon in screen coordinates.
#[derive(Clone, Copy, Debug, Default, PartialEq, Eq, PartialOrd, Ord, Hash, Structural)]
pub enum SixthTurns {
    #[default]
    Zero,
    One,
    Two,
    Three,
    Four,
    Five,
}

/// The number of sixth turns.
pub open spec fn sixth_count(rotation: SixthTurns) -> int {
    match rotation {
        SixthTurns::Zero => 0,
        SixthTurns::One => 1,
        SixthTurns::Two => 2,
        SixthTurns::Three => 3,
        SixthTurns::Four => 4,
        SixthTurns::Five => 5,
    }
}

/// The rotation by `count` sixth turns, taken modulo six.
pub open spec fn sixth_from_count(count: int) -> SixthTurns {
    let c = count % 6;
    if c == 0 {
        SixthTurns::Zero
    } else if c == 1 {
        SixthTurns::One
    } else if c == 2 {
        SixthTurns::Two
    } else if c == 3 {
        SixthTurns::Three
    } else if c == 4 {
        SixthTurns::Four
    } else {
        SixthTurns::Five
    }
}

impl SixthTurns {
    /// Every rotation, from zero to five sixth turns.
    pub fn all() -> (r: Vec<SixthTurns>)
        ensures
            r@.len() == 6,
            forall|i: int| 0 <= i < 6 ==> sixth_count(#[trigger] r@[i]) == i,
    {
        vec![
            SixthTurns::Zero,
            SixthTurns::One,
            SixthTurns::Two,
            SixthTurns::Three,
            SixthTurns::Four,
            SixthTurns::Five,
        ]
    }

    fn count(self) -> (r: u8)
        ensures
            r == sixth_count(self),
    {
        match self {
            SixthTurns::Zero => 0,
            SixthTurns::One => 1,
            SixthTurns::Two => 2,
            SixthTurns::Three => 3,
            SixthTurns::Four => 4,
            SixthTurns::Five => 5,
        }
    }

    fn from_count(count: u8) -> (r: Self)
        ensures
            r == sixth_from_count(count as int),
    {
        match count % 6 {
            0 => SixthTurns::Zero,
            1 => SixthTurns::One,
            2 => SixthTurns::Two,
            3 => SixthTurns::Three,
            4 => SixthTurns::Four,
            _ => SixthTurns::Five,
        }
    }
}

/// One of the twelve symmetries of a pointy-top hexagon, acting on axial coordinates
/// `(q, r)` (`q` grows east, `r` grows south-east).
///
/// A reflected transform first mirrors across the vertical axis, then applies its
/// clockwise rotation. Transformations act around the origin.
#[derive(Clone, Copy, Debug, Default, PartialEq, Eq, PartialOrd, Ord, Hash, Structural)]
pub struct D6 {
    pub rotation: SixthTurns,
    pub reflected: bool,
}

/// The hexagon symmetry with the given rotation and reflection flag.
pub open spec fn d6(rotation: SixthTurns, reflected: bool) -> D6 {
    D6 { rotation, reflected }
}

/// The `i`-th entry of `D6::all`: the rotations first, then the reflected rotations.
pub open spec fn d6_listed(i: int) -> D6 {
    d6(sixth_from_count(i % 6), i >= 6)
}

/// The identity symmetry of the hexagon.
pub open spec fn d6_identity() -> D6 {
    d6(SixthTurns::Zero, false)
}

/// The action of a hexagon symmetry on an axial vector `(q, r)`.
pub open spec fn d6_act(t: D6, v: (int, int)) -> (int, int) {
    let q = if t.reflected { -v.0 - v.1 } else { v.0 };
    let r = v.1;
    match t.rotation {
        SixthTurns::Zero => (q, r),
        SixthTurns::One => (-r, q + r),
        SixthTurns::Two => (-q - r, q),
        SixthTurns::Three => (-q, -r),
        SixthTurns::Four => (r, -q - r),
        SixthTurns::Five => (q + r, -q),
    }
}

/// The result of `D6::checked_apply`: the transformed vector when both of its
/// components fit in an `i32`.
pub open spec fn d6_checked_apply(t: D6, v: Coord2) -> Option<Coord2> {
    let w = d6_act(t, (v.x as int, v.y as int));
    if fits_i32(w.0) && fits_i32(w.1) {
        Some(Coord2 { x: w.0 as i32, y: w.1 as i32 })
    } else {
        None
    }
}

/// The action of a hexagon symmetry on the six directions.
pub open spec fn d6_apply_direction(t: D6, d: HexDirection) -> HexDirection {
    let i = hex_index(d) as int;
    let mirrored = if t.reflected { 5 - i } else { i };
    hex_from_index(mirrored + sixth_count(t.rotation))
}

/// The composition `a` after `b`.
pub open spec fn d6_compose(a: D6, b: D6) -> D6 {
    let rotation = if a.reflected {
        sixth_count(a.rotation) - sixth_count(b.rotation) + 6
    } else {
        sixth_count(a.rotation) + sixth_count(b.rotation)
    };
    d6(sixth_from_count(rotation), a.reflected != b.reflected)
}

/// The inverse symmetry.
pub open spec fn d6_inverse(t: D6) -> D6 {
    let rotation = if t.reflected {
        sixth_count(t.rotation)
    } else {
        6 - sixth_count(t.rotation)
    };
    d6(sixth_from_count(rotation), t.reflected)
}

/// The axial step towards a neighboring hexagon.
pub open spec fn hex_axial_step(d: HexDirection) -> (int, int) {
    match d {
        HexDirection::NorthEast => (1, -1),
        HexDirection::East => (1, 0),
        HexDirection::SouthEast => (0, 1),
        HexDirection::SouthWest => (-1, 1),
        HexDirection::West => (-1, 0),
        HexDirection::NorthWest => (0, -1),
    }
}

/// The sample order of a hexagon edge, as an axial vector; opposite edges share it.
pub open spec fn hex_edge_tangent(d: HexDirection) -> (int, int) {
    match d {
        HexDirection::NorthEast | HexDirection::SouthWest => (1, 1),
        HexDirection::East | HexDirection::West => (-1, 2),
        HexDirection::SouthEast | HexDirection::NorthWest => (-2, 1),
    }
}

/// Whether the edge facing `local` is read backwards after the transform carries it to
/// its world direction.
pub open spec fn d6_reverses_edge(t: D6, local: HexDirection) -> bool {
    let moved = d6_act(t, hex_edge_tangent(local));
    let canonical = hex_edge_tangent(d6_apply_direction(t, local));
    moved == (-canonical.0, -canonical.1)
}

impl D6 {
    /// The identity.
    pub fn identity() -> (r: Self)
        ensures
            r == d6_identity(),
    {
        D6 { rotation: SixthTurns::Zero, reflected: false }
    }

    /// All twelve symmetries: the six rotations, then the six reflected rotations.
    pub fn all() -> (r: Vec<D6>)
        ensures
            r@.len() == 12,
            forall|i: int|
                0 <= i < 12 ==> #[trigger] r@[i] == d6_listed(i),
    {
        let r = vec![
            D6::new(SixthTurns::Zero, false),
            D6::new(SixthTurns::One, false),
            D6::new(SixthTurns::Two, false),
            D6::new(SixthTurns::Three, false),
            D6::new(SixthTurns::Four, false),
            D6::new(SixthTurns::Five, false),
            D6::new(SixthTurns::Zero, true),
            D6::new(SixthTurns::One, true),
            D6::new(SixthTurns::Two, true),
            D6::new(SixthTurns::Three, true),
            D6::new(SixthTurns::Four, true),
            D6::new(SixthTurns::Five, true),
        ];
        assert(forall|i: int|
            0 <= i < 12 ==> #[trigger] r@[i] == d6_listed(i));
        r
    }

    pub fn new(rotation: SixthTurns, reflected: bool) -> (r: Self)
        ensures
            r == d6(rotation, reflected),
    {
        D6 { rotation, reflected }
    }

    pub fn rotation(self) -> (r: SixthTurns)
        ensures
            r == self.rotation,
    {
        self.rotation
    }

    pub fn is_reflected(self) -> (r: bool)
        ensures
            r == self.reflected,
    {
        self.reflected
    }

    /// Applies the transform to an axial displacement, returning `None` when a component
    /// of the result does not fit in an `i32`.
    pub fn checked_apply(self, vector: Coord2) -> (r: Option<Coord2>)
        ensures
            r == d6_checked_apply(self, vector),
    {
        let q0 = vector.x as i64;
        let r0 = vector.y as i64;
        let q = if self.reflected { -q0 - r0 } else { q0 };
        let r = r0;
        let (a, b): (i64, i64) = match self.rotation {
            SixthTurns::Zero => (q, r),
            SixthTurns::One => (-r, q + r),
            SixthTurns::Two => (-q - r, q),
            SixthTurns::Three => (-q, -r),
            SixthTurns::Four => (r, -q - r),
            SixthTurns::Five => (q + r, -q),
        };
        if a < i32::MIN as i64 || a > i32::MAX as i64 || b < i32::MIN as i64 || b > i32::MAX as i64 {
            return None;
        }
        Some(Coord2::new(a as i32, b as i32))
    }

    pub fn apply_direction(self, direction: HexDirection) -> (r: HexDirection)
        ensures
            r == d6_apply_direction(self, direction),
    {
        let mut index = direction.index();
        if self.reflected {
            index = 5 - index;
        }
        HexDirection::from_index((index + self.rotation.count() as usize) % 6)
    }

    /// Returns `self` applied after `other`.
    pub fn compose(self, other: Self) -> (r: Self)
        ensures
            r == d6_compose(self, other),
    {
        let rotation = if self.reflected {
            (self.rotation.count() + 6 - other.rotation.count()) % 6
        } else {
            (self.rotation.count() + other.rotation.count()) % 6
        };
        D6::new(SixthTurns::from_count(rotation), self.reflected != other.reflected)
    }

    pub fn inverse(self) -> (r: Self)
        ensures
            r == d6_inverse(self),
    {
        let rotation = if self.reflected {
            self.rotation.count()
        } else {
            (6 - self.rotation.count()) % 6
        };
        D6::new(SixthTurns::from_count(rotation), self.reflected)
    }

    /// Whether the edge facing `local_direction` is read in reverse sample order once the
    /// transform carries it to its world direction.
    pub fn reverses_edge(self, local_direction: HexDirection) -> (r: bool)
        ensures
            r == d6_reverses_edge(self, local_direction),
    {
        let world = self.apply_direction(local_direction);
        let (tx, ty): (i32, i32) = match local_direction {
            HexDirection::NorthEast | HexDirection::SouthWest => (1, 1),
            HexDirection::East | HexDirection::West => (-1, 2),
            HexDirection::SouthEast | HexDirection::NorthWest => (-2, 1),
        };
        let (cx, cy): (i32, i32) = match world {
            HexDirection::NorthEast | HexDirection::SouthWest => (1, 1),
            HexDirection::East | HexDirection::West => (-1, 2),
            HexDirection::SouthEast | HexDirection::NorthWest => (-2, 1),
        };
        match self.checked_apply(Coord2::new(tx, ty)) {
            Some(moved) => moved.x == -cx && moved.y == -cy,
            None => false,
        }
    }
}

/// Composing with the inverse on either side gives the identity, and inverting twice
/// gives the symmetry back.
pub proof fn lemma_d6_inverse(t: D6)
    ensures
        d6_compose(t, d6_inverse(t)) == d6_identity(),
        d6_compose(d6_inverse(t), t) == d6_identity(),
        d6_inverse(d6_inverse(t)) == t,
{
}

/// Composition of hexagon symmetries is associative.
#[verifier::spinoff_prover]
#[verifier::rlimit(60)]
pub proof fn lemma_d6_compose_associative(a: D6, b: D6, c: D6)
    ensures
        d6_compose(a, d6_compose(b, c)) == d6_compose(d6_compose(a, b), c),
{
    match (a.rotation, b.rotation, c.rotation) {
        (SixthTurns::Zero, SixthTurns::Zero, SixthTurns::Zero) => {},
        (SixthTurns::Zero, SixthTurns::Zero, SixthTurns::One) => {},
        (SixthTurns::Zero, SixthTurns::Zero, SixthTurns::Two) => {},
        (SixthTurns::Zero, SixthTurns::Zero, SixthTurns::Three) => {},
        (SixthTurns::Zero, SixthTurns::Zero, SixthTurns::Four) => {},
        (SixthTurns::Zero, SixthTurns::Zero, SixthTurns::Five) => {},
        (SixthTurns::Zero, SixthTurns::One, SixthTurns::Zero) => {},
        (SixthTurns::Zero, SixthTurns::One, SixthTurns::One) => {},
        (SixthTurns::Zero, SixthTurns::One, SixthTurns::Two) => {},
        (SixthTurns::Zero, SixthTurns::One, SixthTurns::Three) => {},
        (SixthTurns::Zero, SixthTurns::One, SixthTurns::Four) => {},
        (SixthTurns::Zero, SixthTurns::One, SixthTurns::Five) => {},
        (SixthTurns::Zero, SixthTurns::Two, SixthTurns::Zero) => {},
        (SixthTurns::Zero, SixthTurns::Two, SixthTurns::One) => {},
        (SixthTurns::Zero, SixthTurns::Two, SixthTurns::Two) => {},
        (SixthTurns::Zero, SixthTurns::Two, SixthTurns::Three) => {},
        (SixthTurns::Zero, SixthTurns::Two, SixthTurns::Four) => {},
        (SixthTurns::Zero, SixthTurns::Two, SixthTurns::Five) => {},
        (SixthTurns::Zero, SixthTurns::Three, SixthTurns::Zero) => {},
        (SixthTurns::Zero, SixthTurns::Three, SixthTurns::One) => {},
        (SixthTurns::Zero, SixthTurns::Three, SixthTurns::Two) => {},
        (SixthTurns::Zero, SixthTurns::Three, SixthTurns::Three) => {},
        (SixthTurns::Zero, SixthTurns::Three, SixthTurns::Four) => {},
        (SixthTurns::Zero, SixthTurns::Three, SixthTurns::Five) => {},
        (SixthTurns::Zero, SixthTurns::Four, SixthTurns::Zero) => {},
        (SixthTurns::Zero, SixthTurns::Four, SixthTurns::One) => {},
        (SixthTurns::Zero, SixthTurns::Four, SixthTurns::Two) => {},
        (SixthTurns::Zero, SixthTurns::Four, SixthTurns::Three) => {},
        (SixthTurns::Zero, SixthTurns::Four, SixthTurns::Four) => {},
        (SixthTurns::Zero, SixthTurns::Four, SixthTurns::Five) => {},
        (SixthTurns::Zero, SixthTurns::Five, SixthTurns::Zero) => {},
        (SixthTurns::Zero, SixthTurns::Five, SixthTurns::One) => {},
        (SixthTurns::Zero, SixthTurns::Five, SixthTurns::Two) => {},
        (SixthTurns::Zero, SixthTurns::Five, SixthTurns::Three) => {},
        (SixthTurns::Zero, SixthTurns::Five, SixthTurns::Four) => {},
        (SixthTurns::Zero, SixthTurns::Five, SixthTurns::Five) => {},
        (SixthTurns::One, SixthTurns::Zero, SixthTurns::Zero) => {},
        (SixthTurns::One, SixthTurns::Zero, SixthTurns::One) => {},
        (SixthTurns::One, SixthTurns::Zero, SixthTurns::Two) => {},
        (SixthTurns::One, SixthTurns::Zero, SixthTurns::Three) => {},
        (SixthTurns::One, SixthTurns::Zero, SixthTurns::Four) => {},
        (SixthTurns::One, SixthTurns::Zero, SixthTurns::Five) => {},
        (SixthTurns::One, SixthTurns::One, SixthTurns::Zero) => {},
        (SixthTurns::One, SixthTurns::One, SixthTurns::One) => {},
        (SixthTurns::One, SixthTurns::One, SixthTurns::Two) => {},
        (SixthTurns::One, SixthTurns::One, SixthTurns::Three) => {},
        (SixthTurns::One, SixthTurns::One, SixthTurns::Four) => {},
        (SixthTurns::One, SixthTurns::One, SixthTurns::Five) => {},
        (SixthTurns::One, SixthTurns::Two, SixthTurns::Zero) => {},
        (SixthTurns::One, SixthTurns::Two, SixthTurns::One) => {},
        (SixthTurns::One, SixthTurns::Two, SixthTurns::Two) => {},
        (SixthTurns::One, SixthTurns::Two, SixthTurns::Three) => {},
        (SixthTurns::One, SixthTurns::Two, SixthTurns::Four) => {},
        (SixthTurns::One, SixthTurns::Two, SixthTurns::Five) => {},
        (SixthTurns::One, SixthTurns::Three, SixthTurns::Zero) => {},
        (SixthTurns::One, SixthTurns::Three, SixthTurns::One) => {},
        (SixthTurns::One, SixthTurns::Three, SixthTurns::Two) => {},
        (SixthTurns::One, SixthTurns::Three, SixthTurns::Three) => {},
        (SixthTurns::One, SixthTurns::Three, SixthTurns::Four) => {},
        (SixthTurns::One, SixthTurns::Three, SixthTurns::Five) => {},
        (SixthTurns::One, SixthTurns::Four, SixthTurns::Zero) => {},
        (SixthTurns::One, SixthTurns::Four, SixthTurns::One) => {},
        (SixthTurns::One, SixthTurns::Four, SixthTurns::Two) => {},
        (SixthTurns::One, SixthTurns::Four, SixthTurns::Three) => {},
        (SixthTurns::One, SixthTurns::Four, SixthTurns::Four) => {},
        (SixthTurns::One, SixthTurns::Four, SixthTurns::Five) => {},
        (SixthTurns::One, SixthTurns::Five, SixthTurns::Zero) => {},
        (SixthTurns::One, SixthTurns::Five, SixthTurns::One) => {},
        (SixthTurns::One, SixthTurns::Five, SixthTurns::Two) => {},
        (SixthTurns::One, SixthTurns::Five, SixthTurns::Three) => {},
        (SixthTurns::One, SixthTurns::Five, SixthTurns::Four) => {},
        (SixthTurns::One, SixthTurns::Five, SixthTurns::Five) => {},
        (SixthTurns::Two, SixthTurns::Zero, SixthTurns::Zero) => {},
        (SixthTurns::Two, SixthTurns::Zero, SixthTurns::One) => {},
        (SixthTurns::Two, SixthTurns::Zero, SixthTurns::Two) => {},
        (SixthTurns::Two, SixthTurns::Zero, SixthTurns::Three) => {},
        (SixthTurns::Two, SixthTurns::Zero, SixthTurns::Four) => {},
        (SixthTurns::Two, SixthTurns::Zero, SixthTurns::Five) => {},
        (SixthTurns::Two, SixthTurns::One, SixthTurns::Zero) => {},
        (SixthTurns::Two, SixthTurns::One, SixthTurns::One) => {},
        (SixthTurns::Two, SixthTurns::One, SixthTurns::Two) => {},
        (SixthTurns::Two, SixthTurns::One, SixthTurns::Three) => {},
        (SixthTurns::Two, SixthTurns::One, SixthTurns::Four) => {},
        (SixthTurns::Two, SixthTurns::One, SixthTurns::Five) => {},
        (SixthTurns::Two, SixthTurns::Two, SixthTurns::Zero) => {},
        (SixthTurns::Two, SixthTurns::Two, SixthTurns::One) => {},
        (SixthTurns::Two, SixthTurns::Two, SixthTurns::Two) => {},
        (SixthTurns::Two, SixthTurns::Two, SixthTurns::Three) => {},
        (SixthTurns::Two, SixthTurns::Two, SixthTurns::Four) => {},
        (SixthTurns::Two, SixthTurns::Two, SixthTurns::Five) => {},
        (SixthTurns::Two, SixthTurns::Three, SixthTurns::Zero) => {},
        (SixthTurns::Two, SixthTurns::Three, SixthTurns::One) => {},
        (SixthTurns::Two, SixthTurns::Three, SixthTurns::Two) => {},
        (SixthTurns::Two, SixthTurns::Three, SixthTurns::Three) => {},
        (SixthTurns::Two, SixthTurns::Three, SixthTurns::Four) => {},
        (SixthTurns::Two, SixthTurns::Three, SixthTurns::Five) => {},
        (SixthTurns::Two, SixthTurns::Four, SixthTurns::Zero) => {},
        (SixthTurns::Two, SixthTurns::Four, SixthTurns::One) => {},
        (SixthTurns::Two, SixthTurns::Four, SixthTurns::Two) => {},
        (SixthTurns::Two, SixthTurns::Four, SixthTurns::Three) => {},
        (SixthTurns::Two, SixthTurns::Four, SixthTurns::Four) => {},
        (SixthTurns::Two, SixthTurns::Four, SixthTurns::Five) => {},
        (SixthTurns::Two, SixthTurns::Five, SixthTurns::Zero) => {},
        (SixthTurns::Two, SixthTurns::Five, SixthTurns::One) => {},
        (SixthTurns::Two, SixthTurns::Five, SixthTurns::Two) => {},
        (SixthTurns::Two, SixthTurns::Five, SixthTurns::Three) => {},
        (SixthTurns::Two, SixthTurns::Five, SixthTurns::Four) => {},
        (SixthTurns::Two, SixthTurns::Five, SixthTurns::Five) => {},
        (SixthTurns::Three, SixthTurns::Zero, SixthTurns::Zero) => {},
        (SixthTurns::Three, SixthTurns::Zero, SixthTurns::One) => {},
        (SixthTurns::Three, SixthTurns::Zero, SixthTurns::Two) => {},
        (SixthTurns::Three, SixthTurns::Zero, SixthTurns::Three) => {},
        (SixthTurns::Three, SixthTurns::Zero, SixthTurns::Four) => {},
        (SixthTurns::Three, SixthTurns::Zero, SixthTurns::Five) => {},
        (SixthTurns::Three, SixthTurns::One, SixthTurns::Zero) => {},
        (SixthTurns::Three, SixthTurns::One, SixthTurns::One) => {},
        (SixthTurns::Three, SixthTurns::One, SixthTurns::Two) => {},
        (SixthTurns::Three, SixthTurns::One, SixthTurns::Three) => {},
        (SixthTurns::Three, SixthTurns::One, SixthTurns::Four) => {},
        (SixthTurns::Three, SixthTurns::One, SixthTurns::Five) => {},
        (SixthTurns::Three, SixthTurns::Two, SixthTurns::Zero) => {},
        (SixthTurns::Three, SixthTurns::Two, SixthTurns::One) => {},
        (SixthTurns::Three, SixthTurns::Two, SixthTurns::Two) => {},
        (SixthTurns::Three, SixthTurns::Two, SixthTurns::Three) => {},
        (SixthTurns::Three, SixthTurns::Two, SixthTurns::Four) => {},
        (SixthTurns::Three, SixthTurns::Two, SixthTurns::Five) => {},
        (SixthTurns::Three, SixthTurns::Three, SixthTurns::Zero) => {},
        (SixthTurns::Three, SixthTurns::Three, SixthTurns::One) => {},
        (SixthTurns::Three, SixthTurns::Three, SixthTurns::Two) => {},
        (SixthTurns::Three, SixthTurns::Three, SixthTurns::Three) => {},
        (SixthTurns::Three, SixthTurns::Three, SixthTurns::Four) => {},
        (SixthTurns::Three, SixthTurns::Three, SixthTurns::Five) => {},
        (SixthTurns::Three, SixthTurns::Four, SixthTurns::Zero) => {},
        (SixthTurns::Three, SixthTurns::Four, SixthTurns::One) => {},
        (SixthTurns::Three, SixthTurns::Four, SixthTurns::Two) => {},
        (SixthTurns::Three, SixthTurns::Four, SixthTurns::Three) => {},
        (SixthTurns::Three, SixthTurns::Four, SixthTurns::Four) => {},
        (SixthTurns::Three, SixthTurns::Four, SixthTurns::Five) => {},
        (SixthTurns::Three, SixthTurns::Five, SixthTurns::Zero) => {},
        (SixthTurns::Three, SixthTurns::Five, SixthTurns::One) => {},
        (SixthTurns::Three, SixthTurns::Five, SixthTurns::Two) => {},
        (SixthTurns::Three, SixthTurns::Five, SixthTurns::Three) => {},
        (SixthTurns::Three, SixthTurns::Five, SixthTurns::Four) => {},
        (SixthTurns::Three, SixthTurns::Five, SixthTurns::Five) => {},
        (SixthTurns::Four, SixthTurns::Zero, SixthTurns::Zero) => {},
        (SixthTurns::Four, SixthTurns::Zero, SixthTurns::One) => {},
        (SixthTurns::Four, SixthTurns::Zero, SixthTurns::Two) => {},
        (SixthTurns::Four, SixthTurns::Zero, SixthTurns::Three) => {},
        (SixthTurns::Four, SixthTurns::Zero, SixthTurns::Four) => {},
        (SixthTurns::Four, SixthTurns::Zero, SixthTurns::Five) => {},
        (SixthTurns::Four, SixthTurns::One, SixthTurns::Zero) => {},
        (SixthTurns::Four, SixthTurns::One, SixthTurns::One) => {},
        (SixthTurns::Four, SixthTurns::One, SixthTurns::Two) => {},
        (SixthTurns::Four, SixthTurns::One, SixthTurns::Three) => {},
        (SixthTurns::Four, SixthTurns::One, SixthTurns::Four) => {},
        (SixthTurns::Four, SixthTurns::One, SixthTurns::Five) => {},
        (SixthTurns::Four, SixthTurns::Two, SixthTurns::Zero) => {},
        (SixthTurns::Four, SixthTurns::Two, SixthTurns::One) => {},
        (SixthTurns::Four, SixthTurns::Two, SixthTurns::Two) => {},
        (SixthTurns::Four, SixthTurns::Two, SixthTurns::Three) => {},
        (SixthTurns::Four, SixthTurns::Two, SixthTurns::Four) => {},
        (SixthTurns::Four, SixthTurns::Two, SixthTurns::Five) => {},
        (SixthTurns::Four, SixthTurns::Three, SixthTurns::Zero) => {},
        (SixthTurns::Four, SixthTurns::Three, SixthTurns::One) => {},
        (SixthTurns::Four, SixthTurns::Three, SixthTurns::Two) => {},
        (SixthTurns::Four, SixthTurns::Three, SixthTurns::Three) => {},
        (SixthTurns::Four, SixthTurns::Three, SixthTurns::Four) => {},
        (SixthTurns::Four, SixthTurns::Three, SixthTurns::Five) => {},
        (SixthTurns::Four, SixthTurns::Four, SixthTurns::Zero) => {},
        (SixthTurns::Four, SixthTurns::Four, SixthTurns::One) => {},
        (SixthTurns::Four, SixthTurns::Four, SixthTurns::Two) => {},
        (SixthTurns::Four, SixthTurns::Four, SixthTurns::Three) => {},
        (SixthTurns::Four, SixthTurns::Four, SixthTurns::Four) => {},
        (SixthTurns::Four, SixthTurns::Four, SixthTurns::Five) => {},
        (SixthTurns::Four, SixthTurns::Five, SixthTurns::Zero) => {},
        (SixthTurns::Four, SixthTurns::Five, SixthTurns::One) => {},
        (SixthTurns::Four, SixthTurns::Five, SixthTurns::Two) => {},
        (SixthTurns::Four, SixthTurns::Five, SixthTurns::Three) => {},
        (SixthTurns::Four, SixthTurns::Five, SixthTurns::Four) => {},
        (SixthTurns::Four, SixthTurns::Five, SixthTurns::Five) => {},
        (SixthTurns::Five, SixthTurns::Zero, SixthTurns::Zero) => {},
        (SixthTurns::Five, SixthTurns::Zero, SixthTurns::One) => {},
        (SixthTurns::Five, SixthTurns::Zero, SixthTurns::Two) => {},
        (SixthTurns::Five, SixthTurns::Zero, SixthTurns::Three) => {},
        (SixthTurns::Five, SixthTurns::Zero, SixthTurns::Four) => {},
        (SixthTurns::Five, SixthTurns::Zero, SixthTurns::Five) => {},
        (SixthTurns::Five, SixthTurns::One, SixthTurns::Zero) => {},
        (SixthTurns::Five, SixthTurns::One, SixthTurns::One) => {},
        (SixthTurns::Five, SixthTurns::One, SixthTurns::Two) => {},
        (SixthTurns::Five, SixthTurns::One, SixthTurns::Three) => {},
        (SixthTurns::Five, SixthTurns::One, SixthTurns::Four) => {},
        (SixthTurns::Five, SixthTurns::One, SixthTurns::Five) => {},
        (SixthTurns::Five, SixthTurns::Two, SixthTurns::Zero) => {},
        (SixthTurns::Five, SixthTurns::Two, SixthTurns::One) => {},
        (SixthTurns::Five, SixthTurns::Two, SixthTurns::Two) => {},
        (SixthTurns::Five, SixthTurns::Two, SixthTurns::Three) => {},
        (SixthTurns::Five, SixthTurns::Two, SixthTurns::Four) => {},
        (SixthTurns::Five, SixthTurns::Two, SixthTurns::Five) => {},
        (SixthTurns::Five, SixthTurns::Three, SixthTurns::Zero) => {},
        (SixthTurns::Five, SixthTurns::Three, SixthTurns::One) => {},
        (SixthTurns::Five, SixthTurns::Three, SixthTurns::Two) => {},
        (SixthTurns::Five, SixthTurns::Three, SixthTurns::Three) => {},
        (SixthTurns::Five, SixthTurns::Three, SixthTurns::Four) => {},
        (SixthTurns::Five, SixthTurns::Three, SixthTurns::Five) => {},
        (SixthTurns::Five, SixthTurns::Four, SixthTurns::Zero) => {},
        (SixthTurns::Five, SixthTurns::Four, SixthTurns::One) => {},
        (SixthTurns::Five, SixthTurns::Four, SixthTurns::Two) => {},
        (SixthTurns::Five, SixthTurns::Four, SixthTurns::Three) => {},
        (SixthTurns::Five, SixthTurns::Four, SixthTurns::Four) => {},
        (SixthTurns::Five, SixthTurns::Four, SixthTurns::Five) => {},
        (SixthTurns::Five, SixthTurns::Five, SixthTurns::Zero) => {},
        (SixthTurns::Five, SixthTurns::Five, SixthTurns::One) => {},
        (SixthTurns::Five, SixthTurns::Five, SixthTurns::Two) => {},
        (SixthTurns::Five, SixthTurns::Five, SixthTurns::Three) => {},
        (SixthTurns::Five, SixthTurns::Five, SixthTurns::Four) => {},
        (SixthTurns::Five, SixthTurns::Five, SixthTurns::Five) => {},
    }
}

/// A composition acts as applying the right operand first, then the left one, both on
/// axial vectors and on directions.
pub proof fn lemma_d6_compose_acts(a: D6, b: D6, v: (int, int), d: HexDirection)
    ensures
        d6_act(d6_compose(a, b), v) == d6_act(a, d6_act(b, v)),
        d6_apply_direction(d6_compose(a, b), d) == d6_apply_direction(a, d6_apply_direction(b, d)),
{
    lemma_d6_compose_acts_on_vectors(a, b, v);
    lemma_d6_compose_acts_on_directions(a, b, d);
}

proof fn lemma_d6_compose_acts_on_vectors(a: D6, b: D6, v: (int, int))
    ensures
        d6_act(d6_compose(a, b), v) == d6_act(a, d6_act(b, v)),
{
    match (a.rotation, b.rotation) {
        (SixthTurns::Zero, SixthTurns::Zero) => {},
        (SixthTurns::Zero, SixthTurns::One) => {},
        (SixthTurns::Zero, SixthTurns::Two) => {},
        (SixthTurns::Zero, SixthTurns::Three) => {},
        (SixthTurns::Zero, SixthTurns::Four) => {},
        (SixthTurns::Zero, SixthTurns::Five) => {},
        (SixthTurns::One, SixthTurns::Zero) => {},
        (SixthTurns::One, SixthTurns::One) => {},
        (SixthTurns::One, SixthTurns::Two) => {},
        (SixthTurns::One, SixthTurns::Three) => {},
        (SixthTurns::One, SixthTurns::Four) => {},
        (SixthTurns::One, SixthTurns::Five) => {},
        (SixthTurns::Two, SixthTurns::Zero) => {},
        (SixthTurns::Two, SixthTurns::One) => {},
        (SixthTurns::Two, SixthTurns::Two) => {},
        (SixthTurns::Two, SixthTurns::Three) => {},
        (SixthTurns::Two, SixthTurns::Four) => {},
        (SixthTurns::Two, SixthTurns::Five) => {},
        (SixthTurns::Three, SixthTurns::Zero) => {},
        (SixthTurns::Three, SixthTurns::One) => {},
        (SixthTurns::Three, SixthTurns::Two) => {},
        (SixthTurns::Three, SixthTurns::Three) => {},
        (SixthTurns::Three, SixthTurns::Four) => {},
        (SixthTurns::Three, SixthTurns::Five) => {},
        (SixthTurns::Four, SixthTurns::Zero) => {},
        (SixthTurns::Four, SixthTurns::One) => {},
        (SixthTurns::Four, SixthTurns::Two) => {},
        (SixthTurns::Four, SixthTurns::Three) => {},
        (SixthTurns::Four, SixthTurns::Four) => {},
        (SixthTurns::Four, SixthTurns::Five) => {},
        (SixthTurns::Five, SixthTurns::Zero) => {},
        (SixthTurns::Five, SixthTurns::One) => {},
        (SixthTurns::Five, SixthTurns::Two) => {},
        (SixthTurns::Five, SixthTurns::Three) => {},
        (SixthTurns::Five, SixthTurns::Four) => {},
        (SixthTurns::Five, SixthTurns::Five) => {},
    }
}

#[verifier::spinoff_prover]
#[verifier::rlimit(60)]
proof fn lemma_d6_compose_acts_on_directions(a: D6, b: D6, d: HexDirection)
    ensures
        d6_apply_direction(d6_compose(a, b), d) == d6_apply_direction(a, d6_apply_direction(b, d)),
{
    match (a.rotation, b.rotation, d) {
        (SixthTurns::Zero, SixthTurns::Zero, HexDirection::NorthEast) => {},
        (SixthTurns::Zero, SixthTurns::Zero, HexDirection::East) => {},
        (SixthTurns::Zero, SixthTurns::Zero, HexDirection::SouthEast) => {},
        (SixthTurns::Zero, SixthTurns::Zero, HexDirection::SouthWest) => {},
        (SixthTurns::Zero, SixthTurns::Zero, HexDirection::West) => {},
        (SixthTurns::Zero, SixthTurns::Zero, HexDirection::NorthWest) => {},
        (SixthTurns::Zero, SixthTurns::One, HexDirection::NorthEast) => {},
        (SixthTurns::Zero, SixthTurns::One, HexDirection::East) => {},
        (SixthTurns::Zero, SixthTurns::One, HexDirection::SouthEast) => {},
        (SixthTurns::Zero, SixthTurns::One, HexDirection::SouthWest) => {},
        (SixthTurns::Zero, SixthTurns::One, HexDirection::West) => {},
        (SixthTurns::Zero, SixthTurns::One, HexDirection::NorthWest) => {},
        (SixthTurns::Zero, SixthTurns::Two, HexDirection::NorthEast) => {},
        (SixthTurns::Zero, SixthTurns::Two, HexDirection::East) => {},
        (SixthTurns::Zero, SixthTurns::Two, HexDirection::SouthEast) => {},
        (SixthTurns::Zero, SixthTurns::Two, HexDirection::SouthWest) => {},
        (SixthTurns::Zero, SixthTurns::Two, HexDirection::West) => {},
        (SixthTurns::Zero, SixthTurns::Two, HexDirection::NorthWest) => {},
        (SixthTurns::Zero, SixthTurns::Three, HexDirection::NorthEast) => {},
        (SixthTurns::Zero, SixthTurns::Three, HexDirection::East) => {},
        (SixthTurns::Zero, SixthTurns::Three, HexDirection::SouthEast) => {},
        (SixthTurns::Zero, SixthTurns::Three, HexDirection::SouthWest) => {},
        (SixthTurns::Zero, SixthTurns::Three, HexDirection::West) => {},
        (SixthTurns::Zero, SixthTurns::Three, HexDirection::NorthWest) => {},
        (SixthTurns::Zero, SixthTurns::Four, HexDirection::NorthEast) => {},
        (SixthTurns::Zero, SixthTurns::Four, HexDirection::East) => {},
        (SixthTurns::Zero, SixthTurns::Four, HexDirection::SouthEast) => {},
        (SixthTurns::Zero, SixthTurns::Four, HexDirection::SouthWest) => {},
        (SixthTurns::Zero, SixthTurns::Four, HexDirection::West) => {},
        (SixthTurns::Zero, SixthTurns::Four, HexDirection::NorthWest) => {},
        (SixthTurns::Zero, SixthTurns::Five, HexDirection::NorthEast) => {},
        (SixthTurns::Zero, SixthTurns::Five, HexDirection::East) => {},
        (SixthTurns::Zero, SixthTurns::Five, HexDirection::SouthEast) => {},
        (SixthTurns::Zero, SixthTurns::Five, HexDirection::SouthWest) => {},
        (SixthTurns::Zero, SixthTurns::Five, HexDirection::West) => {},
        (SixthTurns::Zero, SixthTurns::Five, HexDirection::NorthWest) => {},
        (SixthTurns::One, SixthTurns::Zero, HexDirection::NorthEast) => {},
        (SixthTurns::One, SixthTurns::Zero, HexDirection::East) => {},
        (SixthTurns::One, SixthTurns::Zero, HexDirection::SouthEast) => {},
        (SixthTurns::One, SixthTurns::Zero, HexDirection::SouthWest) => {},
        (SixthTurns::One, SixthTurns::Zero, HexDirection::West) => {},
        (SixthTurns::One, SixthTurns::Zero, HexDirection::NorthWest) => {},
        (SixthTurns::One, SixthTurns::One, HexDirection::NorthEast) => {},
        (SixthTurns::One, SixthTurns::One, HexDirection::East) => {},
        (SixthTurns::One, SixthTurns::One, HexDirection::SouthEast) => {},
        (SixthTurns::One, SixthTurns::One, HexDirection::SouthWest) => {},
        (SixthTurns::One, SixthTurns::One, HexDirection::West) => {},
        (SixthTurns::One, SixthTurns::One, HexDirection::NorthWest) => {},
        (SixthTurns::One, SixthTurns::Two, HexDirection::NorthEast) => {},
        (SixthTurns::One, SixthTurns::Two, HexDirection::East) => {},
        (SixthTurns::One, SixthTurns::Two, HexDirection::SouthEast) => {},
        (SixthTurns::One, SixthTurns::Two, HexDirection::SouthWest) => {},
        (SixthTurns::One, SixthTurns::Two, HexDirection::West) => {},
        (SixthTurns::One, SixthTurns::Two, HexDirection::NorthWest) => {},
        (SixthTurns::One, SixthTurns::Three, HexDirection::NorthEast) => {},
        (SixthTurns::One, SixthTurns::Three, HexDirection::East) => {},
        (SixthTurns::One, SixthTurns::Three, HexDirection::SouthEast) => {},
        (SixthTurns::One, SixthTurns::Three, HexDirection::SouthWest) => {},
        (SixthTurns::One, SixthTurns::Three, HexDirection::West) => {},
        (SixthTurns::One, SixthTurns::Three, HexDirection::NorthWest) => {},
        (SixthTurns::One, SixthTurns::Four, HexDirection::NorthEast) => {},
        (SixthTurns::One, SixthTurns::Four, HexDirection::East) => {},
        (SixthTurns::One, SixthTurns::Four, HexDirection::SouthEast) => {},
        (SixthTurns::One, SixthTurns::Four, HexDirection::SouthWest) => {},
        (SixthTurns::One, SixthTurns::Four, HexDirection::West) => {},
        (SixthTurns::One, SixthTurns::Four, HexDirection::NorthWest) => {},
        (SixthTurns::One, SixthTurns::Five, HexDirection::NorthEast) => {},
        (SixthTurns::One, SixthTurns::Five, HexDirection::East) => {},
        (SixthTurns::One, SixthTurns::Five, HexDirection::SouthEast) => {},
        (SixthTurns::One, SixthTurns::Five, HexDirection::SouthWest) => {},
        (SixthTurns::One, SixthTurns::Five, HexDirection::West) => {},
        (SixthTurns::One, SixthTurns::Five, HexDirection::NorthWest) => {},
        (SixthTurns::Two, SixthTurns::Zero, HexDirection::NorthEast) => {},
        (SixthTurns::Two, SixthTurns::Zero, HexDirection::East) => {},
        (SixthTurns::Two, SixthTurns::Zero, HexDirection::SouthEast) => {},
        (SixthTurns::Two, SixthTurns::Zero, HexDirection::SouthWest) => {},
        (SixthTurns::Two, SixthTurns::Zero, HexDirection::West) => {},
        (SixthTurns::Two, SixthTurns::Zero, HexDirection::NorthWest) => {},
        (SixthTurns::Two, SixthTurns::One, HexDirection::NorthEast) => {},
        (SixthTurns::Two, SixthTurns::One, HexDirection::East) => {},
        (SixthTurns::Two, SixthTurns::One, HexDirection::SouthEast) => {},
        (SixthTurns::Two, SixthTurns::One, HexDirection::SouthWest) => {},
        (SixthTurns::Two, SixthTurns::One, HexDirection::West) => {},
        (SixthTurns::Two, SixthTurns::One, HexDirection::NorthWest) => {},
        (SixthTurns::Two, SixthTurns::Two, HexDirection::NorthEast) => {},
        (SixthTurns::Two, SixthTurns::Two, HexDirection::East) => {},
        (SixthTurns::Two, SixthTurns::Two, HexDirection::SouthEast) => {},
        (SixthTurns::Two, SixthTurns::Two, HexDirection::SouthWest) => {},
        (SixthTurns::Two, SixthTurns::Two, HexDirection::West) => {},
        (SixthTurns::Two, SixthTurns::Two, HexDirection::NorthWest) => {},
        (SixthTurns::Two, SixthTurns::Three, HexDirection::NorthEast) => {},
        (SixthTurns::Two, SixthTurns::Three, HexDirection::East) => {},
        (SixthTurns::Two, SixthTurns::Three, HexDirection::SouthEast) => {},
        (SixthTurns::Two, SixthTurns::Three, HexDirection::SouthWest) => {},
        (SixthTurns::Two, SixthTurns::Three, HexDirection::West) => {},
        (SixthTurns::Two, SixthTurns::Three, HexDirection::NorthWest) => {},
        (SixthTurns::Two, SixthTurns::Four, HexDirection::NorthEast) => {},
        (SixthTurns::Two, SixthTurns::Four, HexDirection::East) => {},
        (SixthTurns::Two, SixthTurns::Four, HexDirection::SouthEast) => {},
        (SixthTurns::Two, SixthTurns::Four, HexDirection::SouthWest) => {},
        (SixthTurns::Two, SixthTurns::Four, HexDirection::West) => {},
        (SixthTurns::Two, SixthTurns::Four, HexDirection::NorthWest) => {},
        (SixthTurns::Two, SixthTurns::Five, HexDirection::NorthEast) => {},
        (SixthTurns::Two, SixthTurns::Five, HexDirection::East) => {},
        (SixthTurns::Two, SixthTurns::Five, HexDirection::SouthEast) => {},
        (SixthTurns::Two, SixthTurns::Five, HexDirection::SouthWest) => {},
        (SixthTurns::Two, SixthTurns::Five, HexDirection::West) => {},
        (SixthTurns::Two, SixthTurns::Five, HexDirection::NorthWest) => {},
        (SixthTurns::Three, SixthTurns::Zero, HexDirection::NorthEast) => {},
        (SixthTurns::Three, SixthTurns::Zero, HexDirection::East) => {},
        (SixthTurns::Three, SixthTurns::Zero, HexDirection::SouthEast) => {},
        (SixthTurns::Three, SixthTurns::Zero, HexDirection::SouthWest) => {},
        (SixthTurns::Three, SixthTurns::Zero, HexDirection::West) => {},
        (SixthTurns::Three, SixthTurns::Zero, HexDirection::NorthWest) => {},
        (SixthTurns::Three, SixthTurns::One, HexDirection::NorthEast) => {},
        (SixthTurns::Three, SixthTurns::One, HexDirection::East) => {},
        (SixthTurns::Three, SixthTurns::One, HexDirection::SouthEast) => {},
        (SixthTurns::Three, SixthTurns::One, HexDirection::SouthWest) => {},
        (SixthTurns::Three, SixthTurns::One, HexDirection::West) => {},
        (SixthTurns::Three, SixthTurns::One, HexDirection::NorthWest) => {},
        (SixthTurns::Three, SixthTurns::Two, HexDirection::NorthEast) => {},
        (SixthTurns::Three, SixthTurns::Two, HexDirection::East) => {},
        (SixthTurns::Three, SixthTurns::Two, HexDirection::SouthEast) => {},
        (SixthTurns::Three, SixthTurns::Two, HexDirection::SouthWest) => {},
        (SixthTurns::Three, SixthTurns::Two, HexDirection::West) => {},
        (SixthTurns::Three, SixthTurns::Two, HexDirection::NorthWest) => {},
        (SixthTurns::Three, SixthTurns::Three, HexDirection::NorthEast) => {},
        (SixthTurns::Three, SixthTurns::Three, HexDirection::East) => {},
        (SixthTurns::Three, SixthTurns::Three, HexDirection::SouthEast) => {},
        (SixthTurns::Three, SixthTurns::Three, HexDirection::SouthWest) => {},
        (SixthTurns::Three, SixthTurns::Three, HexDirection::West) => {},
        (SixthTurns::Three, SixthTurns::Three, HexDirection::NorthWest) => {},
        (SixthTurns::Three, SixthTurns::Four, HexDirection::NorthEast) => {},
        (SixthTurns::Three, SixthTurns::Four, HexDirection::East) => {},
        (SixthTurns::Three, SixthTurns::Four, HexDirection::SouthEast) => {},
        (SixthTurns::Three, SixthTurns::Four, HexDirection::SouthWest) => {},
        (SixthTurns::Three, SixthTurns::Four, HexDirection::West) => {},
        (SixthTurns::Three, SixthTurns::Four, HexDirection::NorthWest) => {},
        (SixthTurns::Three, SixthTurns::Five, HexDirection::NorthEast) => {},
        (SixthTurns::Three, SixthTurns::Five, HexDirection::East) => {},
        (SixthTurns::Three, SixthTurns::Five, HexDirection::SouthEast) => {},
        (SixthTurns::Three, SixthTurns::Five, HexDirection::SouthWest) => {},
        (SixthTurns::Three, SixthTurns::Five, HexDirection::West) => {},
        (SixthTurns::Three, SixthTurns::Five, HexDirection::NorthWest) => {},
        (SixthTurns::Four, SixthTurns::Zero, HexDirection::NorthEast) => {},
        (SixthTurns::Four, SixthTurns::Zero, HexDirection::East) => {},
        (SixthTurns::Four, SixthTurns::Zero, HexDirection::SouthEast) => {},
        (SixthTurns::Four, SixthTurns::Zero, HexDirection::SouthWest) => {},
        (SixthTurns::Four, SixthTurns::Zero, HexDirection::West) => {},
        (SixthTurns::Four, SixthTurns::Zero, HexDirection::NorthWest) => {},
        (SixthTurns::Four, SixthTurns::One, HexDirection::NorthEast) => {},
        (SixthTurns::Four, SixthTurns::One, HexDirection::East) => {},
        (SixthTurns::Four, SixthTurns::One, HexDirection::SouthEast) => {},
        (SixthTurns::Four, SixthTurns::One, HexDirection::SouthWest) => {},
        (SixthTurns::Four, SixthTurns::One, HexDirection::West) => {},
        (SixthTurns::Four, SixthTurns::One, HexDirection::NorthWest) => {},
        (SixthTurns::Four, SixthTurns::Two, HexDirection::NorthEast) => {},
        (SixthTurns::Four, SixthTurns::Two, HexDirection::East) => {},
        (SixthTurns::Four, SixthTurns::Two, HexDirection::SouthEast) => {},
        (SixthTurns::Four, SixthTurns::Two, HexDirection::SouthWest) => {},
        (SixthTurns::Four, SixthTurns::Two, HexDirection::West) => {},
        (SixthTurns::Four, SixthTurns::Two, HexDirection::NorthWest) => {},
        (SixthTurns::Four, SixthTurns::Three, HexDirection::NorthEast) => {},
        (SixthTurns::Four, SixthTurns::Three, HexDirection::East) => {},
        (SixthTurns::Four, SixthTurns::Three, HexDirection::SouthEast) => {},
        (SixthTurns::Four, SixthTurns::Three, HexDirection::SouthWest) => {},
        (SixthTurns::Four, SixthTurns::Three, HexDirection::West) => {},
        (SixthTurns::Four, SixthTurns::Three, HexDirection::NorthWest) => {},
        (SixthTurns::Four, SixthTurns::Four, HexDirection::NorthEast) => {},
        (SixthTurns::Four, SixthTurns::Four, HexDirection::East) => {},
        (SixthTurns::Four, SixthTurns::Four, HexDirection::SouthEast) => {},
        (SixthTurns::Four, SixthTurns::Four, HexDirection::SouthWest) => {},
        (SixthTurns::Four, SixthTurns::Four, HexDirection::West) => {},
        (SixthTurns::Four, SixthTurns::Four, HexDirection::NorthWest) => {},
        (SixthTurns::Four, SixthTurns::Five, HexDirection::NorthEast) => {},
        (SixthTurns::Four, SixthTurns::Five, HexDirection::East) => {},
        (SixthTurns::Four, SixthTurns::Five, HexDirection::SouthEast) => {},
        (SixthTurns::Four, SixthTurns::Five, HexDirection::SouthWest) => {},
        (SixthTurns::Four, SixthTurns::Five, HexDirection::West) => {},
        (SixthTurns::Four, SixthTurns::Five, HexDirection::NorthWest) => {},
        (SixthTurns::Five, SixthTurns::Zero, HexDirection::NorthEast) => {},
        (SixthTurns::Five, SixthTurns::Zero, HexDirection::East) => {},
        (SixthTurns::Five, SixthTurns::Zero, HexDirection::SouthEast) => {},
        (SixthTurns::Five, SixthTurns::Zero, HexDirection::SouthWest) => {},
        (SixthTurns::Five, SixthTurns::Zero, HexDirection::West) => {},
        (SixthTurns::Five, SixthTurns::Zero, HexDirection::NorthWest) => {},
        (SixthTurns::Five, SixthTurns::One, HexDirection::NorthEast) => {},
        (SixthTurns::Five, SixthTurns::One, HexDirection::East) => {},
        (SixthTurns::Five, SixthTurns::One, HexDirection::SouthEast) => {},
        (SixthTurns::Five, SixthTurns::One, HexDirection::SouthWest) => {},
        (SixthTurns::Five, SixthTurns::One, HexDirection::West) => {},
        (SixthTurns::Five, SixthTurns::One, HexDirection::NorthWest) => {},
        (SixthTurns::Five, SixthTurns::Two, HexDirection::NorthEast) => {},
        (SixthTurns::Five, SixthTurns::Two, HexDirection::East) => {},
        (SixthTurns::Five, SixthTurns::Two, HexDirection::SouthEast) => {},
        (SixthTurns::Five, SixthTurns::Two, HexDirection::SouthWest) => {},
        (SixthTurns::Five, SixthTurns::Two, HexDirection::West) => {},
        (SixthTurns::Five, SixthTurns::Two, HexDirection::NorthWest) => {},
        (SixthTurns::Five, SixthTurns::Three, HexDirection::NorthEast) => {},
        (SixthTurns::Five, SixthTurns::Three, HexDirection::East) => {},
        (SixthTurns::Five, SixthTurns::Three, HexDirection::SouthEast) => {},
        (SixthTurns::Five, SixthTurns::Three, HexDirection::SouthWest) => {},
        (SixthTurns::Five, SixthTurns::Three, HexDirection::West) => {},
        (SixthTurns::Five, SixthTurns::Three, HexDirection::NorthWest) => {},
        (SixthTurns::Five, SixthTurns::Four, HexDirection::NorthEast) => {},
        (SixthTurns::Five, SixthTurns::Four, HexDirection::East) => {},
        (SixthTurns::Five, SixthTurns::Four, HexDirection::SouthEast) => {},
        (SixthTurns::Five, SixthTurns::Four, HexDirection::SouthWest) => {},
        (SixthTurns::Five, SixthTurns::Four, HexDirection::West) => {},
        (SixthTurns::Five, SixthTurns::Four, HexDirection::NorthWest) => {},
        (SixthTurns::Five, SixthTurns::Five, HexDirection::NorthEast) => {},
        (SixthTurns::Five, SixthTurns::Five, HexDirection::East) => {},
        (SixthTurns::Five, SixthTurns::Five, HexDirection::SouthEast) => {},
        (SixthTurns::Five, SixthTurns::Five, HexDirection::SouthWest) => {},
        (SixthTurns::Five, SixthTurns::Five, HexDirection::West) => {},
        (SixthTurns::Five, SixthTurns::Five, HexDirection::NorthWest) => {},
    }
}

/// The inverse undoes the action on vectors and on directions.
pub proof fn lemma_d6_inverse_undoes(t: D6, v: (int, int), d: HexDirection)
    ensures
        d6_act(d6_inverse(t), d6_act(t, v)) == v,
        d6_apply_direction(d6_inverse(t), d6_apply_direction(t, d)) == d,
{
}

/// A direction moves exactly as its axial step does.
pub proof fn lemma_d6_moves_steps(t: D6, d: HexDirection)
    ensures
        d6_act(t, hex_axial_step(d)) == hex_axial_step(d6_apply_direction(t, d)),
{
}

/// A successful checked application is undone by the inverse.
pub proof fn lemma_d6_checked_apply_round_trip(t: D6, v: Coord2)
    requires
        d6_checked_apply(t, v) is Some,
    ensures
        d6_checked_apply(d6_inverse(t), d6_checked_apply(t, v).unwrap()) == Some(v),
{
    lemma_d6_inverse_undoes(t, (v.x as int, v.y as int), HexDirection::East);
}

/// A transformed edge is read either in the canonical order of its world direction or
/// exactly in reverse.
pub proof fn lemma_d6_edge_order(t: D6, local: HexDirection)
    ensures
        ({
            let moved = d6_act(t, hex_edge_tangent(local));
            let canonical = hex_edge_tangent(d6_apply_direction(t, local));
            moved == canonical || moved == (-canonical.0, -canonical.1)
        }),
{
}

/// `D6::all` lists every hexagon symmetry exactly once.
pub proof fn lemma_d6_all_complete(t: D6)
    ensures
        exists|i: int| 0 <= i < 12 && t == #[trigger] d6_listed(i),
        forall|i: int, j: int|
            0 <= i < 12 && 0 <= j < 12 && i != j ==> #[trigger] d6_listed(i)
                != #[trigger] d6_listed(j),
{
    let i = sixth_count(t.rotation) + if t.reflected { 6int } else { 0int };
    assert(t == d6_listed(i));
}

/// A finite symmetry acting on a direction set.
pub trait DirectionTransform<D: Direction>: Sized + Copy {
    /// The direction a local direction is carried to.
    spec fn spec_apply_direction(self, direction: D) -> D;

    /// The inverse transform.
    spec fn spec_inverse(self) -> Self;

    fn apply_direction(self, direction: D) -> (r: D)
        ensures
            r == self.spec_apply_direction(direction),
    ;

    fn inverse(self) -> (r: Self)
        ensures
            r == self.spec_inverse(),
    ;
}

/// A direction transform that also reports which edges it reads in reverse.
///
/// Edge samples follow a canonical order that opposite edges share; after a transform
/// carries a local edge to its world direction, the samples are either still in that
/// world direction's canonical order or exactly reversed.
pub trait EdgeTransform<D: Direction>: DirectionTransform<D> {
    /// Whether the edge facing a local direction is read in reverse after the transform.
    spec fn spec_reverses_edge(self, local_direction: D) -> bool;

    fn reverses_edge(self, local_direction: D) -> (r: bool)
        ensures
            r == self.spec_reverses_edge(local_direction),
    ;
}

impl DirectionTransform<SquareDirection> for D4 {
    open spec fn spec_apply_direction(self, direction: SquareDirection) -> SquareDirection {
        d4_apply_direction(self, direction)
    }

    open spec fn spec_inverse(self) -> Self {
        d4_inverse(self)
    }

    fn apply_direction(self, direction: SquareDirection) -> (r: SquareDirection) {
        D4::apply_direction(self, direction)
    }

    fn inverse(self) -> (r: Self) {
        D4::inverse(self)
    }
}

impl EdgeTransform<SquareDirection> for D4 {
    open spec fn spec_reverses_edge(self, local_direction: SquareDirection) -> bool {
        d4_reverses_edge(self, local_direction)
    }

    fn reverses_edge(self, local_direction: SquareDirection) -> (r: bool) {
        D4::reverses_edge(self, local_direction)
    }
}

impl DirectionTransform<HexDirection> for D6 {
    open spec fn spec_apply_direction(self, direction: HexDirection) -> HexDirection {
        d6_apply_direction(self, direction)
    }

    open spec fn spec_inverse(self) -> Self {
        d6_inverse(self)
    }

    fn apply_direction(self, direction: HexDirection) -> (r: HexDirection) {
        D6::apply_direction(self, direction)
    }

    fn inverse(self) -> (r: Self) {
        D6::inverse(self)
    }
}

impl EdgeTransform<HexDirection> for D6 {
    open spec fn spec_reverses_edge(self, local_direction: HexDirection) -> bool {
        d6_reverses_edge(self, local_direction)
    }

    fn reverses_edge(self, local_direction: HexDirection) -> (r: bool) {
        D6::reverses_edge(self, local_direction)
    }
}


/// A quarter turn carries each side of the square to the next one clockwise on screen
/// (north to east, east to south, south to west, west to north) and turns east's offset into
/// south's; the reflection mirrors left and right, swapping east and west and keeping north
/// and south.
pub proof fn lemma_d4_turns_clockwise_and_mirrors_left_right(d: SquareDirection)
    ensures
        d4_apply_direction(d4(QuarterTurns::One, false), d) == match d {
            SquareDirection::North => SquareDirection::East,
            SquareDirection::East => SquareDirection::South,
            SquareDirection::South => SquareDirection::West,
            SquareDirection::West => SquareDirection::North,
        },
        d4_apply_direction(d4(QuarterTurns::Zero, true), d) == match d {
            SquareDirection::East => SquareDirection::West,
            SquareDirection::West => SquareDirection::East,
            other => other,
        },
        d4_act(d4(QuarterTurns::One, false), (1, 0)) == (0int, 1int),
        d4_act(d4(QuarterTurns::Zero, true), (1, 0)) == (-1int, 0int),
        d4_act(d4(QuarterTurns::Zero, true), (0, 1)) == (0int, 1int),
{
}

/// A sixth turn carries each side of the hexagon to the next one clockwise on screen
/// (north-east, east, south-east, south-west, west, north-west, and around); the reflection
/// mirrors left and right, swapping the east and west sides of each row.
pub proof fn lemma_d6_turns_clockwise_and_mirrors_left_right(d: HexDirection)
    ensures
        d6_apply_direction(d6(SixthTurns::One, false), d) == match d {
            HexDirection::NorthEast => HexDirection::East,
            HexDirection::East => HexDirection::SouthEast,
            HexDirection::SouthEast => HexDirection::SouthWest,
            HexDirection::SouthWest => HexDirection::West,
            HexDirection::West => HexDirection::NorthWest,
            HexDirection::NorthWest => HexDirection::NorthEast,
        },
        d6_apply_direction(d6(SixthTurns::Zero, true), d) == match d {
            HexDirection::NorthEast => HexDirection::NorthWest,
            HexDirection::NorthWest => HexDirection::NorthEast,
            HexDirection::East => HexDirection::West,
            HexDirection::West => HexDirection::East,
            HexDirection::SouthEast => HexDirection::SouthWest,
            HexDirection::SouthWest => HexDirection::SouthEast,
        },
{
}

} // verus!
