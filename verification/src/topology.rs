//! Cell identifiers, direction sets and the square and hexagonal lattices.
use vstd::prelude::*;
use vstd::string::StringExecFns;

use crate::text::{decimal, push_decimal};
use crate::spatial::{
    Coord2, Extent2, area_fits, fits_i32, lemma_coordinate_of_linear_index, lemma_linear_index_of_coordinate,
    lemma_row_major_below_area, spec_area, spec_coordinate, spec_extent_contains, spec_linear_index,
};

verus! {

/// A stable, dense identifier for a cell within one topology.
#[derive(Clone, Copy, Debug, PartialEq, Eq, PartialOrd, Ord, Hash, Structural)]
pub struct CellId(pub usize);

impl CellId {
    pub fn new(index: usize) -> (r: Self)
        ensures
            r.0 == index,
    {
        CellId(index)
    }

    pub fn index(self) -> (r: usize)
        ensures
            r == self.0,
    {
        self.0
    }
}

/// A finite direction set usable for dense direction-indexed storage.
///
/// Every direction has a distinct dense index below `count()`, every index below
/// `count()` names a direction, and `opposite` is an involution.
pub trait Direction: Sized + Copy + Eq + core::hash::Hash + core::fmt::Debug + 'static {
    /// The number of directions in the set.
    spec fn spec_count() -> nat;

    /// The dense index of a direction.
    spec fn spec_index(self) -> nat;

    /// The direction with a given dense index.
    spec fn spec_from_index(index: nat) -> Self;

    /// The opposite direction.
    spec fn spec_opposite(self) -> Self;

    /// The direction set's laws: indices are dense and distinct, and `opposite` is an involution.
    proof fn lemma_direction_laws()
        ensures
            0 < Self::spec_count() <= usize::MAX,
            forall|d: Self| #[trigger] d.spec_index() < Self::spec_count(),
            forall|d: Self| Self::spec_from_index(#[trigger] d.spec_index()) == d,
            forall|i: nat|
                i < Self::spec_count() ==> (#[trigger] Self::spec_from_index(i)).spec_index() == i,
            forall|d: Self| #[trigger] d.spec_opposite().spec_opposite() == d,
    ;

    fn count() -> (r: usize)
        ensures
            r == Self::spec_count(),
    ;

    fn from_index(index: usize) -> (r: Self)
        requires
            index < Self::spec_count(),
        ensures
            r == Self::spec_from_index(index as nat),
    ;

    fn index(self) -> (r: usize)
        ensures
            r == self.spec_index(),
    ;

    fn opposite(self) -> (r: Self)
        ensures
            r == self.spec_opposite(),
    ;

    /// Every direction, in index order.
    fn all() -> (r: Vec<Self>)
        ensures
            r@.len() == Self::spec_count(),
            forall|i: int| 0 <= i < r@.len() ==> #[trigger] r@[i] == Self::spec_from_index(i as nat),
    {
        proof {
            Self::lemma_direction_laws();
        }
        let count = Self::count();
        let mut all: Vec<Self> = Vec::new();
        let mut index: usize = 0;
        while index < count
            invariant
                count == Self::spec_count(),
                index <= count,
                all@.len() == index,
                forall|i: int| 0 <= i < all@.len() ==> #[trigger] all@[i] == Self::spec_from_index(i as nat),
            decreases count - index,
        {
            all.push(Self::from_index(index));
            index += 1;
        }
        all
    }
}

/// The four edge-sharing directions of a square cell.
#[derive(Clone, Copy, Debug, PartialEq, Eq, PartialOrd, Ord, Hash, Structural)]
pub enum SquareDirection {
    North,
    East,
    South,
    West,
}

/// The dense index of a square direction, clockwise from north.
pub open spec fn square_index(direction: SquareDirection) -> nat {
    match direction {
        SquareDirection::North => 0,
        SquareDirection::East => 1,
        SquareDirection::South => 2,
        SquareDirection::West => 3,
    }
}

/// The square direction with a given index (taken modulo four).
pub open spec fn square_from_index(index: int) -> SquareDirection {
    let i = index % 4;
    if i == 0 {
        SquareDirection::North
    } else if i == 1 {
        SquareDirection::East
    } else if i == 2 {
        SquareDirection::South
    } else {
        SquareDirection::West
    }
}

/// The displacement of one step in a square direction (`y` grows downward).
pub open spec fn square_offset(direction: SquareDirection) -> (int, int) {
    match direction {
        SquareDirection::North => (0, -1),
        SquareDirection::East => (1, 0),
        SquareDirection::South => (0, 1),
        SquareDirection::West => (-1, 0),
    }
}

impl Direction for SquareDirection {
    open spec fn spec_count() -> nat {
        4
    }

    open spec fn spec_index(self) -> nat {
        square_index(self)
    }

    open spec fn spec_from_index(index: nat) -> Self {
        square_from_index(index as int)
    }

    open spec fn spec_opposite(self) -> Self {
        square_from_index(square_index(self) as int + 2)
    }

    proof fn lemma_direction_laws() {
        assert forall|d: SquareDirection|
            #[trigger] d.spec_index() < 4 && square_from_index(d.spec_index() as int) == d
                && d.spec_opposite().spec_opposite() == d by {
            match d {
                SquareDirection::North => {},
                SquareDirection::East => {},
                SquareDirection::South => {},
                SquareDirection::West => {},
            }
        }
    }

    fn count() -> (r: usize) {
        4
    }

    fn from_index(index: usize) -> (r: Self) {
        match index {
            0 => SquareDirection::North,
            1 => SquareDirection::East,
            2 => SquareDirection::South,
            _ => SquareDirection::West,
        }
    }

    fn index(self) -> (r: usize) {
        match self {
            SquareDirection::North => 0,
            SquareDirection::East => 1,
            SquareDirection::South => 2,
            SquareDirection::West => 3,
        }
    }

    fn opposite(self) -> (r: Self) {
        match self {
            SquareDirection::North => SquareDirection::South,
            SquareDirection::East => SquareDirection::West,
            SquareDirection::South => SquareDirection::North,
            SquareDirection::West => SquareDirection::East,
        }
    }
}

impl SquareDirection {
    pub fn offset(self) -> (r: Coord2)
        ensures
            (r.x as int, r.y as int) == square_offset(self),
    {
        match self {
            SquareDirection::North => Coord2::new(0, -1),
            SquareDirection::East => Coord2::new(1, 0),
            SquareDirection::South => Coord2::new(0, 1),
            SquareDirection::West => Coord2::new(-1, 0),
        }
    }
}

/// The six edge-sharing directions of a pointy-top hexagonal cell, clockwise in screen
/// coordinates.
#[derive(Clone, Copy, Debug, PartialEq, Eq, PartialOrd, Ord, Hash, Structural)]
pub enum HexDirection {
    NorthEast,
    East,
    SouthEast,
    SouthWest,
    West,
    NorthWest,
}

/// The dense index of a hexagonal direction, clockwise from north-east.
pub open spec fn hex_index(direction: HexDirection) -> nat {
    match direction {
        HexDirection::NorthEast => 0,
        HexDirection::East => 1,
        HexDirection::SouthEast => 2,
        HexDirection::SouthWest => 3,
        HexDirection::West => 4,
        HexDirection::NorthWest => 5,
    }
}

/// The hexagonal direction with a given index (taken modulo six).
pub open spec fn hex_from_index(index: int) -> HexDirection {
    let i = index % 6;
    if i == 0 {
        HexDirection::NorthEast
    } else if i == 1 {
        HexDirection::East
    } else if i == 2 {
        HexDirection::SouthEast
    } else if i == 3 {
        HexDirection::SouthWest
    } else if i == 4 {
        HexDirection::West
    } else {
        HexDirection::NorthWest
    }
}

/// Whether a row is odd; odd rows are shifted half a cell to the right.
pub open spec fn is_odd_row(row: int) -> bool {
    row % 2 == 1
}

/// The displacement of one step in a hexagonal direction from a cell of the given row,
/// in odd-row offset coordinates.
pub open spec fn hex_offset(direction: HexDirection, row: int) -> (int, int) {
    let odd = is_odd_row(row);
    match direction {
        HexDirection::NorthEast => if odd { (1, -1) } else { (0, -1) },
        HexDirection::East => (1, 0),
        HexDirection::SouthEast => if odd { (1, 1) } else { (0, 1) },
        HexDirection::SouthWest => if odd { (0, 1) } else { (-1, 1) },
        HexDirection::West => (-1, 0),
        HexDirection::NorthWest => if odd { (0, -1) } else { (-1, -1) },
    }
}

impl Direction for HexDirection {
    open spec fn spec_count() -> nat {
        6
    }

    open spec fn spec_index(self) -> nat {
        hex_index(self)
    }

    open spec fn spec_from_index(index: nat) -> Self {
        hex_from_index(index as int)
    }

    open spec fn spec_opposite(self) -> Self {
        hex_from_index(hex_index(self) as int + 3)
    }

    proof fn lemma_direction_laws() {
        assert forall|d: HexDirection|
            #[trigger] d.spec_index() < 6 && hex_from_index(d.spec_index() as int) == d
                && d.spec_opposite().spec_opposite() == d by {
            match d {
                HexDirection::NorthEast => {},
                HexDirection::East => {},
                HexDirection::SouthEast => {},
                HexDirection::SouthWest => {},
                HexDirection::West => {},
                HexDirection::NorthWest => {},
            }
        }
    }

    fn count() -> (r: usize) {
        6
    }

    fn from_index(index: usize) -> (r: Self) {
        match index {
            0 => HexDirection::NorthEast,
            1 => HexDirection::East,
            2 => HexDirection::SouthEast,
            3 => HexDirection::SouthWest,
            4 => HexDirection::West,
            _ => HexDirection::NorthWest,
        }
    }

    fn index(self) -> (r: usize) {
        match self {
            HexDirection::NorthEast => 0,
            HexDirection::East => 1,
            HexDirection::SouthEast => 2,
            HexDirection::SouthWest => 3,
            HexDirection::West => 4,
            HexDirection::NorthWest => 5,
        }
    }

    fn opposite(self) -> (r: Self) {
        match self {
            HexDirection::NorthEast => HexDirection::SouthWest,
            HexDirection::East => HexDirection::West,
            HexDirection::SouthEast => HexDirection::NorthWest,
            HexDirection::SouthWest => HexDirection::NorthEast,
            HexDirection::West => HexDirection::East,
            HexDirection::NorthWest => HexDirection::SouthEast,
        }
    }
}

impl HexDirection {
    /// Returns this direction's offset in odd-row offset coordinates.
    pub fn offset(self, row: i32) -> (r: Coord2)
        ensures
            (r.x as int, r.y as int) == hex_offset(self, row as int),
    {
        let odd = row % 2 != 0;
        assert(odd == is_odd_row(row as int));
        match self {
            HexDirection::NorthEast => if odd { Coord2::new(1, -1) } else { Coord2::new(0, -1) },
            HexDirection::East => Coord2::new(1, 0),
            HexDirection::SouthEast => if odd { Coord2::new(1, 1) } else { Coord2::new(0, 1) },
            HexDirection::SouthWest => if odd { Coord2::new(0, 1) } else { Coord2::new(-1, 1) },
            HexDirection::West => Coord2::new(-1, 0),
            HexDirection::NorthWest => if odd { Coord2::new(0, -1) } else { Coord2::new(-1, -1) },
        }
    }
}

/// Defines cells and directional neighbor relationships independently of stored values.
///
/// Cells are the dense identifiers below `cell_count()`; `cell_at` and `neighbor` only
/// ever return such cells.
pub trait Topology: Sized {
    type Coord: Copy + Eq + core::hash::Hash;
    type Direction: Direction;

    spec fn spec_cell_count(&self) -> nat;

    spec fn spec_cell_at(&self, coord: Self::Coord) -> Option<CellId>;

    spec fn spec_coordinate(&self, cell: CellId) -> Option<Self::Coord>;

    spec fn spec_neighbor(&self, cell: CellId, direction: Self::Direction) -> Option<CellId>;

    /// Neighbors are cells of the topology.
    proof fn lemma_neighbor_in_range(&self, cell: CellId, direction: Self::Direction)
        ensures
            self.spec_neighbor(cell, direction) matches Some(next) ==> next.0 < self.spec_cell_count(),
    ;

    fn cell_count(&self) -> (r: usize)
        ensures
            r == self.spec_cell_count(),
    ;

    fn cell_at(&self, coord: Self::Coord) -> (r: Option<CellId>)
        ensures
            r == self.spec_cell_at(coord),
            r matches Some(cell) ==> cell.0 < self.spec_cell_count(),
    ;

    fn coordinate(&self, cell: CellId) -> (r: Option<Self::Coord>)
        ensures
            r == self.spec_coordinate(cell),
    ;

    fn neighbor(&self, cell: CellId, direction: Self::Direction) -> (r: Option<CellId>)
        ensures
            r == self.spec_neighbor(cell, direction),
            r matches Some(next) ==> next.0 < self.spec_cell_count(),
    ;

    fn contains(&self, cell: CellId) -> (r: bool)
        ensures
            r == (cell.0 < self.spec_cell_count()),
    {
        cell.index() < self.cell_count()
    }
}

/// Whether an axis stops at its edges or wraps around to the opposite edge.
#[derive(Clone, Copy, Debug, Default, PartialEq, Eq, Hash, Structural)]
pub enum Boundary {
    #[default]
    Bounded,
    Wrap,
}

/// Boundary behavior selected independently for both axes.
#[derive(Clone, Copy, Debug, Default, PartialEq, Eq, Hash, Structural)]
pub struct AxisBoundaries {
    pub horizontal: Boundary,
    pub vertical: Boundary,
}

/// Both axes stop at their edges.
pub open spec fn spec_bounded() -> AxisBoundaries {
    AxisBoundaries { horizontal: Boundary::Bounded, vertical: Boundary::Bounded }
}

/// Both axes wrap around.
pub open spec fn spec_toroidal() -> AxisBoundaries {
    AxisBoundaries { horizontal: Boundary::Wrap, vertical: Boundary::Wrap }
}

impl AxisBoundaries {
    pub fn new(horizontal: Boundary, vertical: Boundary) -> (r: Self)
        ensures
            r.horizontal == horizontal,
            r.vertical == vertical,
    {
        AxisBoundaries { horizontal, vertical }
    }

    /// Both axes stop at their edges.
    pub fn bounded() -> (r: Self)
        ensures
            r == spec_bounded(),
    {
        AxisBoundaries { horizontal: Boundary::Bounded, vertical: Boundary::Bounded }
    }

    /// Both axes wrap around.
    pub fn toroidal() -> (r: Self)
        ensures
            r == spec_toroidal(),
    {
        AxisBoundaries { horizontal: Boundary::Wrap, vertical: Boundary::Wrap }
    }
}

/// Why an extent cannot carry a topology.
#[derive(Clone, Debug, PartialEq, Eq)]
pub enum TopologyError {
    CellCountOverflow { extent: Extent2 },
    CoordinateRangeExceeded { extent: Extent2 },
}

impl TopologyError {
    /// The error's message.
    pub fn to_string(&self) -> (r: String)
        ensures
            r@ == match *self {
                TopologyError::CellCountOverflow { extent } => "topology cell count overflows usize: "@ + decimal(
                    extent.width as nat,
                ) + " x "@ + decimal(extent.height as nat),
                TopologyError::CoordinateRangeExceeded { extent } => "topology extent "@ + decimal(extent.width as nat)
                    + " x "@ + decimal(extent.height as nat) + " cannot be represented by signed coordinates"@,
            },
    {
        match *self {
            TopologyError::CellCountOverflow { extent } => {
                let mut text = "topology cell count overflows usize: ".to_owned();
                push_decimal(&mut text, extent.width);
                text.append(" x ");
                push_decimal(&mut text, extent.height);
                text
            },
            TopologyError::CoordinateRangeExceeded { extent } => {
                let mut text = "topology extent ".to_owned();
                push_decimal(&mut text, extent.width);
                text.append(" x ");
                push_decimal(&mut text, extent.height);
                text.append(" cannot be represented by signed coordinates");
                text
            },
        }
    }
}

/// Whether an extent has a representable area and every coordinate fits in an `i32`.
pub open spec fn topology_extent_valid(extent: Extent2) -> bool {
    &&& area_fits(extent)
    &&& extent.width <= i32::MAX + 1
    &&& extent.height <= i32::MAX + 1
}

/// The outcome of validating an extent for a topology.
pub open spec fn spec_validated_cell_count(extent: Extent2) -> Result<usize, TopologyError> {
    if !area_fits(extent) {
        Err(TopologyError::CellCountOverflow { extent })
    } else if extent.width > i32::MAX + 1 || extent.height > i32::MAX + 1 {
        Err(TopologyError::CoordinateRangeExceeded { extent })
    } else {
        Ok(spec_area(extent) as usize)
    }
}

/// Validates that an extent has a representable area and signed coordinates, returning its
/// cell count.
fn validated_cell_count(extent: Extent2) -> (r: Result<usize, TopologyError>)
    ensures
        r == spec_validated_cell_count(extent),
{
    let cell_count = match extent.checked_area() {
        Some(count) => count,
        None => return Err(TopologyError::CellCountOverflow { extent }),
    };
    if extent.width > i32::MAX as usize + 1 || extent.height > i32::MAX as usize + 1 {
        return Err(TopologyError::CoordinateRangeExceeded { extent });
    }
    Ok(cell_count)
}

/// The cell with a given coordinate in a row-major lattice.
pub open spec fn lattice_cell_at(extent: Extent2, coord: Coord2) -> Option<CellId> {
    match spec_linear_index(extent, coord) {
        Some(index) => Some(CellId(index)),
        None => None,
    }
}

/// The coordinate one step away on a square lattice, wrapping on the axes that wrap.
pub open spec fn square_neighbor_coordinate(
    extent: Extent2,
    boundaries: AxisBoundaries,
    coord: Coord2,
    direction: SquareDirection,
) -> Option<Coord2> {
    let x = coord.x as int;
    let y = coord.y as int;
    let w = extent.width as int;
    let h = extent.height as int;
    let wrap_x = boundaries.horizontal == Boundary::Wrap;
    let wrap_y = boundaries.vertical == Boundary::Wrap;
    if x < 0 || y < 0 {
        None
    } else {
        let next: Option<(int, int)> = match direction {
            SquareDirection::North => if y > 0 {
                Some((x, y - 1))
            } else if wrap_y && h >= 1 {
                Some((x, h - 1))
            } else {
                None
            },
            SquareDirection::South => if y + 1 < h {
                Some((x, y + 1))
            } else if wrap_y {
                Some((x, 0))
            } else {
                None
            },
            SquareDirection::West => if x > 0 {
                Some((x - 1, y))
            } else if wrap_x && w >= 1 {
                Some((w - 1, y))
            } else {
                None
            },
            SquareDirection::East => if x + 1 < w {
                Some((x + 1, y))
            } else if wrap_x {
                Some((0, y))
            } else {
                None
            },
        };
        match next {
            Some(p) => Some(Coord2 { x: p.0 as i32, y: p.1 as i32 }),
            None => None,
        }
    }
}

/// The neighbor of a cell on a square lattice.
pub open spec fn square_neighbor(
    extent: Extent2,
    boundaries: AxisBoundaries,
    cell: CellId,
    direction: SquareDirection,
) -> Option<CellId> {
    match spec_coordinate(extent, cell.0) {
        None => None,
        Some(coord) => match square_neighbor_coordinate(extent, boundaries, coord, direction) {
            None => None,
            Some(next) => lattice_cell_at(extent, next),
        },
    }
}

/// A four-neighbor rectangular square lattice.
#[derive(Clone, Copy, Debug, PartialEq, Eq, Hash)]
pub struct SquareTopology {
    extent: Extent2,
    boundaries: AxisBoundaries,
    cell_count: usize,
}

impl SquareTopology {
    #[verifier::type_invariant]
    spec fn inv(self) -> bool {
        &&& topology_extent_valid(self.extent)
        &&& self.cell_count == spec_area(self.extent)
    }

    /// The lattice's extent.
    pub closed spec fn spec_extent(self) -> Extent2 {
        self.extent
    }

    /// The lattice's boundary behavior.
    pub closed spec fn spec_boundaries(self) -> AxisBoundaries {
        self.boundaries
    }

    pub fn new(extent: Extent2, boundaries: AxisBoundaries) -> (r: Result<Self, TopologyError>)
        ensures
            r is Ok <==> topology_extent_valid(extent),
            r matches Ok(t) ==> t.spec_extent() == extent && t.spec_boundaries() == boundaries,
            r matches Err(e) ==> Err::<usize, TopologyError>(e) == spec_validated_cell_count(extent),
    {
        let cell_count = validated_cell_count(extent)?;
        Ok(SquareTopology { extent, boundaries, cell_count })
    }

    pub fn bounded(extent: Extent2) -> (r: Result<Self, TopologyError>)
        ensures
            r is Ok <==> topology_extent_valid(extent),
            r matches Ok(t) ==> t.spec_extent() == extent && t.spec_boundaries()
                == spec_bounded(),
            r matches Err(e) ==> Err::<usize, TopologyError>(e) == spec_validated_cell_count(extent),
    {
        Self::new(extent, AxisBoundaries::bounded())
    }

    pub fn toroidal(extent: Extent2) -> (r: Result<Self, TopologyError>)
        ensures
            r is Ok <==> topology_extent_valid(extent),
            r matches Ok(t) ==> t.spec_extent() == extent && t.spec_boundaries()
                == spec_toroidal(),
            r matches Err(e) ==> Err::<usize, TopologyError>(e) == spec_validated_cell_count(extent),
    {
        Self::new(extent, AxisBoundaries::toroidal())
    }

    pub fn extent(self) -> (r: Extent2)
        ensures
            r == self.spec_extent(),
            topology_extent_valid(r),
    {
        proof {
            use_type_invariant(self);
        }
        self.extent
    }

    pub fn boundaries(self) -> (r: AxisBoundaries)
        ensures
            r == self.spec_boundaries(),
    {
        self.boundaries
    }

    fn neighbor_coordinate(&self, coord: Coord2, direction: SquareDirection) -> (r: Option<Coord2>)
        requires
            spec_extent_contains(self.extent, coord),
            topology_extent_valid(self.extent),
        ensures
            r == square_neighbor_coordinate(self.extent, self.boundaries, coord, direction),
    {
        let mut x = coord.x as usize;
        let mut y = coord.y as usize;
        let wrap_x = self.boundaries.horizontal == Boundary::Wrap;
        let wrap_y = self.boundaries.vertical == Boundary::Wrap;
        match direction {
            SquareDirection::North => {
                if y > 0 {
                    y = y - 1;
                } else if wrap_y && self.extent.height >= 1 {
                    y = self.extent.height - 1;
                } else {
                    return None;
                }
            },
            SquareDirection::South => {
                if y + 1 < self.extent.height {
                    y = y + 1;
                } else if wrap_y {
                    y = 0;
                } else {
                    return None;
                }
            },
            SquareDirection::West => {
                if x > 0 {
                    x = x - 1;
                } else if wrap_x && self.extent.width >= 1 {
                    x = self.extent.width - 1;
                } else {
                    return None;
                }
            },
            SquareDirection::East => {
                if x + 1 < self.extent.width {
                    x = x + 1;
                } else if wrap_x {
                    x = 0;
                } else {
                    return None;
                }
            },
        }
        Some(Coord2::new(x as i32, y as i32))
    }
}

impl Topology for SquareTopology {
    type Coord = Coord2;
    type Direction = SquareDirection;

    open spec fn spec_cell_count(&self) -> nat {
        spec_area(self.spec_extent()) as nat
    }

    open spec fn spec_cell_at(&self, coord: Coord2) -> Option<CellId> {
        lattice_cell_at(self.spec_extent(), coord)
    }

    open spec fn spec_coordinate(&self, cell: CellId) -> Option<Coord2> {
        spec_coordinate(self.spec_extent(), cell.0)
    }

    open spec fn spec_neighbor(&self, cell: CellId, direction: SquareDirection) -> Option<CellId> {
        square_neighbor(self.spec_extent(), self.spec_boundaries(), cell, direction)
    }

    proof fn lemma_neighbor_in_range(&self, cell: CellId, direction: SquareDirection) {
        let extent = self.spec_extent();
        if let Some(coord) = spec_coordinate(extent, cell.0) {
            if let Some(next) = square_neighbor_coordinate(extent, self.spec_boundaries(), coord, direction) {
                if spec_linear_index(extent, next) is Some {
                    lemma_row_major_below_area(extent.width as int, extent.height as int, next.x as int, next.y as int);
                }
            }
        }
    }

    fn cell_count(&self) -> (r: usize) {
        proof {
            use_type_invariant(self);
        }
        self.cell_count
    }

    fn cell_at(&self, coord: Coord2) -> (r: Option<CellId>) {
        proof {
            use_type_invariant(self);
            if spec_extent_contains(self.extent, coord) {
                lemma_row_major_below_area(
                    self.extent.width as int,
                    self.extent.height as int,
                    coord.x as int,
                    coord.y as int,
                );
            }
        }
        match self.extent.linear_index(coord) {
            Some(index) => Some(CellId::new(index)),
            None => None,
        }
    }

    fn coordinate(&self, cell: CellId) -> (r: Option<Coord2>) {
        self.extent.coordinate(cell.index())
    }

    fn neighbor(&self, cell: CellId, direction: SquareDirection) -> (r: Option<CellId>) {
        proof {
            use_type_invariant(self);
        }
        let coord = match self.coordinate(cell) {
            Some(coord) => coord,
            None => return None,
        };
        proof {
            lemma_linear_index_of_coordinate(self.extent, cell.0);
        }
        let next = match self.neighbor_coordinate(coord, direction) {
            Some(next) => next,
            None => return None,
        };
        self.cell_at(next)
    }
}

/// A horizontal shift by `delta` columns on a hexagonal lattice, wrapping if the
/// horizontal axis wraps.
pub open spec fn hex_shift(extent: Extent2, boundaries: AxisBoundaries, x: int, delta: int) -> Option<int> {
    let w = extent.width as int;
    let wrap_x = boundaries.horizontal == Boundary::Wrap;
    if delta == -1 {
        if x > 0 {
            Some(x - 1)
        } else if wrap_x && w >= 1 {
            Some(w - 1)
        } else {
            None
        }
    } else if delta == 0 {
        Some(x)
    } else if delta == 1 {
        if x + 1 < w {
            Some(x + 1)
        } else if wrap_x {
            Some(0)
        } else {
            None
        }
    } else {
        None
    }
}

/// The column shift and the row of the hexagonal neighbor in a direction, before the
/// horizontal boundary is applied. Wrapped vertical seams use fixed shifts so that they
/// pair rows reciprocally whatever the height's parity.
pub open spec fn hex_step(extent: Extent2, boundaries: AxisBoundaries, y: int, direction: HexDirection) -> Option<(int, int)> {
    let h = extent.height as int;
    let odd = is_odd_row(y);
    let wrap_y = boundaries.vertical == Boundary::Wrap;
    let up = if odd { 1int } else { 0int };
    match direction {
        HexDirection::East => Some((1, y)),
        HexDirection::West => Some((-1, y)),
        HexDirection::NorthEast => if y > 0 {
            Some((up, y - 1))
        } else if wrap_y && h >= 1 {
            Some((0, h - 1))
        } else {
            None
        },
        HexDirection::NorthWest => if y > 0 {
            Some((up - 1, y - 1))
        } else if wrap_y && h >= 1 {
            Some((-1, h - 1))
        } else {
            None
        },
        HexDirection::SouthEast => if y + 1 < h {
            Some((up, y + 1))
        } else if wrap_y {
            Some((1, 0))
        } else {
            None
        },
        HexDirection::SouthWest => if y + 1 < h {
            Some((up - 1, y + 1))
        } else if wrap_y {
            Some((0, 0))
        } else {
            None
        },
    }
}

/// The coordinate one step away on a hexagonal lattice in odd-row offset coordinates.
pub open spec fn hex_neighbor_coordinate(
    extent: Extent2,
    boundaries: AxisBoundaries,
    coord: Coord2,
    direction: HexDirection,
) -> Option<Coord2> {
    if coord.x < 0 || coord.y < 0 {
        None
    } else {
        match hex_step(extent, boundaries, coord.y as int, direction) {
            None => None,
            Some(step) => match hex_shift(extent, boundaries, coord.x as int, step.0) {
                None => None,
                Some(x) => Some(Coord2 { x: x as i32, y: step.1 as i32 }),
            },
        }
    }
}

/// The neighbor of a cell on a hexagonal lattice.
pub open spec fn hex_neighbor(
    extent: Extent2,
    boundaries: AxisBoundaries,
    cell: CellId,
    direction: HexDirection,
) -> Option<CellId> {
    match spec_coordinate(extent, cell.0) {
        None => None,
        Some(coord) => match hex_neighbor_coordinate(extent, boundaries, coord, direction) {
            None => None,
            Some(next) => lattice_cell_at(extent, next),
        },
    }
}

/// A six-neighbor pointy-top hexagonal lattice in odd-row offset coordinates.
///
/// Coordinates remain a dense rectangle: odd rows are visually shifted half a cell to the
/// right. Wrapped vertical seams pair opposite edges reciprocally even when the height is odd.
#[derive(Clone, Copy, Debug, PartialEq, Eq, Hash)]
pub struct HexTopology {
    extent: Extent2,
    boundaries: AxisBoundaries,
    cell_count: usize,
}

impl HexTopology {
    #[verifier::type_invariant]
    spec fn inv(self) -> bool {
        &&& topology_extent_valid(self.extent)
        &&& self.cell_count == spec_area(self.extent)
    }

    /// The lattice's extent.
    pub closed spec fn spec_extent(self) -> Extent2 {
        self.extent
    }

    /// The lattice's boundary behavior.
    pub closed spec fn spec_boundaries(self) -> AxisBoundaries {
        self.boundaries
    }

    pub fn new(extent: Extent2, boundaries: AxisBoundaries) -> (r: Result<Self, TopologyError>)
        ensures
            r is Ok <==> topology_extent_valid(extent),
            r matches Ok(t) ==> t.spec_extent() == extent && t.spec_boundaries() == boundaries,
            r matches Err(e) ==> Err::<usize, TopologyError>(e) == spec_validated_cell_count(extent),
    {
        let cell_count = validated_cell_count(extent)?;
        Ok(HexTopology { extent, boundaries, cell_count })
    }

    pub fn bounded(extent: Extent2) -> (r: Result<Self, TopologyError>)
        ensures
            r is Ok <==> topology_extent_valid(extent),
            r matches Ok(t) ==> t.spec_extent() == extent && t.spec_boundaries() == spec_bounded(),
            r matches Err(e) ==> Err::<usize, TopologyError>(e) == spec_validated_cell_count(extent),
    {
        Self::new(extent, AxisBoundaries::bounded())
    }

    pub fn toroidal(extent: Extent2) -> (r: Result<Self, TopologyError>)
        ensures
            r is Ok <==> topology_extent_valid(extent),
            r matches Ok(t) ==> t.spec_extent() == extent && t.spec_boundaries() == spec_toroidal(),
            r matches Err(e) ==> Err::<usize, TopologyError>(e) == spec_validated_cell_count(extent),
    {
        Self::new(extent, AxisBoundaries::toroidal())
    }

    pub fn extent(self) -> (r: Extent2)
        ensures
            r == self.spec_extent(),
            topology_extent_valid(r),
    {
        proof {
            use_type_invariant(self);
        }
        self.extent
    }

    pub fn boundaries(self) -> (r: AxisBoundaries)
        ensures
            r == self.spec_boundaries(),
    {
        self.boundaries
    }

    fn shift_horizontal(&self, x: usize, delta: i32) -> (r: Option<usize>)
        requires
            x < self.extent.width,
        ensures
            r matches Some(v) ==> hex_shift(self.extent, self.boundaries, x as int, delta as int) == Some(v as int),
            r is None ==> hex_shift(self.extent, self.boundaries, x as int, delta as int) is None,
    {
        let wrap_x = self.boundaries.horizontal == Boundary::Wrap;
        if delta == -1 {
            if x > 0 {
                Some(x - 1)
            } else if wrap_x && self.extent.width >= 1 {
                Some(self.extent.width - 1)
            } else {
                None
            }
        } else if delta == 0 {
            Some(x)
        } else if delta == 1 {
            if x + 1 < self.extent.width {
                Some(x + 1)
            } else if wrap_x {
                Some(0)
            } else {
                None
            }
        } else {
            None
        }
    }

    fn neighbor_coordinate(&self, coord: Coord2, direction: HexDirection) -> (r: Option<Coord2>)
        requires
            spec_extent_contains(self.extent, coord),
            topology_extent_valid(self.extent),
        ensures
            r == hex_neighbor_coordinate(self.extent, self.boundaries, coord, direction),
    {
        let x = coord.x as usize;
        let y = coord.y as usize;
        let odd = y % 2 == 1;
        let up: i32 = if odd { 1 } else { 0 };
        let wrap_y = self.boundaries.vertical == Boundary::Wrap;
        let height = self.extent.height;
        let (delta_x, neighbor_y): (i32, usize) = match direction {
            HexDirection::East => (1, y),
            HexDirection::West => (-1, y),
            HexDirection::NorthEast => if y > 0 {
                (up, y - 1)
            } else if wrap_y && height >= 1 {
                (0, height - 1)
            } else {
                return None;
            },
            HexDirection::NorthWest => if y > 0 {
                (up - 1, y - 1)
            } else if wrap_y && height >= 1 {
                (-1, height - 1)
            } else {
                return None;
            },
            HexDirection::SouthEast => if y + 1 < height {
                (up, y + 1)
            } else if wrap_y {
                (1, 0)
            } else {
                return None;
            },
            HexDirection::SouthWest => if y + 1 < height {
                (up - 1, y + 1)
            } else if wrap_y {
                (0, 0)
            } else {
                return None;
            },
        };
        let neighbor_x = match self.shift_horizontal(x, delta_x) {
            Some(v) => v,
            None => return None,
        };
        Some(Coord2::new(neighbor_x as i32, neighbor_y as i32))
    }
}

impl Topology for HexTopology {
    type Coord = Coord2;
    type Direction = HexDirection;

    open spec fn spec_cell_count(&self) -> nat {
        spec_area(self.spec_extent()) as nat
    }

    open spec fn spec_cell_at(&self, coord: Coord2) -> Option<CellId> {
        lattice_cell_at(self.spec_extent(), coord)
    }

    open spec fn spec_coordinate(&self, cell: CellId) -> Option<Coord2> {
        spec_coordinate(self.spec_extent(), cell.0)
    }

    open spec fn spec_neighbor(&self, cell: CellId, direction: HexDirection) -> Option<CellId> {
        hex_neighbor(self.spec_extent(), self.spec_boundaries(), cell, direction)
    }

    proof fn lemma_neighbor_in_range(&self, cell: CellId, direction: HexDirection) {
        let extent = self.spec_extent();
        if let Some(coord) = spec_coordinate(extent, cell.0) {
            if let Some(next) = hex_neighbor_coordinate(extent, self.spec_boundaries(), coord, direction) {
                if spec_linear_index(extent, next) is Some {
                    lemma_row_major_below_area(extent.width as int, extent.height as int, next.x as int, next.y as int);
                }
            }
        }
    }

    fn cell_count(&self) -> (r: usize) {
        proof {
            use_type_invariant(self);
        }
        self.cell_count
    }

    fn cell_at(&self, coord: Coord2) -> (r: Option<CellId>) {
        proof {
            use_type_invariant(self);
            if spec_extent_contains(self.extent, coord) {
                lemma_row_major_below_area(
                    self.extent.width as int,
                    self.extent.height as int,
                    coord.x as int,
                    coord.y as int,
                );
            }
        }
        match self.extent.linear_index(coord) {
            Some(index) => Some(CellId::new(index)),
            None => None,
        }
    }

    fn coordinate(&self, cell: CellId) -> (r: Option<Coord2>) {
        self.extent.coordinate(cell.index())
    }

    fn neighbor(&self, cell: CellId, direction: HexDirection) -> (r: Option<CellId>) {
        proof {
            use_type_invariant(self);
        }
        let coord = match self.coordinate(cell) {
            Some(coord) => coord,
            None => return None,
        };
        proof {
            lemma_linear_index_of_coordinate(self.extent, cell.0);
        }
        let next = match self.neighbor_coordinate(coord, direction) {
            Some(next) => next,
            None => return None,
        };
        self.cell_at(next)
    }
}

/// Every cell of a valid lattice has a coordinate, and that coordinate names the cell again.
pub proof fn lemma_lattice_round_trip(extent: Extent2, cell: CellId)
    requires
        topology_extent_valid(extent),
        cell.0 < spec_area(extent),
    ensures
        spec_coordinate(extent, cell.0) is Some,
        spec_extent_contains(extent, spec_coordinate(extent, cell.0).unwrap()),
        lattice_cell_at(extent, spec_coordinate(extent, cell.0).unwrap()) == Some(cell),
{
    let w = extent.width as int;
    let h = extent.height as int;
    let i = cell.0 as int;
    vstd::arithmetic::div_mod::lemma_fundamental_div_mod(i, w);
    vstd::arithmetic::div_mod::lemma_mod_pos_bound(i, w);
    assert(w > 0) by (nonlinear_arith)
        requires
            0 <= i < w * h,
            w >= 0,
            h >= 0,
    ;
    assert(i / w < h) by (nonlinear_arith)
        requires
            0 <= i < w * h,
            w > 0,
            i == w * (i / w) + i % w,
            0 <= i % w < w,
    ;
    assert(i / w >= 0) by (nonlinear_arith)
        requires
            0 <= i,
            w > 0,
    ;
    lemma_linear_index_of_coordinate(extent, cell.0);
}

/// A neighboring coordinate on a valid lattice lies inside the lattice.
proof fn lemma_lattice_neighbor_cell(extent: Extent2, next: Coord2)
    requires
        topology_extent_valid(extent),
        spec_extent_contains(extent, next),
    ensures
        lattice_cell_at(extent, next) is Some,
        lattice_cell_at(extent, next).unwrap().0 < spec_area(extent),
        spec_coordinate(extent, lattice_cell_at(extent, next).unwrap().0) == Some(next),
{
    lemma_coordinate_of_linear_index(extent, next);
    lemma_row_major_below_area(extent.width as int, extent.height as int, next.x as int, next.y as int);
}

/// Square neighbors are reciprocal: stepping back in the opposite direction returns to
/// the starting cell, on bounded and wrapped axes alike.
pub proof fn lemma_square_neighbor_reciprocal(
    extent: Extent2,
    boundaries: AxisBoundaries,
    cell: CellId,
    direction: SquareDirection,
)
    requires
        topology_extent_valid(extent),
        square_neighbor(extent, boundaries, cell, direction) is Some,
    ensures
        square_neighbor(
            extent,
            boundaries,
            square_neighbor(extent, boundaries, cell, direction).unwrap(),
            direction.spec_opposite(),
        ) == Some(cell),
{
    lemma_linear_index_of_coordinate(extent, cell.0);
    let coord = spec_coordinate(extent, cell.0).unwrap();
    let next = square_neighbor_coordinate(extent, boundaries, coord, direction).unwrap();
    assert(spec_extent_contains(extent, next));
    lemma_lattice_neighbor_cell(extent, next);
    assert(square_neighbor_coordinate(extent, boundaries, next, direction.spec_opposite()) == Some(coord));
}

/// Hexagonal neighbors are reciprocal for every boundary mode and every extent.
pub proof fn lemma_hex_neighbor_reciprocal(
    extent: Extent2,
    boundaries: AxisBoundaries,
    cell: CellId,
    direction: HexDirection,
)
    requires
        topology_extent_valid(extent),
        hex_neighbor(extent, boundaries, cell, direction) is Some,
    ensures
        hex_neighbor(
            extent,
            boundaries,
            hex_neighbor(extent, boundaries, cell, direction).unwrap(),
            direction.spec_opposite(),
        ) == Some(cell),
{
    lemma_linear_index_of_coordinate(extent, cell.0);
    let coord = spec_coordinate(extent, cell.0).unwrap();
    let next = hex_neighbor_coordinate(extent, boundaries, coord, direction).unwrap();
    assert(spec_extent_contains(extent, next));
    lemma_lattice_neighbor_cell(extent, next);
    assert(hex_neighbor_coordinate(extent, boundaries, next, direction.spec_opposite()) == Some(coord));
}

/// On a bounded square lattice, a neighbor is the cell at the coordinate shifted by the
/// direction's offset.
pub proof fn lemma_square_bounded_neighbor_is_offset(extent: Extent2, cell: CellId, direction: SquareDirection)
    requires
        topology_extent_valid(extent),
        cell.0 < spec_area(extent),
    ensures
        ({
            let coord = spec_coordinate(extent, cell.0).unwrap();
            let offset = square_offset(direction);
            let shifted = Coord2 { x: (coord.x + offset.0) as i32, y: (coord.y + offset.1) as i32 };
            fits_i32(coord.x + offset.0) && fits_i32(coord.y + offset.1)
                ==> square_neighbor(extent, spec_bounded(), cell, direction) == lattice_cell_at(extent, shifted)
        }),
{
    lemma_lattice_round_trip(extent, cell);
    let coord = spec_coordinate(extent, cell.0).unwrap();
    match square_neighbor_coordinate(extent, spec_bounded(), coord, direction) {
        Some(next) => {
            lemma_lattice_neighbor_cell(extent, next);
        },
        None => {},
    }
}

/// On a bounded hexagonal lattice, a neighbor is the cell at the coordinate shifted by the
/// direction's odd-row offset.
pub proof fn lemma_hex_bounded_neighbor_is_offset(extent: Extent2, cell: CellId, direction: HexDirection)
    requires
        topology_extent_valid(extent),
        cell.0 < spec_area(extent),
    ensures
        ({
            let coord = spec_coordinate(extent, cell.0).unwrap();
            let offset = hex_offset(direction, coord.y as int);
            let shifted = Coord2 { x: (coord.x + offset.0) as i32, y: (coord.y + offset.1) as i32 };
            fits_i32(coord.x + offset.0) && fits_i32(coord.y + offset.1)
                ==> hex_neighbor(extent, spec_bounded(), cell, direction) == lattice_cell_at(extent, shifted)
        }),
{
    lemma_lattice_round_trip(extent, cell);
    let coord = spec_coordinate(extent, cell.0).unwrap();
    match hex_neighbor_coordinate(extent, spec_bounded(), coord, direction) {
        Some(next) => {
            lemma_lattice_neighbor_cell(extent, next);
        },
        None => {},
    }
}

/// On a torus every cell has a neighbor in every square direction.
pub proof fn lemma_square_toroidal_neighbors_exist(extent: Extent2, cell: CellId, direction: SquareDirection)
    requires
        topology_extent_valid(extent),
        cell.0 < spec_area(extent),
    ensures
        square_neighbor(extent, spec_toroidal(), cell, direction) is Some,
{
    lemma_lattice_round_trip(extent, cell);
    let coord = spec_coordinate(extent, cell.0).unwrap();
    let next = square_neighbor_coordinate(extent, spec_toroidal(), coord, direction).unwrap();
    lemma_lattice_neighbor_cell(extent, next);
}

/// On a torus every cell has a neighbor in every hexagonal direction.
pub proof fn lemma_hex_toroidal_neighbors_exist(extent: Extent2, cell: CellId, direction: HexDirection)
    requires
        topology_extent_valid(extent),
        cell.0 < spec_area(extent),
    ensures
        hex_neighbor(extent, spec_toroidal(), cell, direction) is Some,
{
    lemma_lattice_round_trip(extent, cell);
    let coord = spec_coordinate(extent, cell.0).unwrap();
    let next = hex_neighbor_coordinate(extent, spec_toroidal(), coord, direction).unwrap();
    lemma_lattice_neighbor_cell(extent, next);
}


/// A step of `delta` (at most one cell either way) along an axis of `length` cells, taken
/// modulo the length, from a position on the axis.
proof fn lemma_wrapped_step(position: int, delta: int, length: int)
    requires
        0 <= position < length,
        -1 <= delta <= 1,
    ensures
        0 <= (position + delta) % length < length,
        0 <= position + delta < length ==> (position + delta) % length == position + delta,
        position + delta < 0 ==> (position + delta) % length == length - 1,
        position + delta >= length ==> (position + delta) % length == 0,
{
    let v = position + delta;
    if 0 <= v < length {
        vstd::arithmetic::div_mod::lemma_small_mod(v as nat, length as nat);
    } else if v < 0 {
        vstd::arithmetic::div_mod::lemma_fundamental_div_mod_converse(v, length, -1, length - 1);
    } else {
        vstd::arithmetic::div_mod::lemma_fundamental_div_mod_converse(v, length, 1, 0);
    }
}

/// A step on a square lattice moves by the direction's offset: one column east or west, one
/// row south (down) or north (up), the other coordinate unchanged. On an axis that wraps the
/// step is taken modulo the axis's length, so crossing a seam keeps the other coordinate; on
/// an axis that does not wrap there is no neighbor past the edge.
pub proof fn lemma_square_step_is_offset_modulo_extent(topology: SquareTopology, x: int, y: int, direction: SquareDirection)
    requires
        topology_extent_valid(topology.spec_extent()),
        0 <= x < topology.spec_extent().width,
        0 <= y < topology.spec_extent().height,
    ensures
        ({
            let w = topology.spec_extent().width as int;
            let h = topology.spec_extent().height as int;
            let dx: int = match direction {
                SquareDirection::East => 1,
                SquareDirection::West => -1,
                _ => 0,
            };
            let dy: int = match direction {
                SquareDirection::South => 1,
                SquareDirection::North => -1,
                _ => 0,
            };
            let wraps_x = topology.spec_boundaries().horizontal == Boundary::Wrap;
            let wraps_y = topology.spec_boundaries().vertical == Boundary::Wrap;
            let reachable = (wraps_x || 0 <= x + dx < w) && (wraps_y || 0 <= y + dy < h);
            topology.spec_neighbor(CellId((y * w + x) as usize), direction) == if reachable {
                Some(CellId((((y + dy) % h) * w + (x + dx) % w) as usize))
            } else {
                None
            }
        }),
{
    let extent = topology.spec_extent();
    let w = extent.width as int;
    let h = extent.height as int;
    let coord = Coord2 { x: x as i32, y: y as i32 };
    lemma_coordinate_of_linear_index(extent, coord);
    let dx: int = match direction {
        SquareDirection::East => 1,
        SquareDirection::West => -1,
        _ => 0,
    };
    let dy: int = match direction {
        SquareDirection::South => 1,
        SquareDirection::North => -1,
        _ => 0,
    };
    lemma_wrapped_step(x, dx, w);
    lemma_wrapped_step(y, dy, h);
    let wraps_x = topology.spec_boundaries().horizontal == Boundary::Wrap;
    let wraps_y = topology.spec_boundaries().vertical == Boundary::Wrap;
    let reachable = (wraps_x || 0 <= x + dx < w) && (wraps_y || 0 <= y + dy < h);
    if reachable {
        let next = Coord2 { x: ((x + dx) % w) as i32, y: ((y + dy) % h) as i32 };
        assert(square_neighbor_coordinate(extent, topology.spec_boundaries(), coord, direction) == Some(next));
        lemma_coordinate_of_linear_index(extent, next);
    } else {
        assert(square_neighbor_coordinate(extent, topology.spec_boundaries(), coord, direction) is None);
    }
}


/// A step on a hexagonal lattice in odd-row offset coordinates that stays within the rows
/// moves by the direction's offset: east and west change the column by one; the four
/// diagonal steps change the row by one and the column by the row's half-cell shift (odd
/// rows sit half a cell to the right). A wrapping horizontal axis takes the column modulo
/// the width; a bounded one has no neighbor past its edge.
pub proof fn lemma_hex_step_is_offset_modulo_width(topology: HexTopology, x: int, y: int, direction: HexDirection)
    requires
        topology_extent_valid(topology.spec_extent()),
        0 <= x < topology.spec_extent().width,
        0 <= y < topology.spec_extent().height,
        ({
            let dy: int = match direction {
                HexDirection::NorthEast | HexDirection::NorthWest => -1,
                HexDirection::SouthEast | HexDirection::SouthWest => 1,
                _ => 0,
            };
            0 <= y + dy < topology.spec_extent().height
        }),
    ensures
        ({
            let w = topology.spec_extent().width as int;
            let odd = y % 2 == 1;
            let dy: int = match direction {
                HexDirection::NorthEast | HexDirection::NorthWest => -1,
                HexDirection::SouthEast | HexDirection::SouthWest => 1,
                _ => 0,
            };
            let dx: int = match direction {
                HexDirection::East => 1,
                HexDirection::West => -1,
                HexDirection::NorthEast | HexDirection::SouthEast => if odd { 1 } else { 0 },
                HexDirection::NorthWest | HexDirection::SouthWest => if odd { 0 } else { -1 },
            };
            let wraps_x = topology.spec_boundaries().horizontal == Boundary::Wrap;
            topology.spec_neighbor(CellId((y * w + x) as usize), direction) == if wraps_x || 0 <= x + dx < w {
                Some(CellId(((y + dy) * w + (x + dx) % w) as usize))
            } else {
                None
            }
        }),
{
    let extent = topology.spec_extent();
    let w = extent.width as int;
    let odd = y % 2 == 1;
    let coord = Coord2 { x: x as i32, y: y as i32 };
    lemma_coordinate_of_linear_index(extent, coord);
    let dy: int = match direction {
        HexDirection::NorthEast | HexDirection::NorthWest => -1,
        HexDirection::SouthEast | HexDirection::SouthWest => 1,
        _ => 0,
    };
    let dx: int = match direction {
        HexDirection::East => 1,
        HexDirection::West => -1,
        HexDirection::NorthEast | HexDirection::SouthEast => if odd { 1 } else { 0 },
        HexDirection::NorthWest | HexDirection::SouthWest => if odd { 0 } else { -1 },
    };
    lemma_wrapped_step(x, dx, w);
    assert(hex_step(extent, topology.spec_boundaries(), y, direction) == Some((dx, y + dy)));
    if topology.spec_boundaries().horizontal == Boundary::Wrap || 0 <= x + dx < w {
        let next = Coord2 { x: ((x + dx) % w) as i32, y: (y + dy) as i32 };
        assert(hex_neighbor_coordinate(extent, topology.spec_boundaries(), coord, direction) == Some(next));
        lemma_coordinate_of_linear_index(extent, next);
    } else {
        assert(hex_neighbor_coordinate(extent, topology.spec_boundaries(), coord, direction) is None);
    }
}

} // verus!
