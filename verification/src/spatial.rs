//! Integer coordinates, rectangular extents and rectangles.
use vstd::prelude::*;
use vstd::arithmetic::div_mod::lemma_fundamental_div_mod_converse;

verus! {

/// A signed coordinate or displacement in a two-dimensional integer space.
#[derive(Clone, Copy, Debug, Default, PartialEq, Eq, Hash, Structural)]
pub struct Coord2 {
    pub x: i32,
    pub y: i32,
}

impl Coord2 {
    pub fn new(x: i32, y: i32) -> (r: Self)
        ensures
            r.x == x,
            r.y == y,
    {
        Coord2 { x, y }
    }

    /// The origin `(0, 0)`.
    pub fn zero() -> (r: Self)
        ensures
            r.x == 0,
            r.y == 0,
    {
        Coord2 { x: 0, y: 0 }
    }
}

/// Whether an integer fits in an `i32`.
pub open spec fn fits_i32(value: int) -> bool {
    i32::MIN <= value <= i32::MAX
}

/// The non-negative dimensions of a rectangular region.
#[derive(Clone, Copy, Debug, Default, PartialEq, Eq, Hash)]
pub struct Extent2 {
    pub width: usize,
    pub height: usize,
}

/// The number of cells of an extent, as a mathematical integer.
pub open spec fn spec_area(extent: Extent2) -> int {
    extent.width * extent.height
}

/// Whether the number of cells of an extent fits in a `usize`.
pub open spec fn area_fits(extent: Extent2) -> bool {
    extent.width * extent.height <= usize::MAX
}

/// Whether a coordinate lies inside `[0, width) x [0, height)`.
pub open spec fn spec_extent_contains(extent: Extent2, coord: Coord2) -> bool {
    0 <= coord.x < extent.width && 0 <= coord.y < extent.height
}

/// The row-major index of an in-bounds coordinate, when it fits in a `usize`.
pub open spec fn spec_linear_index(extent: Extent2, coord: Coord2) -> Option<usize> {
    if spec_extent_contains(extent, coord) && coord.y * extent.width + coord.x <= usize::MAX {
        Some((coord.y * extent.width + coord.x) as usize)
    } else {
        None
    }
}

/// The coordinate of a row-major index below the area, when both components fit in an `i32`.
pub open spec fn spec_coordinate(extent: Extent2, index: usize) -> Option<Coord2> {
    if area_fits(extent) && index < spec_area(extent) && extent.width != 0
        && index % extent.width <= i32::MAX && index / extent.width <= i32::MAX {
        Some(Coord2 { x: (index % extent.width) as i32, y: (index / extent.width) as i32 })
    } else {
        None
    }
}

impl Extent2 {
    pub fn new(width: usize, height: usize) -> (r: Self)
        ensures
            r.width == width,
            r.height == height,
    {
        Extent2 { width, height }
    }

    /// Returns the number of cells, or `None` if the multiplication overflows.
    pub fn checked_area(self) -> (r: Option<usize>)
        ensures
            r == (if area_fits(self) { Some(spec_area(self) as usize) } else { None::<usize> }),
    {
        self.width.checked_mul(self.height)
    }

    pub fn contains(self, coord: Coord2) -> (r: bool)
        ensures
            r == spec_extent_contains(self, coord),
    {
        if coord.x < 0 || coord.y < 0 {
            return false;
        }
        let x = coord.x as usize;
        let y = coord.y as usize;
        x < self.width && y < self.height
    }

    /// Converts an in-bounds coordinate to a row-major index.
    pub fn linear_index(self, coord: Coord2) -> (r: Option<usize>)
        ensures
            r == spec_linear_index(self, coord),
    {
        if !self.contains(coord) {
            return None;
        }
        let x = coord.x as usize;
        let y = coord.y as usize;
        match y.checked_mul(self.width) {
            None => {
                assert(y * self.width + x > usize::MAX) by (nonlinear_arith)
                    requires
                        y * self.width > usize::MAX,
                        x >= 0,
                ;
                None
            },
            Some(row) => row.checked_add(x),
        }
    }

    /// Converts a row-major index to a coordinate.
    pub fn coordinate(self, index: usize) -> (r: Option<Coord2>)
        ensures
            r == spec_coordinate(self, index),
    {
        let area = match self.checked_area() {
            Some(area) => area,
            None => return None,
        };
        if index >= area || self.width == 0 {
            return None;
        }
        let x = index % self.width;
        let y = index / self.width;
        if x > i32::MAX as usize || y > i32::MAX as usize {
            return None;
        }
        Some(Coord2::new(x as i32, y as i32))
    }
}

/// Row-major decomposition: `y * width + x` divides back into `y` and `x`.
pub proof fn lemma_row_major_div_mod(width: int, x: int, y: int)
    requires
        0 <= x < width,
        0 <= y,
    ensures
        (y * width + x) / width == y,
        (y * width + x) % width == x,
{
    lemma_fundamental_div_mod_converse(y * width + x, width, y, x);
}

/// An in-bounds coordinate has a row-major index below the area.
pub proof fn lemma_row_major_below_area(width: int, height: int, x: int, y: int)
    requires
        0 <= x < width,
        0 <= y < height,
    ensures
        0 <= y * width + x < width * height,
{
    assert(0 <= y * width + x < width * height) by (nonlinear_arith)
        requires
            0 <= x < width,
            0 <= y < height,
    ;
}

/// Converting a contained coordinate to its index and back gives the coordinate again,
/// whenever the area of the extent fits in a `usize`.
pub proof fn lemma_coordinate_of_linear_index(extent: Extent2, coord: Coord2)
    requires
        area_fits(extent),
        spec_extent_contains(extent, coord),
    ensures
        spec_linear_index(extent, coord) == Some((coord.y * extent.width + coord.x) as usize),
        spec_coordinate(extent, (coord.y * extent.width + coord.x) as usize) == Some(coord),
{
    lemma_row_major_below_area(extent.width as int, extent.height as int, coord.x as int, coord.y as int);
    lemma_row_major_div_mod(extent.width as int, coord.x as int, coord.y as int);
}

/// Whether every index below the area of an extent has a coordinate: either there are no
/// cells, or both dimensions stay within the `i32` coordinate range.
pub open spec fn coordinates_fit(extent: Extent2) -> bool {
    spec_area(extent) == 0 || (extent.width <= i32::MAX + 1 && extent.height <= i32::MAX + 1)
}

/// Every index below the area of an extent whose coordinates fit has a contained coordinate.
pub proof fn lemma_coordinate_exists(extent: Extent2, index: usize)
    requires
        area_fits(extent),
        coordinates_fit(extent),
        index < spec_area(extent),
    ensures
        spec_coordinate(extent, index) is Some,
        spec_extent_contains(extent, spec_coordinate(extent, index).unwrap()),
        spec_linear_index(extent, spec_coordinate(extent, index).unwrap()) == Some(index),
{
    let w = extent.width as int;
    let h = extent.height as int;
    let i = index as int;
    assert(w > 0 && h > 0) by (nonlinear_arith)
        requires
            0 <= i < w * h,
            w >= 0,
            h >= 0,
    ;
    vstd::arithmetic::div_mod::lemma_fundamental_div_mod(i, w);
    vstd::arithmetic::div_mod::lemma_mod_pos_bound(i, w);
    assert(i / w < h) by (nonlinear_arith)
        requires
            0 <= i < w * h,
            w > 0,
            i == w * (i / w) + i % w,
            0 <= i % w < w,
    ;
    assert(i / w >= 0) by (nonlinear_arith)
        requires
            0 <= i,
            w > 0,
    ;
    lemma_linear_index_of_coordinate(extent, index);
}

/// Converting an index to its coordinate and back gives the index again.
pub proof fn lemma_linear_index_of_coordinate(extent: Extent2, index: usize)
    requires
        spec_coordinate(extent, index) is Some,
    ensures
        spec_extent_contains(extent, spec_coordinate(extent, index).unwrap()),
        spec_linear_index(extent, spec_coordinate(extent, index).unwrap()) == Some(index),
{
    let w = extent.width as int;
    let h = extent.height as int;
    let i = index as int;
    vstd::arithmetic::div_mod::lemma_fundamental_div_mod(i, w);
    vstd::arithmetic::div_mod::lemma_mod_pos_bound(i, w);
    assert(i / w < h) by (nonlinear_arith)
        requires
            0 <= i < w * h,
            w > 0,
            i == w * (i / w) + i % w,
            0 <= i % w < w,
    ;
    assert(i / w >= 0) by (nonlinear_arith)
        requires
            0 <= i,
            w > 0,
    ;
    assert((i / w) * w + i % w == i) by (nonlinear_arith)
        requires
            i == w * (i / w) + i % w,
    ;
}

/// An axis-aligned integer rectangle with an inclusive origin and exclusive upper bound.
#[derive(Clone, Copy, Debug, Default, PartialEq, Eq, Hash)]
pub struct Rect {
    pub origin: Coord2,
    pub extent: Extent2,
}

/// Whether a coordinate lies in a rectangle: the origin is inclusive and the upper bound
/// exclusive, on both axes, compared as mathematical integers.
pub open spec fn spec_rect_contains(rect: Rect, coord: Coord2) -> bool {
    &&& rect.origin.x <= coord.x < rect.origin.x + rect.extent.width
    &&& rect.origin.y <= coord.y < rect.origin.y + rect.extent.height
}

impl Rect {
    pub fn new(origin: Coord2, extent: Extent2) -> (r: Self)
        ensures
            r.origin == origin,
            r.extent == extent,
    {
        Rect { origin, extent }
    }

    pub fn contains(self, coord: Coord2) -> (r: bool)
        ensures
            r == spec_rect_contains(self, coord),
    {
        let dx = coord.x as i64 - self.origin.x as i64;
        let dy = coord.y as i64 - self.origin.y as i64;
        0 <= dx && (dx as u64) < (self.extent.width as u64) && 0 <= dy && (dy as u64) < (self.extent.height as u64)
    }
}


/// Cells are numbered row by row from the top-left corner: the first cell is zero, the cell to
/// the right of a cell comes right after it, and the first cell of a row comes right after
/// the last cell of the row above.
pub proof fn lemma_cells_are_numbered_row_by_row(extent: Extent2, x: i32, y: i32)
    requires
        area_fits(extent),
        coordinates_fit(extent),
        0 <= x < extent.width,
        0 <= y < extent.height,
    ensures
        spec_linear_index(extent, Coord2 { x: 0, y: 0 }) == Some(0usize),
        x + 1 < extent.width ==> spec_linear_index(extent, Coord2 { x: (x + 1) as i32, y }).unwrap() == spec_linear_index(
            extent,
            Coord2 { x, y },
        ).unwrap() + 1,
        x + 1 == extent.width && y + 1 < extent.height ==> spec_linear_index(extent, Coord2 { x: 0, y: (y + 1) as i32 }).unwrap()
            == spec_linear_index(extent, Coord2 { x, y }).unwrap() + 1,
        spec_linear_index(extent, Coord2 { x, y }) is Some,
{
    assert(extent.width * extent.height > 0) by (nonlinear_arith)
        requires
            extent.width > 0,
            extent.height > 0,
    ;
    assert(0 * extent.width == 0);
    lemma_coordinate_of_linear_index(extent, Coord2 { x: 0, y: 0 });
    lemma_coordinate_of_linear_index(extent, Coord2 { x, y });
    if x + 1 < extent.width {
        lemma_coordinate_of_linear_index(extent, Coord2 { x: (x + 1) as i32, y });
    }
    if x + 1 == extent.width && y + 1 < extent.height {
        lemma_coordinate_of_linear_index(extent, Coord2 { x: 0, y: (y + 1) as i32 });
        assert((y + 1) * extent.width == y * extent.width + extent.width) by (nonlinear_arith);
    }
}

} // verus!
