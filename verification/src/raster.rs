//! Fixed-size tile rasters: a square pixel grid and a pointy-top hexagon of samples on an
//! axial lattice, with their border geometry, symmetries and exported images.
//!
//! A color is packed big-endian as `0xRRGGBBAA`, so comparing two packed colors orders them
//! as their `[r, g, b, a]` byte arrays would be ordered.
use vstd::prelude::*;

use crate::grid::Grid;
use crate::spatial::{Coord2, Extent2, spec_linear_index};
use crate::tile::{EdgeStrip, SocketMap};
use crate::topology::{Direction, HexDirection, SquareDirection};
use crate::transform::{
    D4, D6, d4_act, d4_inverse, d6_act, d6_inverse, lemma_d4_inverse, lemma_d4_inverse_undoes, lemma_d6_inverse,
    lemma_d6_inverse_undoes,
};

verus! {

/// A color packed big-endian as `0xRRGGBBAA`.
pub type Rgba = u32;

/// The side length, in pixels, of a square raster.
pub const SQUARE_RASTER_SIZE: usize = 32;

/// The number of ordered samples on each side of a hex raster.
pub const HEX_EDGE_SAMPLES: usize = 12;

/// The number of sample intervals on each side of a hex raster.
pub const HEX_EDGE_INTERVALS: i32 = 11;

/// The side length of the square storage that holds a hex raster.
pub const HEX_STORAGE_SIZE: usize = 45;

/// The width, in texels, of an exported hex image.
pub const HEX_IMAGE_WIDTH: usize = 67;

/// The height, in texels, of an exported hex image.
pub const HEX_IMAGE_HEIGHT: usize = 45;

/// The color of a closed border.
pub const EDGE_BACKGROUND: Rgba = 0x181b_1fff;

/// The color a new stroke paints with.
pub const DEFAULT_PAINT_COLOR: Rgba = 0xf0f0_f0ff;

/// Fully transparent black.
pub const TRANSPARENT: Rgba = 0;

/// The `index`-th byte, from the most significant, of a packed color.
pub open spec fn color_byte(color: Rgba, index: int) -> u8 {
    if index == 0 {
        (color >> 24u32) as u8
    } else if index == 1 {
        ((color >> 16u32) & 0xffu32) as u8
    } else if index == 2 {
        ((color >> 8u32) & 0xffu32) as u8
    } else {
        (color & 0xffu32) as u8
    }
}

/// Rectangular RGBA data ready for upload to a renderer texture.
#[derive(Clone, Debug, PartialEq, Eq, Hash)]
pub struct VariantImage {
    size: [usize; 2],
    rgba: Vec<u8>,
}

impl VariantImage {
    /// The width and height, in texels.
    pub closed spec fn spec_size(&self) -> (usize, usize) {
        (self.size[0], self.size[1])
    }

    /// Four bytes per texel, row-major.
    pub closed spec fn spec_rgba(&self) -> Seq<u8> {
        self.rgba@
    }

    pub fn new(size: [usize; 2], rgba: Vec<u8>) -> (r: Self)
        requires
            rgba@.len() == size[0] * size[1] * 4,
        ensures
            r.spec_size() == (size[0], size[1]),
            r.spec_rgba() == rgba@,
    {
        VariantImage { size, rgba }
    }

    pub fn size(&self) -> (r: [usize; 2])
        ensures
            (r[0], r[1]) == self.spec_size(),
    {
        self.size
    }

    pub fn rgba(&self) -> (r: &[u8])
        ensures
            r@ == self.spec_rgba(),
    {
        self.rgba.as_slice()
    }
}

/// The absolute value of an integer.
pub open spec fn abs(value: int) -> int {
    if value < 0 {
        -value
    } else {
        value
    }
}

/// The hex (cube) distance between two axial coordinates.
pub open spec fn spec_hex_distance(left: Coord2, right: Coord2) -> int {
    let dq = abs(left.x - right.x);
    let dr = abs(left.y - right.y);
    let ds = abs((left.x + left.y) - (right.x + right.y));
    if dq >= dr && dq >= ds {
        dq
    } else if dr >= ds {
        dr
    } else {
        ds
    }
}

/// Whether the axial point `(q, r)` lies inside the hex raster's six half-planes.
pub open spec fn spec_hex_contains_point(q: int, r: int) -> bool {
    &&& abs(q - r) <= 3 * HEX_EDGE_INTERVALS
    &&& abs(2 * q + r) <= 3 * HEX_EDGE_INTERVALS
    &&& abs(q + 2 * r) <= 3 * HEX_EDGE_INTERVALS
}

/// Whether an axial coordinate lies inside the hex raster's six half-planes.
pub open spec fn spec_hex_contains(coord: Coord2) -> bool {
    spec_hex_contains_point(coord.x as int, coord.y as int)
}

/// The absolute value of a wide integer.
fn abs_i64(value: i64) -> (r: i64)
    requires
        value > i64::MIN,
    ensures
        r == abs(value as int),
{
    if value < 0 {
        -value
    } else {
        value
    }
}

/// The distance between two axial coordinates. Every difference, sum and absolute value it
/// takes must fit in an `i32`.
pub fn hex_distance(left: Coord2, right: Coord2) -> (r: i32)
    requires
        i32::MIN < left.x - right.x <= i32::MAX,
        i32::MIN < left.y - right.y <= i32::MAX,
        i32::MIN <= left.x + left.y <= i32::MAX,
        i32::MIN <= right.x + right.y <= i32::MAX,
        i32::MIN < (left.x + left.y) - (right.x + right.y) <= i32::MAX,
    ensures
        r == spec_hex_distance(left, right),
{
    let dq = abs_i64(left.x as i64 - right.x as i64);
    let dr = abs_i64(left.y as i64 - right.y as i64);
    let ds = abs_i64((left.x as i64 + left.y as i64) - (right.x as i64 + right.y as i64));
    if dq >= dr && dq >= ds {
        dq as i32
    } else if dr >= ds {
        dr as i32
    } else {
        ds as i32
    }
}

/// The start vertex of one side of the hex raster and the step between its samples, as
/// `((start q, start r), (step q, step r))`.
pub open spec fn spec_hex_edge_ray(direction: HexDirection) -> ((int, int), (int, int)) {
    match direction {
        HexDirection::NorthEast => ((11, -22), (1, 1)),
        HexDirection::East => ((22, -11), (-1, 2)),
        HexDirection::SouthEast => ((11, 11), (-2, 1)),
        HexDirection::SouthWest => ((-22, 11), (1, 1)),
        HexDirection::West => ((-11, -11), (-1, 2)),
        HexDirection::NorthWest => ((11, -22), (-2, 1)),
    }
}

/// The `index`-th sample along one side of the hex raster.
pub open spec fn spec_hex_edge_sample(direction: HexDirection, index: int) -> Coord2 {
    let (start, step) = spec_hex_edge_ray(direction);
    Coord2 { x: (start.0 + step.0 * index) as i32, y: (start.1 + step.1 * index) as i32 }
}

/// The `index`-th pixel along one side of the square raster.
pub open spec fn spec_square_edge_sample(direction: SquareDirection, index: int) -> Coord2 {
    let far = (SQUARE_RASTER_SIZE - 1) as i32;
    match direction {
        SquareDirection::North => Coord2 { x: index as i32, y: 0 },
        SquareDirection::East => Coord2 { x: far, y: index as i32 },
        SquareDirection::South => Coord2 { x: index as i32, y: far },
        SquareDirection::West => Coord2 { x: 0, y: index as i32 },
    }
}

/// Whether an axial coordinate lies inside the hex raster.
pub fn hex_contains(coord: Coord2) -> (r: bool)
    ensures
        r == spec_hex_contains(coord),
{
    let q = coord.x as i64;
    let r = coord.y as i64;
    let limit: i64 = 33;
    abs_i64(q - r) <= limit && abs_i64(2 * q + r) <= limit && abs_i64(q + 2 * r) <= limit
}

/// The exported texel holding an in-hex sample's center.
pub open spec fn spec_sample_texel(coord: Coord2) -> (int, int) {
    (2 * coord.x + coord.y + 3 * HEX_EDGE_INTERVALS, coord.y + 2 * HEX_EDGE_INTERVALS)
}

/// The sample owning an exported texel, or `None` outside the hex: of the two lattice
/// columns nearest the texel, the in-hex one whose center is closest, the left one on a tie.
pub open spec fn spec_sample_at_texel(x: int, y: int) -> Option<Coord2> {
    let k = HEX_EDGE_INTERVALS as int;
    let u = x - 3 * k;
    let r = y - 2 * k;
    if abs(u) > 3 * k || abs(u - 3 * r) > 6 * k || abs(u + 3 * r) > 6 * k {
        None
    } else {
        let q0 = (u - r) / 2;
        let left = Coord2 { x: q0 as i32, y: r as i32 };
        let right = Coord2 { x: (q0 + 1) as i32, y: r as i32 };
        let left_in = spec_hex_contains(left);
        let right_in = spec_hex_contains(right);
        if left_in && (!right_in || abs(2 * q0 + r - u) <= abs(2 * (q0 + 1) + r - u)) {
            Some(left)
        } else if right_in {
            Some(right)
        } else {
            None
        }
    }
}

/// The exported texel holding a sample's center.
fn hex_sample_texel(coord: Coord2) -> (r: [i32; 2])
    requires
        spec_hex_contains(coord),
    ensures
        (r[0] as int, r[1] as int) == spec_sample_texel(coord),
{
    let k = HEX_EDGE_INTERVALS;
    [2 * coord.x + coord.y + 3 * k, coord.y + 2 * k]
}

/// The sample owning an exported texel (see [`spec_sample_at_texel`]).
fn hex_sample_at_texel(x: i32, y: i32) -> (r: Option<Coord2>)
    ensures
        r == spec_sample_at_texel(x as int, y as int),
{
    let k: i64 = 11;
    let u = x as i64 - 3 * k;
    let r = y as i64 - 2 * k;
    if abs_i64(u) > 3 * k || abs_i64(u - 3 * r) > 6 * k || abs_i64(u + 3 * r) > 6 * k {
        return None;
    }
    let difference = u - r;
    let q0: i64 = if difference >= 0 {
        difference / 2
    } else {
        -((1 - difference) / 2)
    };
    proof {
        assert(q0 == (u - r) / 2) by (nonlinear_arith)
            requires
                difference == u - r,
                difference >= 0 ==> q0 == difference / 2,
                difference < 0 ==> q0 == -((1 - difference) / 2),
        ;
    }
    let left = Coord2::new(q0 as i32, r as i32);
    let right = Coord2::new((q0 + 1) as i32, r as i32);
    let left_in = hex_contains(left);
    let right_in = hex_contains(right);
    if left_in && (!right_in || abs_i64(2 * q0 + r - u) <= abs_i64(2 * (q0 + 1) + r - u)) {
        Some(left)
    } else if right_in {
        Some(right)
    } else {
        None
    }
}

/// The four bytes of every color, most significant first.
pub open spec fn spec_color_bytes(colors: Seq<Rgba>) -> Seq<u8> {
    Seq::new(colors.len() * 4, |i: int| color_byte(colors[i / 4], i % 4))
}

/// Appends the four bytes of `color`, most significant first.
fn push_color_bytes(bytes: &mut Vec<u8>, color: Rgba)
    ensures
        final(bytes)@ == old(bytes)@ + seq![color_byte(color, 0), color_byte(color, 1), color_byte(color, 2), color_byte(color, 3)],
{
    bytes.push((color >> 24) as u8);
    bytes.push(((color >> 16) & 0xff) as u8);
    bytes.push(((color >> 8) & 0xff) as u8);
    bytes.push((color & 0xff) as u8);
}

/// The row-major position of pixel `(x, y)` in a square raster.
pub open spec fn square_pixel_index(x: int, y: int) -> int {
    y * SQUARE_RASTER_SIZE + x
}

/// Where a square symmetry moves pixel `(x, y)`: the symmetry acts on doubled,
/// center-relative pixel coordinates.
pub open spec fn square_transform_pixel(transform: D4, x: int, y: int) -> (int, int) {
    let offset = SQUARE_RASTER_SIZE - 1;
    let mapped = d4_act(transform, (2 * x - offset, 2 * y - offset));
    ((mapped.0 + offset) / 2, (mapped.1 + offset) / 2)
}

/// A fixed-size square RGBA tile image.
#[derive(Debug, PartialEq, Eq, Hash)]
pub struct SquareRaster {
    pixels: Grid<Rgba>,
}

impl Clone for SquareRaster {
    /// A copy with the same pixels.
    fn clone(&self) -> (r: Self)
        ensures
            r.spec_pixels() == self.spec_pixels(),
            self.wf() ==> r.wf(),
    {
        let pixels = self.pixels.clone();
        proof {
            assert(pixels@ =~= self.pixels@);
        }
        SquareRaster { pixels }
    }
}

impl SquareRaster {
    /// The storage is a 32 by 32 grid.
    pub closed spec fn wf(&self) -> bool {
        &&& self.pixels.spec_extent() == Extent2 { width: SQUARE_RASTER_SIZE, height: SQUARE_RASTER_SIZE }
        &&& self.pixels@.len() == SQUARE_RASTER_SIZE * SQUARE_RASTER_SIZE
    }

    /// The pixels in row-major order.
    pub closed spec fn spec_pixels(&self) -> Seq<Rgba> {
        self.pixels@
    }

    /// The color of pixel `(x, y)`.
    pub open spec fn spec_get(&self, x: int, y: int) -> Rgba {
        self.spec_pixels()[square_pixel_index(x, y)]
    }

    /// A raster of one color.
    pub fn filled(color: Rgba) -> (r: Self)
        ensures
            r.wf(),
            forall|i: int| 0 <= i < SQUARE_RASTER_SIZE * SQUARE_RASTER_SIZE ==> #[trigger] r.spec_pixels()[i] == color,
    {
        let extent = Extent2::new(SQUARE_RASTER_SIZE, SQUARE_RASTER_SIZE);
        let pixels = Grid::filled(extent, color).unwrap();
        proof {
            assert forall|i: int| 0 <= i < pixels@.len() implies #[trigger] pixels@[i] == color by {
                assert(cloned(color, pixels@[i]));
            }
        }
        SquareRaster { pixels }
    }

    /// The color of pixel `(x, y)`.
    pub fn get(&self, x: usize, y: usize) -> (r: Rgba)
        requires
            self.wf(),
            x < SQUARE_RASTER_SIZE,
            y < SQUARE_RASTER_SIZE,
        ensures
            r == self.spec_get(x as int, y as int),
    {
        let coord = Coord2::new(x as i32, y as i32);
        proof {
            assert(spec_linear_index(self.pixels.spec_extent(), coord) == Some(square_pixel_index(x as int, y as int) as usize));
        }
        self.pixels[coord]
    }

    /// Paints pixel `(x, y)`.
    pub fn set(&mut self, x: usize, y: usize, color: Rgba)
        requires
            old(self).wf(),
            x < SQUARE_RASTER_SIZE,
            y < SQUARE_RASTER_SIZE,
        ensures
            final(self).wf(),
            final(self).spec_pixels() == old(self).spec_pixels().update(square_pixel_index(x as int, y as int), color),
    {
        let coord = Coord2::new(x as i32, y as i32);
        let ghost index = square_pixel_index(x as int, y as int);
        proof {
            assert(spec_linear_index(self.pixels.spec_extent(), coord) == Some(index as usize));
        }
        match self.pixels.get_mut(coord) {
            Some(pixel) => {
                *pixel = color;
            },
            None => {},
        }
        proof {
            assert(self.pixels@ == old(self).pixels@.update(index, color));
        }
    }

    /// Paints the pixel at `coord`, reporting whether it exists and changed.
    pub fn set_pixel(&mut self, coord: Coord2, color: Rgba) -> (r: bool)
        requires
            old(self).wf(),
        ensures
            final(self).wf(),
            r == (0 <= coord.x < SQUARE_RASTER_SIZE && 0 <= coord.y < SQUARE_RASTER_SIZE && old(self).spec_get(
                coord.x as int,
                coord.y as int,
            ) != color),
            r ==> final(self).spec_pixels() == old(self).spec_pixels().update(
                square_pixel_index(coord.x as int, coord.y as int),
                color,
            ),
            !r ==> final(self).spec_pixels() == old(self).spec_pixels(),
    {
        let ghost index = square_pixel_index(coord.x as int, coord.y as int);
        proof {
            if 0 <= coord.x < SQUARE_RASTER_SIZE && 0 <= coord.y < SQUARE_RASTER_SIZE {
                assert(spec_linear_index(self.pixels.spec_extent(), coord) == Some(index as usize));
            }
        }
        let changed = match self.pixels.get_mut(coord) {
            Some(pixel) => {
                if *pixel == color {
                    false
                } else {
                    *pixel = color;
                    true
                }
            },
            None => false,
        };
        proof {
            if changed {
                assert(self.pixels@ == old(self).pixels@.update(index, color));
            } else {
                assert(self.pixels@ =~= old(self).pixels@);
            }
        }
        changed
    }

    /// The ordered pixels of one side.
    pub fn edge(&self, direction: SquareDirection) -> (r: EdgeStrip<Rgba>)
        requires
            self.wf(),
        ensures
            r@.len() == SQUARE_RASTER_SIZE,
            forall|i: int| 0 <= i < SQUARE_RASTER_SIZE ==> #[trigger] r@[i] == self.spec_get(
                spec_square_edge_sample(direction, i).x as int,
                spec_square_edge_sample(direction, i).y as int,
            ),
    {
        let mut samples: Vec<Rgba> = Vec::with_capacity(SQUARE_RASTER_SIZE);
        let mut index: usize = 0;
        while index < SQUARE_RASTER_SIZE
            invariant
                index <= SQUARE_RASTER_SIZE,
                samples@.len() == index,
                self.wf(),
                forall|i: int| 0 <= i < index ==> #[trigger] samples@[i] == self.spec_get(
                    spec_square_edge_sample(direction, i).x as int,
                    spec_square_edge_sample(direction, i).y as int,
                ),
            decreases SQUARE_RASTER_SIZE - index,
        {
            let far = SQUARE_RASTER_SIZE - 1;
            let color = match direction {
                SquareDirection::North => self.get(index, 0),
                SquareDirection::East => self.get(far, index),
                SquareDirection::South => self.get(index, far),
                SquareDirection::West => self.get(0, index),
            };
            samples.push(color);
            index += 1;
        }
        EdgeStrip::new(samples)
    }

    /// Every side's ordered pixels, in direction order.
    pub fn edges(&self) -> (r: SocketMap<SquareDirection, EdgeStrip<Rgba>>)
        requires
            self.wf(),
        ensures
            r@.len() == 4,
            forall|d: int, i: int| 0 <= d < 4 && 0 <= i < SQUARE_RASTER_SIZE ==> (#[trigger] r@[d])@.len() == SQUARE_RASTER_SIZE
                && #[trigger] r@[d]@[i] == self.spec_get(
                    spec_square_edge_sample(SquareDirection::spec_from_index(d as nat), i).x as int,
                    spec_square_edge_sample(SquareDirection::spec_from_index(d as nat), i).y as int,
                ),
    {
        let make = |direction: SquareDirection| -> (strip: EdgeStrip<Rgba>)
            requires
                self.wf(),
            ensures
                strip@.len() == SQUARE_RASTER_SIZE,
                forall|i: int| 0 <= i < SQUARE_RASTER_SIZE ==> #[trigger] strip@[i] == self.spec_get(
                    spec_square_edge_sample(direction, i).x as int,
                    spec_square_edge_sample(direction, i).y as int,
                ),
        { self.edge(direction) };
        let r = SocketMap::from_fn(make);
        proof {
            SquareDirection::lemma_direction_laws();
        }
        r
    }

    /// Four bytes per pixel, row-major.
    pub fn to_variant_image(&self) -> (r: VariantImage)
        requires
            self.wf(),
        ensures
            r.spec_size() == (SQUARE_RASTER_SIZE, SQUARE_RASTER_SIZE),
            r.spec_rgba() == spec_color_bytes(self.spec_pixels()),
    {
        let total = SQUARE_RASTER_SIZE * SQUARE_RASTER_SIZE;
        let mut bytes: Vec<u8> = Vec::with_capacity(total * 4);
        let mut index: usize = 0;
        while index < total
            invariant
                total == self.spec_pixels().len(),
                self.wf(),
                index <= total,
                bytes@ == spec_color_bytes(self.spec_pixels().subrange(0, index as int)),
            decreases total - index,
        {
            let y = index / SQUARE_RASTER_SIZE;
            let x = index % SQUARE_RASTER_SIZE;
            let color = self.get(x, y);
            let ghost before = bytes@;
            push_color_bytes(&mut bytes, color);
            proof {
                assert(square_pixel_index(x as int, y as int) == index);
                let next = self.spec_pixels().subrange(0, index as int + 1);
                assert(bytes@ =~= spec_color_bytes(next)) by {
                    assert forall|i: int| 0 <= i < bytes@.len() implies bytes@[i] == spec_color_bytes(next)[i] by {
                        if i < before.len() {
                            assert(next[i / 4] == self.spec_pixels().subrange(0, index as int)[i / 4]);
                        } else {
                            assert(i / 4 == index);
                        }
                    }
                }
            }
            index += 1;
        }
        proof {
            assert(self.spec_pixels().subrange(0, total as int) =~= self.spec_pixels());
        }
        VariantImage::new([SQUARE_RASTER_SIZE, SQUARE_RASTER_SIZE], bytes)
    }
}

/// A square symmetry maps the pixel grid onto itself, and the doubled, centered coordinates
/// of the moved pixel are those the symmetry produces.
proof fn lemma_square_transform_pixel(transform: D4, x: int, y: int)
    requires
        0 <= x < SQUARE_RASTER_SIZE,
        0 <= y < SQUARE_RASTER_SIZE,
    ensures
        ({
            let moved = square_transform_pixel(transform, x, y);
            let mapped = d4_act(transform, (2 * x - 31, 2 * y - 31));
            &&& 0 <= moved.0 < SQUARE_RASTER_SIZE
            &&& 0 <= moved.1 < SQUARE_RASTER_SIZE
            &&& 2 * moved.0 - 31 == mapped.0
            &&& 2 * moved.1 - 31 == mapped.1
        }),
{
}

/// Moving pixels by a square symmetry and then by its inverse restores them; in particular
/// no two pixels move to the same place.
proof fn lemma_square_transform_round_trip(transform: D4, x: int, y: int)
    requires
        0 <= x < SQUARE_RASTER_SIZE,
        0 <= y < SQUARE_RASTER_SIZE,
    ensures
        ({
            let moved = square_transform_pixel(transform, x, y);
            square_transform_pixel(d4_inverse(transform), moved.0, moved.1) == (x, y)
        }),
{
    lemma_square_transform_pixel(transform, x, y);
    let moved = square_transform_pixel(transform, x, y);
    lemma_square_transform_pixel(d4_inverse(transform), moved.0, moved.1);
    lemma_d4_inverse_undoes(transform, (2 * x - 31, 2 * y - 31), SquareDirection::North);
}

impl SquareRaster {
    /// Applies a square symmetry: pixel `(x, y)` moves to
    /// [`square_transform_pixel`]`(transform, x, y)`.
    pub fn transformed(&self, transform: D4) -> (r: Self)
        requires
            self.wf(),
        ensures
            r.wf(),
            forall|x: int, y: int|
                0 <= x < SQUARE_RASTER_SIZE && 0 <= y < SQUARE_RASTER_SIZE ==> #[trigger] r.spec_get(x, y) == self.spec_get(
                    square_transform_pixel(d4_inverse(transform), x, y).0,
                    square_transform_pixel(d4_inverse(transform), x, y).1,
                ),
    {
        let mut out = SquareRaster::filled(TRANSPARENT);
        let mut y: usize = 0;
        while y < SQUARE_RASTER_SIZE
            invariant
                self.wf(),
                out.wf(),
                y <= SQUARE_RASTER_SIZE,
                forall|x0: int, y0: int|
                    0 <= x0 < SQUARE_RASTER_SIZE && 0 <= y0 < y ==> #[trigger] out.spec_get(
                        square_transform_pixel(transform, x0, y0).0,
                        square_transform_pixel(transform, x0, y0).1,
                    ) == self.spec_get(x0, y0),
            decreases SQUARE_RASTER_SIZE - y,
        {
            let mut x: usize = 0;
            while x < SQUARE_RASTER_SIZE
                invariant
                    self.wf(),
                    out.wf(),
                    y < SQUARE_RASTER_SIZE,
                    x <= SQUARE_RASTER_SIZE,
                    forall|x0: int, y0: int|
                        0 <= x0 < SQUARE_RASTER_SIZE && 0 <= y0 < SQUARE_RASTER_SIZE && (y0 < y || (y0 == y && x0 < x))
                            ==> #[trigger] out.spec_get(
                            square_transform_pixel(transform, x0, y0).0,
                            square_transform_pixel(transform, x0, y0).1,
                        ) == self.spec_get(x0, y0),
                decreases SQUARE_RASTER_SIZE - x,
            {
                let vector = Coord2::new(2 * (x as i32) - 31, 2 * (y as i32) - 31);
                proof {
                    lemma_square_transform_pixel(transform, x as int, y as int);
                }
                let mapped = transform.checked_apply(vector).unwrap();
                let nx = ((mapped.x + 31) / 2) as usize;
                let ny = ((mapped.y + 31) / 2) as usize;
                let ghost before = out;
                out.set(nx, ny, self.get(x, y));
                proof {
                    assert forall|x0: int, y0: int|
                        0 <= x0 < SQUARE_RASTER_SIZE && 0 <= y0 < SQUARE_RASTER_SIZE && (y0 < y || (y0 == y && x0 < x + 1))
                            implies #[trigger] out.spec_get(
                            square_transform_pixel(transform, x0, y0).0,
                            square_transform_pixel(transform, x0, y0).1,
                        ) == self.spec_get(x0, y0) by {
                        let moved = square_transform_pixel(transform, x0, y0);
                        lemma_square_transform_pixel(transform, x0, y0);
                        if !(x0 == x && y0 == y) {
                            lemma_square_transform_round_trip(transform, x0, y0);
                            lemma_square_transform_round_trip(transform, x as int, y as int);
                            assert(moved != (nx as int, ny as int));
                            assert(square_pixel_index(moved.0, moved.1) != square_pixel_index(nx as int, ny as int));
                            assert(before.spec_get(moved.0, moved.1) == self.spec_get(x0, y0));
                            assert(out.spec_get(moved.0, moved.1) == before.spec_get(moved.0, moved.1));
                        } else {
                            assert(moved == (nx as int, ny as int));
                        }
                    }
                }
                x += 1;
            }
            y += 1;
        }
        proof {
            assert forall|x: int, y: int| 0 <= x < SQUARE_RASTER_SIZE && 0 <= y < SQUARE_RASTER_SIZE implies #[trigger] out.spec_get(x, y)
                == self.spec_get(
                square_transform_pixel(d4_inverse(transform), x, y).0,
                square_transform_pixel(d4_inverse(transform), x, y).1,
            ) by {
                let back = square_transform_pixel(d4_inverse(transform), x, y);
                lemma_square_transform_pixel(d4_inverse(transform), x, y);
                lemma_square_transform_round_trip(d4_inverse(transform), x, y);
                lemma_d4_inverse(transform);
                assert(out.spec_get(
                    square_transform_pixel(transform, back.0, back.1).0,
                    square_transform_pixel(transform, back.0, back.1).1,
                ) == self.spec_get(back.0, back.1));
            }
        }
        out
    }
}

/// The position of an in-hex sample in the hex raster's square storage.
pub open spec fn hex_storage_index(coord: Coord2) -> int {
    (coord.y + 2 * HEX_EDGE_INTERVALS) * HEX_STORAGE_SIZE + (coord.x + 2 * HEX_EDGE_INTERVALS)
}

/// The axial coordinate stored at a storage position.
pub open spec fn hex_storage_coord(index: int) -> Coord2 {
    Coord2 {
        x: (index % HEX_STORAGE_SIZE as int - 2 * HEX_EDGE_INTERVALS) as i32,
        y: (index / HEX_STORAGE_SIZE as int - 2 * HEX_EDGE_INTERVALS) as i32,
    }
}

/// In-hex samples lie within 22 steps of the center on both axes, so they have a place in
/// the storage, and that place holds them.
proof fn lemma_hex_storage(coord: Coord2)
    requires
        spec_hex_contains(coord),
    ensures
        -22 <= coord.x <= 22,
        -22 <= coord.y <= 22,
        0 <= hex_storage_index(coord) < HEX_STORAGE_SIZE * HEX_STORAGE_SIZE,
        hex_storage_coord(hex_storage_index(coord)) == coord,
{
    let index = hex_storage_index(coord);
    vstd::arithmetic::div_mod::lemma_fundamental_div_mod_converse(index, 45, coord.y + 22, coord.x + 22);
}

/// Whether the axial point `(q, r)` lies inside the hex raster, for points given as wide
/// integers.
fn hex_contains_point(q: i64, r: i64) -> (b: bool)
    requires
        -0x1_0000_0000 <= q <= 0x1_0000_0000,
        -0x1_0000_0000 <= r <= 0x1_0000_0000,
    ensures
        b == spec_hex_contains_point(q as int, r as int),
{
    let limit: i64 = 33;
    abs_i64(q - r) <= limit && abs_i64(2 * q + r) <= limit && abs_i64(q + 2 * r) <= limit
}

/// A fixed pointy-top hexagonal RGBA image on an axial sample lattice.
///
/// The square backing grid contains padding; only coordinates inside the six integer
/// half-planes are authoritative samples.
#[derive(Debug, PartialEq, Eq, Hash)]
pub struct HexRaster {
    pixels: Grid<Rgba>,
}

impl Clone for HexRaster {
    /// A copy with the same samples.
    fn clone(&self) -> (r: Self)
        ensures
            r.spec_storage() == self.spec_storage(),
            self.wf() ==> r.wf(),
    {
        let pixels = self.pixels.clone();
        proof {
            assert(pixels@ =~= self.pixels@);
        }
        HexRaster { pixels }
    }
}

impl HexRaster {
    /// The storage is a 45 by 45 grid.
    pub closed spec fn wf(&self) -> bool {
        &&& self.pixels.spec_extent() == Extent2 { width: HEX_STORAGE_SIZE, height: HEX_STORAGE_SIZE }
        &&& self.pixels@.len() == HEX_STORAGE_SIZE * HEX_STORAGE_SIZE
    }

    /// The backing storage, row-major.
    pub closed spec fn spec_storage(&self) -> Seq<Rgba> {
        self.pixels@
    }

    /// The color of an in-hex sample, or `None` outside the hex.
    pub open spec fn spec_get(&self, coord: Coord2) -> Option<Rgba> {
        if spec_hex_contains(coord) {
            Some(self.spec_storage()[hex_storage_index(coord)])
        } else {
            None
        }
    }

    /// A hex raster whose every sample has one color.
    pub fn filled(color: Rgba) -> (r: Self)
        ensures
            r.wf(),
            forall|coord: Coord2| spec_hex_contains(coord) ==> #[trigger] r.spec_get(coord) == Some(color),
    {
        let extent = Extent2::new(HEX_STORAGE_SIZE, HEX_STORAGE_SIZE);
        let make = |storage: Coord2| -> (c: Rgba)
            ensures
                c == if spec_hex_contains_point(storage.x - 22, storage.y - 22) { color } else { TRANSPARENT },
        {
            if hex_contains_point(storage.x as i64 - 22, storage.y as i64 - 22) {
                color
            } else {
                TRANSPARENT
            }
        };
        let pixels = Grid::from_fn(extent, make).unwrap();
        let raster = HexRaster { pixels };
        proof {
            assert forall|coord: Coord2| spec_hex_contains(coord) implies #[trigger] raster.spec_get(coord) == Some(color) by {
                lemma_hex_storage(coord);
                let index = hex_storage_index(coord);
                vstd::arithmetic::div_mod::lemma_fundamental_div_mod_converse(index, 45, coord.y + 22, coord.x + 22);
                assert(crate::spatial::spec_coordinate(extent, index as usize).unwrap() == Coord2 {
                    x: (coord.x + 22) as i32,
                    y: (coord.y + 22) as i32,
                });
            }
        }
        raster
    }

    /// Whether an axial coordinate is an in-hex sample.
    pub fn contains(coord: Coord2) -> (r: bool)
        ensures
            r == spec_hex_contains(coord),
    {
        hex_contains(coord)
    }

    /// The color of an in-hex sample, or `None` outside the hex.
    pub fn get(&self, coord: Coord2) -> (r: Option<Rgba>)
        requires
            self.wf(),
        ensures
            r == self.spec_get(coord),
    {
        if !hex_contains(coord) {
            return None;
        }
        proof {
            lemma_hex_storage(coord);
        }
        Some(self.pixels[Coord2::new(coord.x + 22, coord.y + 22)])
    }

    /// Paints an in-hex sample, reporting whether it exists and changed.
    pub fn set_pixel(&mut self, coord: Coord2, color: Rgba) -> (r: bool)
        requires
            old(self).wf(),
        ensures
            final(self).wf(),
            r == (old(self).spec_get(coord) is Some && old(self).spec_get(coord) != Some(color)),
            r ==> final(self).spec_storage() == old(self).spec_storage().update(hex_storage_index(coord), color),
            !r ==> final(self).spec_storage() == old(self).spec_storage(),
    {
        if !hex_contains(coord) {
            return false;
        }
        proof {
            lemma_hex_storage(coord);
        }
        match self.pixels.get_mut(Coord2::new(coord.x + 22, coord.y + 22)) {
            Some(pixel) => {
                if *pixel == color {
                    false
                } else {
                    *pixel = color;
                    true
                }
            },
            None => false,
        }
    }

    /// Every in-hex sample, in storage (row-major) order.
    pub fn coordinates(&self) -> (r: Vec<Coord2>)
        ensures
            forall|i: int| 0 <= i < r@.len() ==> spec_hex_contains(#[trigger] r@[i]),
            forall|i: int, j: int| 0 <= i < j < r@.len() ==> hex_storage_index(r@[i]) < hex_storage_index(r@[j]),
            forall|coord: Coord2| spec_hex_contains(coord) ==> exists|i: int| 0 <= i < r@.len() && #[trigger] r@[i] == coord,
    {
        let total: usize = HEX_STORAGE_SIZE * HEX_STORAGE_SIZE;
        let mut listed: Vec<Coord2> = Vec::new();
        let mut index: usize = 0;
        while index < total
            invariant
                total == HEX_STORAGE_SIZE * HEX_STORAGE_SIZE,
                index <= total,
                forall|i: int| 0 <= i < listed@.len() ==> spec_hex_contains(#[trigger] listed@[i]),
                forall|i: int| 0 <= i < listed@.len() ==> hex_storage_index(#[trigger] listed@[i]) < index,
                forall|i: int, j: int| 0 <= i < j < listed@.len() ==> hex_storage_index(listed@[i]) < hex_storage_index(listed@[j]),
                forall|coord: Coord2| spec_hex_contains(coord) && hex_storage_index(coord) < index
                    ==> exists|i: int| 0 <= i < listed@.len() && #[trigger] listed@[i] == coord,
            decreases total - index,
        {
            let coord = Coord2::new((index % HEX_STORAGE_SIZE) as i32 - 22, (index / HEX_STORAGE_SIZE) as i32 - 22);
            proof {
                vstd::arithmetic::div_mod::lemma_fundamental_div_mod(index as int, 45);
                assert(hex_storage_index(coord) == index);
            }
            if hex_contains(coord) {
                let ghost before = listed@;
                listed.push(coord);
                proof {
                    assert forall|c: Coord2| spec_hex_contains(c) && hex_storage_index(c) < index + 1
                        implies exists|i: int| 0 <= i < listed@.len() && #[trigger] listed@[i] == c by {
                        lemma_hex_storage(c);
                        if hex_storage_index(c) < index {
                            let i = choose|i: int| 0 <= i < before.len() && #[trigger] before[i] == c;
                            assert(listed@[i] == c);
                        } else {
                            lemma_hex_storage(coord);
                            assert(c == hex_storage_coord(hex_storage_index(c)));
                            assert(listed@[before.len() as int] == c);
                        }
                    }
                }
            } else {
                proof {
                    assert forall|c: Coord2| spec_hex_contains(c) && hex_storage_index(c) < index + 1
                        implies exists|i: int| 0 <= i < listed@.len() && #[trigger] listed@[i] == c by {
                        lemma_hex_storage(c);
                        if hex_storage_index(c) == index {
                            assert(c == hex_storage_coord(hex_storage_index(c)));
                            lemma_hex_storage(c);
                            vstd::arithmetic::div_mod::lemma_fundamental_div_mod_converse(index as int, 45, c.y + 22, c.x + 22);
                            assert(c == coord);
                        }
                    }
                }
            }
            index += 1;
        }
        proof {
            assert forall|coord: Coord2| spec_hex_contains(coord) implies exists|i: int| 0 <= i < listed@.len() && #[trigger] listed@[i] == coord by {
                lemma_hex_storage(coord);
            }
        }
        listed
    }
}

/// Every sample along a side of the hex raster lies inside it.
proof fn lemma_hex_edge_samples_inside(direction: HexDirection, index: int)
    requires
        0 <= index < HEX_EDGE_SAMPLES,
    ensures
        spec_hex_contains(spec_hex_edge_sample(direction, index)),
{
}

/// A hexagon symmetry maps the hex raster onto itself.
proof fn lemma_hex_symmetry_inside(transform: D6, coord: Coord2)
    requires
        spec_hex_contains(coord),
    ensures
        ({
            let moved = d6_act(transform, (coord.x as int, coord.y as int));
            spec_hex_contains_point(moved.0, moved.1)
        }),
{
}

/// The color of every texel of an exported hex image: the color of the sample owning it, or
/// transparent outside the hex.
pub open spec fn hex_texel_color(raster: HexRaster, x: int, y: int) -> Rgba {
    match spec_sample_at_texel(x, y) {
        Some(coord) => match raster.spec_get(coord) {
            Some(color) => color,
            None => TRANSPARENT,
        },
        None => TRANSPARENT,
    }
}

impl HexRaster {
    /// One side's start vertex and its per-sample axial step.
    pub fn edge_ray(direction: HexDirection) -> (r: (Coord2, Coord2))
        ensures
            ((r.0.x as int, r.0.y as int), (r.1.x as int, r.1.y as int)) == spec_hex_edge_ray(direction),
    {
        match direction {
            HexDirection::NorthEast => (Coord2::new(11, -22), Coord2::new(1, 1)),
            HexDirection::East => (Coord2::new(22, -11), Coord2::new(-1, 2)),
            HexDirection::SouthEast => (Coord2::new(11, 11), Coord2::new(-2, 1)),
            HexDirection::SouthWest => (Coord2::new(-22, 11), Coord2::new(1, 1)),
            HexDirection::West => (Coord2::new(-11, -11), Coord2::new(-1, 2)),
            HexDirection::NorthWest => (Coord2::new(11, -22), Coord2::new(-2, 1)),
        }
    }

    /// The sample at `index` along one side, in canonical order.
    pub fn edge_sample(direction: HexDirection, index: usize) -> (r: Coord2)
        requires
            index < HEX_EDGE_SAMPLES,
        ensures
            r == spec_hex_edge_sample(direction, index as int),
            spec_hex_contains(r),
    {
        proof {
            lemma_hex_edge_samples_inside(direction, index as int);
        }
        let (start, tangent) = Self::edge_ray(direction);
        let index = index as i32;
        Coord2::new(start.x + tangent.x * index, start.y + tangent.y * index)
    }

    /// Every sample of one side, in canonical order.
    pub fn edge_coordinates(direction: HexDirection) -> (r: Vec<Coord2>)
        ensures
            r@.len() == HEX_EDGE_SAMPLES,
            forall|i: int| 0 <= i < HEX_EDGE_SAMPLES ==> #[trigger] r@[i] == spec_hex_edge_sample(direction, i),
    {
        let mut samples: Vec<Coord2> = Vec::with_capacity(HEX_EDGE_SAMPLES);
        let mut index: usize = 0;
        while index < HEX_EDGE_SAMPLES
            invariant
                index <= HEX_EDGE_SAMPLES,
                samples@.len() == index,
                forall|i: int| 0 <= i < index ==> #[trigger] samples@[i] == spec_hex_edge_sample(direction, i),
            decreases HEX_EDGE_SAMPLES - index,
        {
            samples.push(Self::edge_sample(direction, index));
            index += 1;
        }
        samples
    }

    /// The ordered samples of one side.
    pub fn edge(&self, direction: HexDirection) -> (r: EdgeStrip<Rgba>)
        requires
            self.wf(),
        ensures
            r@.len() == HEX_EDGE_SAMPLES,
            forall|i: int| 0 <= i < HEX_EDGE_SAMPLES ==> Some(#[trigger] r@[i]) == self.spec_get(spec_hex_edge_sample(direction, i)),
    {
        let mut samples: Vec<Rgba> = Vec::with_capacity(HEX_EDGE_SAMPLES);
        let mut index: usize = 0;
        while index < HEX_EDGE_SAMPLES
            invariant
                self.wf(),
                index <= HEX_EDGE_SAMPLES,
                samples@.len() == index,
                forall|i: int| 0 <= i < index ==> Some(#[trigger] samples@[i]) == self.spec_get(spec_hex_edge_sample(direction, i)),
            decreases HEX_EDGE_SAMPLES - index,
        {
            let coord = Self::edge_sample(direction, index);
            samples.push(self.get(coord).unwrap());
            index += 1;
        }
        EdgeStrip::new(samples)
    }

    /// Every side's ordered samples, in direction order.
    pub fn edges(&self) -> (r: SocketMap<HexDirection, EdgeStrip<Rgba>>)
        requires
            self.wf(),
        ensures
            r@.len() == 6,
            forall|d: int, i: int| 0 <= d < 6 && 0 <= i < HEX_EDGE_SAMPLES ==> (#[trigger] r@[d])@.len() == HEX_EDGE_SAMPLES
                && Some(#[trigger] r@[d]@[i]) == self.spec_get(spec_hex_edge_sample(HexDirection::spec_from_index(d as nat), i)),
    {
        let make = |direction: HexDirection| -> (strip: EdgeStrip<Rgba>)
            requires
                self.wf(),
            ensures
                strip@.len() == HEX_EDGE_SAMPLES,
                forall|i: int| 0 <= i < HEX_EDGE_SAMPLES ==> Some(#[trigger] strip@[i]) == self.spec_get(spec_hex_edge_sample(direction, i)),
        { self.edge(direction) };
        let r = SocketMap::from_fn(make);
        proof {
            HexDirection::lemma_direction_laws();
        }
        r
    }

    /// Four bytes per texel of the `67 x 45` exported image, row-major.
    #[verifier::spinoff_prover]
    #[verifier::rlimit(40)]
    pub fn to_variant_image(&self) -> (r: VariantImage)
        requires
            self.wf(),
        ensures
            r.spec_size() == (HEX_IMAGE_WIDTH, HEX_IMAGE_HEIGHT),
            r.spec_rgba() == spec_color_bytes(
                Seq::new((HEX_IMAGE_WIDTH * HEX_IMAGE_HEIGHT) as nat, |i: int| hex_texel_color(*self, i % 67, i / 67)),
            ),
    {
        let ghost colors = Seq::new((HEX_IMAGE_WIDTH * HEX_IMAGE_HEIGHT) as nat, |i: int| hex_texel_color(*self, i % 67, i / 67));
        let mut bytes: Vec<u8> = Vec::with_capacity(HEX_IMAGE_WIDTH * HEX_IMAGE_HEIGHT * 4);
        let mut y: usize = 0;
        while y < HEX_IMAGE_HEIGHT
            invariant
                self.wf(),
                y <= HEX_IMAGE_HEIGHT,
                colors == Seq::new((HEX_IMAGE_WIDTH * HEX_IMAGE_HEIGHT) as nat, |i: int| hex_texel_color(*self, i % 67, i / 67)),
                bytes@ == spec_color_bytes(colors.subrange(0, (y * HEX_IMAGE_WIDTH) as int)),
            decreases HEX_IMAGE_HEIGHT - y,
        {
            let mut x: usize = 0;
            while x < HEX_IMAGE_WIDTH
                invariant
                    self.wf(),
                    y < HEX_IMAGE_HEIGHT,
                    x <= HEX_IMAGE_WIDTH,
                    colors == Seq::new((HEX_IMAGE_WIDTH * HEX_IMAGE_HEIGHT) as nat, |i: int| hex_texel_color(*self, i % 67, i / 67)),
                    bytes@ == spec_color_bytes(colors.subrange(0, (y * HEX_IMAGE_WIDTH + x) as int)),
                decreases HEX_IMAGE_WIDTH - x,
            {
                let color = match hex_sample_at_texel(x as i32, y as i32) {
                    Some(coord) => match self.get(coord) {
                        Some(color) => color,
                        None => TRANSPARENT,
                    },
                    None => TRANSPARENT,
                };
                let ghost before = bytes@;
                let ghost position = (y * HEX_IMAGE_WIDTH + x) as int;
                push_color_bytes(&mut bytes, color);
                proof {
                    vstd::arithmetic::div_mod::lemma_fundamental_div_mod_converse(position, 67, y as int, x as int);
                    assert(colors[position] == color);
                    let next = colors.subrange(0, position + 1);
                    assert(bytes@ =~= spec_color_bytes(next)) by {
                        assert forall|i: int| 0 <= i < bytes@.len() implies bytes@[i] == spec_color_bytes(next)[i] by {
                            if i < before.len() {
                                assert(next[i / 4] == colors.subrange(0, position)[i / 4]);
                            } else {
                                assert(i / 4 == position);
                            }
                        }
                    }
                }
                x += 1;
            }
            y += 1;
        }
        proof {
            assert(colors.subrange(0, (HEX_IMAGE_HEIGHT * HEX_IMAGE_WIDTH) as int) =~= colors);
        }
        VariantImage::new([HEX_IMAGE_WIDTH, HEX_IMAGE_HEIGHT], bytes)
    }

    /// The exported texel holding a sample's center.
    pub fn sample_texel(coord: Coord2) -> (r: [i32; 2])
        requires
            spec_hex_contains(coord),
        ensures
            (r[0] as int, r[1] as int) == spec_sample_texel(coord),
    {
        hex_sample_texel(coord)
    }

    /// The sample owning an exported texel, or `None` outside the hex.
    pub fn sample_at_texel(x: i32, y: i32) -> (r: Option<Coord2>)
        ensures
            r == spec_sample_at_texel(x as int, y as int),
    {
        hex_sample_at_texel(x, y)
    }
}

/// Where a hexagon symmetry moves an axial coordinate.
pub open spec fn hex_move(transform: D6, coord: Coord2) -> Coord2 {
    let moved = d6_act(transform, (coord.x as int, coord.y as int));
    Coord2 { x: moved.0 as i32, y: moved.1 as i32 }
}

/// Moving an in-hex sample by a hexagon symmetry and back by its inverse restores it, and the
/// moved sample stays in the hex.
proof fn lemma_hex_move_round_trip(transform: D6, coord: Coord2)
    requires
        spec_hex_contains(coord),
    ensures
        spec_hex_contains(hex_move(transform, coord)),
        hex_move(d6_inverse(transform), hex_move(transform, coord)) == coord,
{
    lemma_hex_symmetry_inside(transform, coord);
    lemma_hex_storage(coord);
    lemma_d6_inverse_undoes(transform, (coord.x as int, coord.y as int), HexDirection::East);
}

/// One step of [`HexRaster::transformed`]: painting the moved copy of the next listed
/// sample keeps every earlier moved sample.
proof fn lemma_transform_step(
    transform: D6,
    source: HexRaster,
    coords: Seq<Coord2>,
    i: int,
    before: HexRaster,
    after: HexRaster,
    color: Rgba,
)
    requires
        0 <= i < coords.len(),
        forall|k: int| 0 <= k < coords.len() ==> spec_hex_contains(#[trigger] coords[k]),
        forall|k: int, j: int| 0 <= k < j < coords.len() ==> hex_storage_index(coords[k]) < hex_storage_index(coords[j]),
        forall|k: int| 0 <= k < i ==> #[trigger] before.spec_get(hex_move(transform, coords[k])) == source.spec_get(coords[k]),
        source.spec_get(coords[i]) == Some(color),
        ({
            let target = hex_move(transform, coords[i]);
            let changed = before.spec_get(target) is Some && before.spec_get(target) != Some(color);
            &&& changed ==> after.spec_storage() == before.spec_storage().update(hex_storage_index(target), color)
            &&& !changed ==> after.spec_storage() == before.spec_storage()
        }),
        before.spec_storage().len() == HEX_STORAGE_SIZE * HEX_STORAGE_SIZE,
    ensures
        forall|k: int| 0 <= k < i + 1 ==> #[trigger] after.spec_get(hex_move(transform, coords[k])) == source.spec_get(coords[k]),
{
    let coord = coords[i];
    let target = hex_move(transform, coord);
    lemma_hex_move_round_trip(transform, coord);
    lemma_hex_storage(target);
    assert forall|k: int| 0 <= k < i + 1 implies #[trigger] after.spec_get(hex_move(transform, coords[k])) == source.spec_get(coords[k]) by {
        if k < i {
            let other = coords[k];
            lemma_hex_move_round_trip(transform, other);
            lemma_hex_storage(other);
            lemma_hex_storage(coord);
            lemma_hex_storage(hex_move(transform, other));
            assert(hex_storage_index(other) < hex_storage_index(coord));
            assert(hex_move(transform, other) != target);
            assert(hex_storage_index(hex_move(transform, other)) != hex_storage_index(target));
            assert(after.spec_storage()[hex_storage_index(hex_move(transform, other))] == before.spec_storage()[hex_storage_index(
                hex_move(transform, other),
            )]);
            assert(before.spec_get(hex_move(transform, other)) == source.spec_get(other));
        } else {
            assert(k == i);
            assert(spec_hex_contains(target));
            if before.spec_get(target) != Some(color) {
                assert(after.spec_storage()[hex_storage_index(target)] == color);
            }
        }
    }
}

impl HexRaster {
    /// Applies a hexagon symmetry: the sample at `c` moves to [`hex_move`]`(transform, c)`.
    pub fn transformed(&self, transform: D6) -> (r: Self)
        requires
            self.wf(),
        ensures
            r.wf(),
            forall|coord: Coord2| spec_hex_contains(coord) ==> #[trigger] r.spec_get(coord) == self.spec_get(
                hex_move(d6_inverse(transform), coord),
            ),
    {
        let mut out = HexRaster::filled(TRANSPARENT);
        let coords = self.coordinates();
        let mut i: usize = 0;
        while i < coords.len()
            invariant
                self.wf(),
                out.wf(),
                i <= coords@.len(),
                forall|k: int| 0 <= k < coords@.len() ==> spec_hex_contains(#[trigger] coords@[k]),
                forall|k: int, j: int| 0 <= k < j < coords@.len() ==> hex_storage_index(coords@[k]) < hex_storage_index(coords@[j]),
                forall|k: int| 0 <= k < i ==> #[trigger] out.spec_get(hex_move(transform, coords@[k])) == self.spec_get(coords@[k]),
            decreases coords@.len() - i,
        {
            let coord = coords[i];
            proof {
                lemma_hex_move_round_trip(transform, coord);
                lemma_hex_storage(coord);
            }
            let mapped = transform.checked_apply(coord).unwrap();
            let color = self.get(coord).unwrap();
            let ghost before = out;
            out.set_pixel(mapped, color);
            proof {
                assert(mapped == hex_move(transform, coord));
                lemma_transform_step(transform, *self, coords@, i as int, before, out, color);
            }
            i += 1;
        }
        proof {
            assert forall|coord: Coord2| spec_hex_contains(coord) implies #[trigger] out.spec_get(coord) == self.spec_get(
                hex_move(d6_inverse(transform), coord),
            ) by {
                let back = hex_move(d6_inverse(transform), coord);
                lemma_hex_move_round_trip(d6_inverse(transform), coord);
                lemma_d6_inverse(transform);
                let k = choose|k: int| 0 <= k < coords@.len() && #[trigger] coords@[k] == back;
                assert(out.spec_get(hex_move(transform, coords@[k])) == self.spec_get(coords@[k]));
            }
        }
        out
    }
}

/// The hex-distance radius of a brush: a brush of size `n` reaches `n - 1` samples from its
/// center; a size of zero or one reaching past a side of the hex paints nothing.
pub open spec fn hex_brush_radius(brush_size: usize) -> Option<int> {
    if brush_size == 0 || brush_size - 1 > HEX_EDGE_INTERVALS {
        None
    } else {
        Some(brush_size - 1)
    }
}

/// Whether an in-hex sample lies within `radius` hex steps of `center`.
pub open spec fn in_hex_brush(center: Coord2, radius: int, coord: Coord2) -> bool {
    let dq = coord.x - center.x;
    let dr = coord.y - center.y;
    &&& spec_hex_contains(coord)
    &&& abs(dq) <= radius
    &&& abs(dr) <= radius
    &&& abs(dq + dr) <= radius
}

/// Whether `a` comes before `b` when ordered by `x`, then by `y`.
pub open spec fn column_major_before(a: Coord2, b: Coord2) -> bool {
    a.x < b.x || (a.x == b.x && a.y < b.y)
}

impl HexRaster {
    /// Every in-hex sample covered by one brush impression: a hexagonal disc of radius
    /// `brush_size - 1` around `center`, ordered by `x`, then by `y`.
    pub fn brush_samples(center: Coord2, brush_size: usize) -> (r: Vec<Coord2>)
        ensures
            hex_brush_radius(brush_size) is None ==> r@.len() == 0,
            hex_brush_radius(brush_size) matches Some(radius) ==> {
                &&& forall|i: int| 0 <= i < r@.len() ==> in_hex_brush(center, radius, #[trigger] r@[i])
                &&& forall|i: int, j: int| 0 <= i < j < r@.len() ==> column_major_before(r@[i], r@[j])
                &&& forall|coord: Coord2| in_hex_brush(center, radius, coord) ==> exists|i: int| 0 <= i < r@.len() && #[trigger] r@[i] == coord
            },
    {
        let mut samples: Vec<Coord2> = Vec::new();
        if brush_size == 0 || brush_size - 1 > 11 {
            return samples;
        }
        let radius = (brush_size - 1) as i64;
        let cq = center.x as i64;
        let cr = center.y as i64;
        let mut dq: i64 = -radius;
        while dq <= radius
            invariant
                0 <= radius <= 11,
                hex_brush_radius(brush_size) == Some(radius as int),
                cq == center.x,
                cr == center.y,
                -radius <= dq <= radius + 1,
                forall|i: int| 0 <= i < samples@.len() ==> in_hex_brush(center, radius as int, #[trigger] samples@[i]),
                forall|i: int| 0 <= i < samples@.len() ==> (#[trigger] samples@[i]).x - center.x < dq,
                forall|i: int, j: int| 0 <= i < j < samples@.len() ==> column_major_before(samples@[i], samples@[j]),
                forall|coord: Coord2| in_hex_brush(center, radius as int, coord) && coord.x - center.x < dq
                    ==> exists|i: int| 0 <= i < samples@.len() && #[trigger] samples@[i] == coord,
            decreases radius + 1 - dq,
        {
            let low = if -radius > -dq - radius { -radius } else { -dq - radius };
            let high = if radius < -dq + radius { radius } else { -dq + radius };
            let mut dr: i64 = low;
            while dr <= high
                invariant
                    0 <= radius <= 11,
                    hex_brush_radius(brush_size) == Some(radius as int),
                    cq == center.x,
                    cr == center.y,
                    -radius <= dq <= radius,
                    low == if -radius > -dq - radius { -radius as int } else { -dq - radius },
                    high == if radius < -dq + radius { radius as int } else { -dq + radius },
                    low <= dr <= high + 1 || (dr == low && low > high),
                    forall|i: int| 0 <= i < samples@.len() ==> in_hex_brush(center, radius as int, #[trigger] samples@[i]),
                    forall|i: int| 0 <= i < samples@.len() ==> (#[trigger] samples@[i]).x - center.x < dq || (samples@[i].x - center.x == dq && samples@[i].y - center.y < dr),
                    forall|i: int, j: int| 0 <= i < j < samples@.len() ==> column_major_before(samples@[i], samples@[j]),
                    forall|coord: Coord2| in_hex_brush(center, radius as int, coord) && (coord.x - center.x < dq || (coord.x - center.x == dq && coord.y - center.y < dr))
                        ==> exists|i: int| 0 <= i < samples@.len() && #[trigger] samples@[i] == coord,
                decreases high + 1 - dr,
            {
                let q = cq + dq;
                let r = cr + dr;
                if hex_contains_point(q, r) {
                    let ghost before = samples@;
                    let coord = Coord2::new(q as i32, r as i32);
                    samples.push(coord);
                    proof {
                        assert forall|c: Coord2| in_hex_brush(center, radius as int, c) && (c.x - center.x < dq || (c.x - center.x == dq && c.y - center.y < dr + 1))
                            implies exists|i: int| 0 <= i < samples@.len() && #[trigger] samples@[i] == c by {
                            if c.x - center.x < dq || (c.x - center.x == dq && c.y - center.y < dr) {
                                let i = choose|i: int| 0 <= i < before.len() && #[trigger] before[i] == c;
                                assert(samples@[i] == c);
                            } else {
                                assert(samples@[before.len() as int] == c);
                            }
                        }
                    }
                }
                dr += 1;
            }
            dq += 1;
        }
        samples
    }
}

/// The authoritative sample surface one editor mode paints and matches on.
///
/// Every side carries the same number of ordered samples, and each corner sample is shared
/// with the adjoining side so linked families stay transitive through corners.
pub trait TileSurface: Sized {
    type Direction: Direction;

    /// The number of ordered samples on every side.
    spec fn spec_edge_samples() -> nat;

    /// The sample at `index` along one side, in canonical order.
    spec fn spec_edge_sample(direction: Self::Direction, index: int) -> Coord2;

    /// The surface's storage is consistent.
    spec fn surface_wf(&self) -> bool;

    /// The color of the sample at `coord`, or `None` for a coordinate that is not a sample.
    spec fn spec_sample(&self, coord: Coord2) -> Option<Rgba>;

    /// The number of ordered samples on every side.
    fn edge_samples() -> (r: usize)
        ensures
            r == Self::spec_edge_samples(),
            r > 0,
    ;

    /// The sample at `index` along one side, in canonical order.
    fn edge_sample(direction: Self::Direction, index: usize) -> (r: Coord2)
        requires
            index < Self::spec_edge_samples(),
        ensures
            r == Self::spec_edge_sample(direction, index as int),
    ;

    /// Writes one sample, reporting whether it existed and changed. Every other sample keeps
    /// its color.
    fn set_sample(&mut self, coord: Coord2, color: Rgba) -> (r: bool)
        requires
            old(self).surface_wf(),
        ensures
            final(self).surface_wf(),
            r == (old(self).spec_sample(coord) is Some && old(self).spec_sample(coord) != Some(color)),
            forall|c: Coord2| #[trigger] final(self).spec_sample(c) == if c == coord && old(self).spec_sample(coord) is Some {
                Some(color)
            } else {
                old(self).spec_sample(c)
            },
    ;

    /// Every side's ordered samples, re-extracted from the current picture.
    fn edge_strips(&self) -> (r: SocketMap<Self::Direction, EdgeStrip<Rgba>>)
        requires
            self.surface_wf(),
        ensures
            r@.len() == Self::Direction::spec_count(),
            forall|d: int| 0 <= d < Self::Direction::spec_count() ==> (#[trigger] r@[d])@.len() == Self::spec_edge_samples(),
            forall|d: int, i: int|
                0 <= d < Self::Direction::spec_count() && 0 <= i < Self::spec_edge_samples() ==> Some(#[trigger] r@[d]@[i])
                    == self.spec_sample(Self::spec_edge_sample(Self::Direction::spec_from_index(d as nat), i)),
    ;
}

impl TileSurface for SquareRaster {
    type Direction = SquareDirection;

    open spec fn spec_edge_samples() -> nat {
        SQUARE_RASTER_SIZE as nat
    }

    open spec fn spec_edge_sample(direction: SquareDirection, index: int) -> Coord2 {
        spec_square_edge_sample(direction, index)
    }

    open spec fn surface_wf(&self) -> bool {
        self.wf()
    }

    open spec fn spec_sample(&self, coord: Coord2) -> Option<Rgba> {
        if in_square_raster(coord.x as int, coord.y as int) {
            Some(self.spec_get(coord.x as int, coord.y as int))
        } else {
            None
        }
    }

    fn edge_samples() -> (r: usize) {
        SQUARE_RASTER_SIZE
    }

    fn edge_sample(direction: SquareDirection, index: usize) -> (r: Coord2) {
        let index = index as i32;
        let far = (SQUARE_RASTER_SIZE - 1) as i32;
        match direction {
            SquareDirection::North => Coord2::new(index, 0),
            SquareDirection::East => Coord2::new(far, index),
            SquareDirection::South => Coord2::new(index, far),
            SquareDirection::West => Coord2::new(0, index),
        }
    }

    fn set_sample(&mut self, coord: Coord2, color: Rgba) -> (r: bool) {
        self.set_pixel(coord, color)
    }

    fn edge_strips(&self) -> (r: SocketMap<SquareDirection, EdgeStrip<Rgba>>) {
        let r = self.edges();
        proof {
            assert forall|d: int| 0 <= d < 4 implies (#[trigger] r@[d])@.len() == SQUARE_RASTER_SIZE by {
                assert(r@[d]@[0] == self.spec_get(
                    spec_square_edge_sample(SquareDirection::spec_from_index(d as nat), 0).x as int,
                    spec_square_edge_sample(SquareDirection::spec_from_index(d as nat), 0).y as int,
                ));
            }
            assert forall|d: int, i: int| 0 <= d < 4 && 0 <= i < SQUARE_RASTER_SIZE implies Some(#[trigger] r@[d]@[i])
                == self.spec_sample(spec_square_edge_sample(SquareDirection::spec_from_index(d as nat), i)) by {
                assert(r@[d]@[i] == self.spec_get(
                    spec_square_edge_sample(SquareDirection::spec_from_index(d as nat), i).x as int,
                    spec_square_edge_sample(SquareDirection::spec_from_index(d as nat), i).y as int,
                ));
            }
        }
        r
    }
}

impl TileSurface for HexRaster {
    type Direction = HexDirection;

    open spec fn spec_edge_samples() -> nat {
        HEX_EDGE_SAMPLES as nat
    }

    open spec fn spec_edge_sample(direction: HexDirection, index: int) -> Coord2 {
        spec_hex_edge_sample(direction, index)
    }

    open spec fn surface_wf(&self) -> bool {
        self.wf()
    }

    open spec fn spec_sample(&self, coord: Coord2) -> Option<Rgba> {
        self.spec_get(coord)
    }

    fn edge_samples() -> (r: usize) {
        HEX_EDGE_SAMPLES
    }

    fn edge_sample(direction: HexDirection, index: usize) -> (r: Coord2) {
        HexRaster::edge_sample(direction, index)
    }

    fn set_sample(&mut self, coord: Coord2, color: Rgba) -> (r: bool) {
        self.set_pixel(coord, color)
    }

    fn edge_strips(&self) -> (r: SocketMap<HexDirection, EdgeStrip<Rgba>>) {
        let r = self.edges();
        proof {
            assert forall|d: int| 0 <= d < 6 implies (#[trigger] r@[d])@.len() == HEX_EDGE_SAMPLES by {
                assert(Some(r@[d]@[0]) == self.spec_get(spec_hex_edge_sample(HexDirection::spec_from_index(d as nat), 0)));
            }
            assert forall|d: int, i: int| 0 <= d < 6 && 0 <= i < HEX_EDGE_SAMPLES implies Some(#[trigger] r@[d]@[i])
                == self.spec_sample(spec_hex_edge_sample(HexDirection::spec_from_index(d as nat), i)) by {
                assert(Some(r@[d]@[i]) == self.spec_get(spec_hex_edge_sample(HexDirection::spec_from_index(d as nat), i)));
            }
        }
        r
    }
}

/// One step of the integer line walk from `from` to `to`: the doubled error decides
/// whether `x`, `y` or both advance.
pub open spec fn line_step(from: Coord2, to: Coord2, state: (int, int, int)) -> (int, int, int) {
    let dx = abs(to.x - from.x);
    let dy = -abs(to.y - from.y);
    let step_x: int = if from.x < to.x { 1 } else { -1 };
    let step_y: int = if from.y < to.y { 1 } else { -1 };
    let (x, y, error) = state;
    let doubled = 2 * error;
    let (x1, error1) = if doubled >= dy { (x + step_x, error + dy) } else { (x, error) };
    let (y1, error2) = if doubled <= dx { (y + step_y, error1 + dx) } else { (y, error1) };
    (x1, y1, error2)
}

/// The `k`-th state of the line walk: position and error term.
pub open spec fn line_state(from: Coord2, to: Coord2, k: nat) -> (int, int, int)
    decreases k,
{
    if k == 0 {
        (from.x as int, from.y as int, abs(to.x - from.x) - abs(to.y - from.y))
    } else {
        line_step(from, to, line_state(from, to, (k - 1) as nat))
    }
}

/// The walk first reaches `to` at step `k`.
pub open spec fn line_ends_at(from: Coord2, to: Coord2, k: nat) -> bool {
    &&& line_state(from, to, k).0 == to.x && line_state(from, to, k).1 == to.y
    &&& forall|j: nat| j < k ==> !(#[trigger] line_state(from, to, j).0 == to.x && line_state(from, to, j).1 == to.y)
}

/// Whether a square brush of `brush_size` pixels centered at `center` covers pixel
/// `(x, y)`; even sizes extend one pixel further right and down.
pub open spec fn in_square_brush(center_x: int, center_y: int, brush_size: int, x: int, y: int) -> bool {
    let offset = (brush_size - 1) / 2;
    &&& center_x - offset <= x < center_x - offset + brush_size
    &&& center_y - offset <= y < center_y - offset + brush_size
}

/// Whether the stroke from `from` to `to` covers pixel `(x, y)`: a brush impression at some
/// point of the walk, up to where it reaches `to`, covers it.
pub open spec fn stroke_covers(from: Coord2, to: Coord2, brush_size: int, x: int, y: int) -> bool {
    exists|n: nat, k: nat|
        #![trigger line_ends_at(from, to, n), line_state(from, to, k)]
        line_ends_at(from, to, n) && k <= n && in_square_brush(line_state(from, to, k).0, line_state(from, to, k).1, brush_size, x, y)
}

/// One step of the walk, in terms of how far it went on each axis: it advances at least one
/// axis, never past the far end, and keeps its error term in step.
proof fn lemma_line_step_progress(a: int, b: int, i: int, j: int, error: int)
    requires
        0 <= i <= a,
        0 <= j <= b,
        !(i == a && j == b),
        error == a - b - i * b + j * a,
    ensures
        2 * error >= -b ==> i < a,
        2 * error <= a ==> j < b,
        2 * error >= -b || 2 * error <= a,
{
    if i == a {
        assert(2 * error < -b) by (nonlinear_arith)
            requires
                i == a,
                0 <= j < b,
                error == a - b - i * b + j * a,
                a >= 0,
        ;
    }
    if j == b {
        assert(2 * error > a) by (nonlinear_arith)
            requires
                j == b,
                0 <= i < a,
                error == a - b - i * b + j * a,
                b >= 0,
        ;
    }
}

/// The line walk's state after `k` steps: inside the box spanned by its ends, with an
/// error term in step with how far it went on each axis, at least `k` steps in all.
pub open spec fn walk_in_step(from: Coord2, to: Coord2, state: (int, int, int), k: nat) -> bool {
    let a = abs(to.x - from.x);
    let b = abs(to.y - from.y);
    let i = abs(state.0 - from.x);
    let j = abs(state.1 - from.y);
    &&& 0 <= i <= a
    &&& 0 <= j <= b
    &&& (from.x <= to.x ==> state.0 == from.x + i) && (from.x > to.x ==> state.0 == from.x - i)
    &&& (from.y <= to.y ==> state.1 == from.y + j) && (from.y > to.y ==> state.1 == from.y - j)
    &&& state.2 == a - b - i * b + j * a
    &&& i + j >= k
}

/// Until it reaches `to`, the line walk stays in the box spanned by its ends, keeps its
/// error term in step with how far it went on each axis, and advances at least one axis per
/// step.
#[verifier::spinoff_prover]
proof fn lemma_line_walk(from: Coord2, to: Coord2, k: nat)
    requires
        forall|j: nat| j < k ==> !(#[trigger] line_state(from, to, j).0 == to.x && line_state(from, to, j).1 == to.y),
    ensures
        walk_in_step(from, to, line_state(from, to, k), k),
    decreases k,
{
    let a = abs(to.x - from.x);
    let b = abs(to.y - from.y);
    if k == 0 {
        assert(0 * b == 0 && 0 * a == 0);
    } else {
        let previous = (k - 1) as nat;
        assert forall|j: nat| j < previous implies !(#[trigger] line_state(from, to, j).0 == to.x && line_state(from, to, j).1 == to.y) by {
            assert(j < k);
        }
        lemma_line_walk(from, to, previous);
        let state = line_state(from, to, previous);
        let i = abs(state.0 - from.x);
        let j = abs(state.1 - from.y);
        let error = state.2;
        assert(!(state.0 == to.x && state.1 == to.y));
        lemma_line_step_progress(a, b, i, j, error);
        let moves_x = 2 * error >= -b;
        let moves_y = 2 * error <= a;
        let i1 = if moves_x { i + 1 } else { i };
        let j1 = if moves_y { j + 1 } else { j };
        let next = line_state(from, to, k);
        assert(next == line_step(from, to, state));
        assert(abs(next.0 - from.x) == i1);
        assert(abs(next.1 - from.y) == j1);
        assert(next.2 == a - b - i1 * b + j1 * a) by (nonlinear_arith)
            requires
                next.2 == error + (if moves_x { -b } else { 0 }) + (if moves_y { a } else { 0 }),
                error == a - b - i * b + j * a,
                i1 == if moves_x { i + 1 } else { i },
                j1 == if moves_y { j + 1 } else { j },
        ;
        assert(walk_in_step(from, to, next, k));
    }
}

/// The line walk, not at `to` before step `k`, reaches it within `|dx| + |dy|` steps.
proof fn lemma_line_ends_from(from: Coord2, to: Coord2, k: nat) -> (n: nat)
    requires
        forall|j: nat| j < k ==> !(#[trigger] line_state(from, to, j).0 == to.x && line_state(from, to, j).1 == to.y),
    ensures
        line_ends_at(from, to, n),
        n <= abs(to.x - from.x) + abs(to.y - from.y),
    decreases abs(to.x - from.x) + abs(to.y - from.y) + 1 - k,
{
    lemma_line_walk(from, to, k);
    if line_state(from, to, k).0 == to.x && line_state(from, to, k).1 == to.y {
        k
    } else {
        assert forall|j: nat| j < k + 1 implies !(#[trigger] line_state(from, to, j).0 == to.x && line_state(from, to, j).1 == to.y) by {
            if j < k {
                assert(j < k);
            }
        }
        lemma_line_ends_from(from, to, k + 1)
    }
}

/// The line walk reaches `to` within `|dx| + |dy|` steps.
pub proof fn lemma_line_ends(from: Coord2, to: Coord2) -> (n: nat)
    ensures
        line_ends_at(from, to, n),
        n <= abs(to.x - from.x) + abs(to.y - from.y),
{
    lemma_line_ends_from(from, to, 0)
}

/// The walk reaches `to` first at one step only.
proof fn lemma_line_end_unique(from: Coord2, to: Coord2, n1: nat, n2: nat)
    requires
        line_ends_at(from, to, n1),
        line_ends_at(from, to, n2),
    ensures
        n1 == n2,
{
    if n1 < n2 {
        assert(!(line_state(from, to, n1).0 == to.x && line_state(from, to, n1).1 == to.y));
    }
    if n2 < n1 {
        assert(!(line_state(from, to, n2).0 == to.x && line_state(from, to, n2).1 == to.y));
    }
}

/// Whether pixel `(x, y)` lies in the square raster.
pub open spec fn in_square_raster(x: int, y: int) -> bool {
    0 <= x < SQUARE_RASTER_SIZE && 0 <= y < SQUARE_RASTER_SIZE
}

impl SquareRaster {
    /// Marks every in-raster pixel that one brush impression covers.
    fn mark_brush(covered: &mut Vec<bool>, center: Coord2, brush_size: usize)
        requires
            old(covered)@.len() == SQUARE_RASTER_SIZE * SQUARE_RASTER_SIZE,
            1 <= brush_size <= SQUARE_RASTER_SIZE,
            0 <= center.x < SQUARE_RASTER_SIZE,
            0 <= center.y < SQUARE_RASTER_SIZE,
        ensures
            final(covered)@.len() == SQUARE_RASTER_SIZE * SQUARE_RASTER_SIZE,
            forall|x: int, y: int|
                in_square_raster(x, y) ==> #[trigger] final(covered)@[square_pixel_index(x, y)] == (old(covered)@[square_pixel_index(x, y)]
                    || in_square_brush(center.x as int, center.y as int, brush_size as int, x, y)),
    {
        let size = brush_size as i32;
        let offset = (size - 1) / 2;
        let top = center.y - offset;
        let left = center.x - offset;
        let ghost before = covered@;
        let mut y = top;
        while y < top + size
            invariant
                covered@.len() == SQUARE_RASTER_SIZE * SQUARE_RASTER_SIZE,
                1 <= size <= 32,
                size == brush_size,
                offset == (size - 1) / 2,
                top == center.y - offset,
                left == center.x - offset,
                0 <= center.x < 32,
                0 <= center.y < 32,
                top <= y <= top + size,
                forall|px: int, py: int|
                    in_square_raster(px, py) ==> #[trigger] covered@[square_pixel_index(px, py)] == (before[square_pixel_index(px, py)]
                        || (in_square_brush(center.x as int, center.y as int, brush_size as int, px, py) && py < y)),
            decreases top + size - y,
        {
            let mut x = left;
            while x < left + size
                invariant
                    covered@.len() == SQUARE_RASTER_SIZE * SQUARE_RASTER_SIZE,
                    1 <= size <= 32,
                    size == brush_size,
                    offset == (size - 1) / 2,
                    top == center.y - offset,
                    left == center.x - offset,
                    0 <= center.x < 32,
                    0 <= center.y < 32,
                    top <= y < top + size,
                    left <= x <= left + size,
                    forall|px: int, py: int|
                        in_square_raster(px, py) ==> #[trigger] covered@[square_pixel_index(px, py)] == (before[square_pixel_index(px, py)]
                            || (in_square_brush(center.x as int, center.y as int, brush_size as int, px, py) && (py < y || (py == y
                            && px < x)))),
                decreases left + size - x,
            {
                if 0 <= x && x < 32 && 0 <= y && y < 32 {
                    let index = (y as usize) * SQUARE_RASTER_SIZE + (x as usize);
                    let ghost old_covered = covered@;
                    covered.set(index, true);
                    proof {
                        assert forall|px: int, py: int| in_square_raster(px, py) implies #[trigger] covered@[square_pixel_index(px, py)]
                            == (before[square_pixel_index(px, py)] || (in_square_brush(center.x as int, center.y as int, brush_size as int, px, py)
                            && (py < y || (py == y && px < x + 1)))) by {
                            if !(px == x && py == y) {
                                assert(square_pixel_index(px, py) != index);
                                assert(covered@[square_pixel_index(px, py)] == old_covered[square_pixel_index(px, py)]);
                            }
                        }
                    }
                }
                x += 1;
            }
            y += 1;
        }
    }

    /// Every pixel covered by a continuous clipped brush stroke from `from` to `to`, in
    /// row-major order and each once. A zero or oversized brush, or an end outside the raster,
    /// covers nothing.
    pub fn stroke_pixels(&self, from: Coord2, to: Coord2, brush_size: usize) -> (r: Vec<Coord2>)
        ensures
            !(1 <= brush_size <= SQUARE_RASTER_SIZE && in_square_raster(from.x as int, from.y as int) && in_square_raster(
                to.x as int,
                to.y as int,
            )) ==> r@.len() == 0,
            1 <= brush_size <= SQUARE_RASTER_SIZE && in_square_raster(from.x as int, from.y as int) && in_square_raster(
                to.x as int,
                to.y as int,
            ) ==> {
                &&& forall|i: int| 0 <= i < r@.len() ==> in_square_raster((#[trigger] r@[i]).x as int, r@[i].y as int) && stroke_covers(
                    from,
                    to,
                    brush_size as int,
                    r@[i].x as int,
                    r@[i].y as int,
                )
                &&& forall|i: int, j: int| 0 <= i < j < r@.len() ==> square_pixel_index(r@[i].x as int, r@[i].y as int) < square_pixel_index(
                    r@[j].x as int,
                    r@[j].y as int,
                )
                &&& forall|x: int, y: int|
                    in_square_raster(x, y) && #[trigger] stroke_covers(from, to, brush_size as int, x, y) ==> exists|i: int|
                        0 <= i < r@.len() && r@[i] == Coord2 { x: x as i32, y: y as i32 }
            },
    {
        let extent = Extent2::new(SQUARE_RASTER_SIZE, SQUARE_RASTER_SIZE);
        if brush_size == 0 || brush_size > SQUARE_RASTER_SIZE || !extent.contains(from) || !extent.contains(to) {
            return Vec::new();
        }
        let total = SQUARE_RASTER_SIZE * SQUARE_RASTER_SIZE;
        let mut covered: Vec<bool> = Vec::with_capacity(total);
        let mut fill: usize = 0;
        while fill < total
            invariant
                total == SQUARE_RASTER_SIZE * SQUARE_RASTER_SIZE,
                fill <= total,
                covered@.len() == fill,
                forall|p: int| 0 <= p < fill ==> !#[trigger] covered@[p],
            decreases total - fill,
        {
            covered.push(false);
            fill += 1;
        }
        let mut x = from.x;
        let mut y = from.y;
        let dx = if to.x >= from.x { to.x - from.x } else { from.x - to.x };
        let step_x: i32 = if from.x < to.x { 1 } else { -1 };
        let dy = -(if to.y >= from.y { to.y - from.y } else { from.y - to.y });
        let step_y: i32 = if from.y < to.y { 1 } else { -1 };
        let mut error = dx + dy;
        let ghost mut k: nat = 0;
        proof {
            assert(line_state(from, to, 0) == (x as int, y as int, error as int));
        }
        loop
            invariant_except_break
                (x as int, y as int, error as int) == line_state(from, to, k),
                forall|j: nat| j < k ==> !(#[trigger] line_state(from, to, j).0 == to.x && line_state(from, to, j).1 == to.y),
                forall|px: int, py: int|
                    in_square_raster(px, py) ==> #[trigger] covered@[square_pixel_index(px, py)] == exists|j: nat|
                        j < k && #[trigger] in_square_brush(line_state(from, to, j).0, line_state(from, to, j).1, brush_size as int, px, py),
            invariant
                covered@.len() == SQUARE_RASTER_SIZE * SQUARE_RASTER_SIZE,
                1 <= brush_size <= SQUARE_RASTER_SIZE,
                in_square_raster(from.x as int, from.y as int),
                in_square_raster(to.x as int, to.y as int),
                dx == abs(to.x - from.x),
                dy == -abs(to.y - from.y),
                step_x == if from.x < to.x { 1int } else { -1int },
                step_y == if from.y < to.y { 1int } else { -1int },
            ensures
                line_ends_at(from, to, k),
                forall|px: int, py: int|
                    in_square_raster(px, py) ==> #[trigger] covered@[square_pixel_index(px, py)] == exists|j: nat|
                        j <= k && #[trigger] in_square_brush(line_state(from, to, j).0, line_state(from, to, j).1, brush_size as int, px, py),
            decreases abs(to.x - from.x) + abs(to.y - from.y) - abs(x - from.x) - abs(y - from.y),
        {
            proof {
                lemma_line_walk(from, to, k);
            }
            let ghost before = covered@;
            Self::mark_brush(&mut covered, Coord2::new(x, y), brush_size);
            if x == to.x && y == to.y {
                proof {
                    assert forall|px: int, py: int| in_square_raster(px, py) implies #[trigger] covered@[square_pixel_index(px, py)]
                        == exists|j: nat| j <= k && #[trigger] in_square_brush(
                        line_state(from, to, j).0,
                        line_state(from, to, j).1,
                        brush_size as int,
                        px,
                        py,
                    ) by {
                        if covered@[square_pixel_index(px, py)] && !before[square_pixel_index(px, py)] {
                            assert(in_square_brush(line_state(from, to, k).0, line_state(from, to, k).1, brush_size as int, px, py));
                        }
                    }
                }
                break;
            }
            let ghost a = abs(to.x - from.x);
            let ghost b = abs(to.y - from.y);
            proof {
                let i = abs(x - from.x);
                let j = abs(y - from.y);
                assert(-4000 <= error <= 4000) by (nonlinear_arith)
                    requires
                        error == a - b - i * b + j * a,
                        0 <= i <= a <= 31,
                        0 <= j <= b <= 31,
                ;
            }
            let doubled = error * 2;
            if doubled >= dy {
                error += dy;
                x += step_x;
            }
            if doubled <= dx {
                error += dx;
                y += step_y;
            }
            proof {
                let old_k = k;
                k = k + 1;
                assert(line_state(from, to, k) == line_step(from, to, line_state(from, to, old_k)));
                assert forall|j: nat| j < k implies !(#[trigger] line_state(from, to, j).0 == to.x && line_state(from, to, j).1 == to.y) by {
                    if j < old_k {
                        assert(j < old_k);
                    }
                }
                lemma_line_walk(from, to, k);
                assert forall|px: int, py: int| in_square_raster(px, py) implies #[trigger] covered@[square_pixel_index(px, py)]
                    == exists|j: nat| j < k && #[trigger] in_square_brush(
                    line_state(from, to, j).0,
                    line_state(from, to, j).1,
                    brush_size as int,
                    px,
                    py,
                ) by {
                    if covered@[square_pixel_index(px, py)] && !before[square_pixel_index(px, py)] {
                        assert(in_square_brush(line_state(from, to, old_k).0, line_state(from, to, old_k).1, brush_size as int, px, py));
                    }
                    if exists|j: nat| j < k && #[trigger] in_square_brush(
                        line_state(from, to, j).0,
                        line_state(from, to, j).1,
                        brush_size as int,
                        px,
                        py,
                    ) {
                        let j = choose|j: nat| j < k && #[trigger] in_square_brush(
                            line_state(from, to, j).0,
                            line_state(from, to, j).1,
                            brush_size as int,
                            px,
                            py,
                        );
                        if j < old_k {
                            assert(before[square_pixel_index(px, py)]);
                        }
                    }
                }
            }
        }
        let ghost n = k;
        let mut pixels: Vec<Coord2> = Vec::new();
        let mut index: usize = 0;
        while index < total
            invariant
                total == SQUARE_RASTER_SIZE * SQUARE_RASTER_SIZE,
                covered@.len() == total,
                index <= total,
                1 <= brush_size <= SQUARE_RASTER_SIZE,
                line_ends_at(from, to, n),
                forall|px: int, py: int|
                    in_square_raster(px, py) ==> #[trigger] covered@[square_pixel_index(px, py)] == exists|j: nat|
                        j <= n && #[trigger] in_square_brush(line_state(from, to, j).0, line_state(from, to, j).1, brush_size as int, px, py),
                forall|i: int| 0 <= i < pixels@.len() ==> in_square_raster((#[trigger] pixels@[i]).x as int, pixels@[i].y as int)
                    && covered@[square_pixel_index(pixels@[i].x as int, pixels@[i].y as int)],
                forall|i: int| 0 <= i < pixels@.len() ==> square_pixel_index((#[trigger] pixels@[i]).x as int, pixels@[i].y as int) < index,
                forall|i: int, j: int| 0 <= i < j < pixels@.len() ==> square_pixel_index(pixels@[i].x as int, pixels@[i].y as int)
                    < square_pixel_index(pixels@[j].x as int, pixels@[j].y as int),
                forall|p: int| 0 <= p < index && #[trigger] covered@[p] ==> exists|i: int|
                    0 <= i < pixels@.len() && square_pixel_index(pixels@[i].x as int, pixels@[i].y as int) == p,
            decreases total - index,
        {
            if covered[index] {
                let ghost before = pixels@;
                let coord = Coord2::new((index % SQUARE_RASTER_SIZE) as i32, (index / SQUARE_RASTER_SIZE) as i32);
                proof {
                    vstd::arithmetic::div_mod::lemma_fundamental_div_mod(index as int, 32);
                    assert(square_pixel_index(coord.x as int, coord.y as int) == index);
                }
                pixels.push(coord);
                proof {
                    assert forall|p: int| 0 <= p < index + 1 && #[trigger] covered@[p] implies exists|i: int|
                        0 <= i < pixels@.len() && square_pixel_index(pixels@[i].x as int, pixels@[i].y as int) == p by {
                        if p < index {
                            let i = choose|i: int| 0 <= i < before.len() && square_pixel_index(before[i].x as int, before[i].y as int) == p;
                            assert(pixels@[i] == before[i]);
                        } else {
                            assert(pixels@[before.len() as int] == coord);
                        }
                    }
                }
            }
            index += 1;
        }
        proof {
            assert forall|i: int| 0 <= i < pixels@.len() implies in_square_raster((#[trigger] pixels@[i]).x as int, pixels@[i].y as int)
                && stroke_covers(from, to, brush_size as int, pixels@[i].x as int, pixels@[i].y as int) by {
                let px = pixels@[i].x as int;
                let py = pixels@[i].y as int;
                assert(covered@[square_pixel_index(px, py)]);
                let j = choose|j: nat| j <= n && #[trigger] in_square_brush(line_state(from, to, j).0, line_state(from, to, j).1, brush_size as int, px, py);
                assert(line_ends_at(from, to, n) && j <= n);
            }
            assert forall|px: int, py: int| in_square_raster(px, py) && #[trigger] stroke_covers(from, to, brush_size as int, px, py) implies exists|
                i: int,
            | 0 <= i < pixels@.len() && pixels@[i] == Coord2 { x: px as i32, y: py as i32 } by {
                let (n2, j) = choose|n2: nat, j: nat|
                    #![trigger line_ends_at(from, to, n2), line_state(from, to, j)]
                    line_ends_at(from, to, n2) && j <= n2 && in_square_brush(line_state(from, to, j).0, line_state(from, to, j).1, brush_size as int, px, py);
                lemma_line_end_unique(from, to, n, n2);
                assert(covered@[square_pixel_index(px, py)]);
                let i = choose|i: int| 0 <= i < pixels@.len() && square_pixel_index(pixels@[i].x as int, pixels@[i].y as int) == square_pixel_index(px, py);
                vstd::arithmetic::div_mod::lemma_fundamental_div_mod_converse(square_pixel_index(px, py), 32, py, px);
                vstd::arithmetic::div_mod::lemma_fundamental_div_mod_converse(square_pixel_index(px, py), 32, pixels@[i].y as int, pixels@[i].x as int);
            }
        }
        pixels
    }
}

/// Whether a side is closed: it has samples and every one of them is the border color.
pub fn is_closed_edge(edge: &EdgeStrip<Rgba>) -> (r: bool)
    ensures
        r == (edge@.len() > 0 && forall|i: int| 0 <= i < edge@.len() ==> edge@[i] == EDGE_BACKGROUND),
{
    let samples = edge.as_slice();
    if samples.len() == 0 {
        return false;
    }
    let mut i: usize = 0;
    while i < samples.len()
        invariant
            samples@ == edge@,
            i <= samples@.len(),
            forall|j: int| 0 <= j < i ==> samples@[j] == EDGE_BACKGROUND,
        decreases samples@.len() - i,
    {
        if samples[i] != EDGE_BACKGROUND {
            return false;
        }
        i += 1;
    }
    true
}


/// A stroke that starts and ends on one pixel is one brush impression: the full `size` by
/// `size` square, corners included, reaching `(size - 1) / 2` pixels up and left of the point
/// and the rest down and right.
pub proof fn lemma_point_stroke_is_a_full_square(point: Coord2, size: int, x: int, y: int)
    requires
        size >= 1,
    ensures
        stroke_covers(point, point, size, x, y) <==> ({
            let left = point.x - (size - 1) / 2;
            let top = point.y - (size - 1) / 2;
            &&& left <= x <= left + size - 1
            &&& top <= y <= top + size - 1
        }),
{
    let start = line_state(point, point, 0);
    assert(start.0 == point.x && start.1 == point.y);
    assert(line_ends_at(point, point, 0));
    let left = point.x - (size - 1) / 2;
    let top = point.y - (size - 1) / 2;
    if stroke_covers(point, point, size, x, y) {
        let (n, k) = choose|n: nat, k: nat|
            #![trigger line_ends_at(point, point, n), line_state(point, point, k)]
            line_ends_at(point, point, n) && k <= n && in_square_brush(
                line_state(point, point, k).0,
                line_state(point, point, k).1,
                size,
                x,
                y,
            );
        if n > 0 {
            assert(!(line_state(point, point, 0).0 == point.x && line_state(point, point, 0).1 == point.y));
        }
        assert(k == 0);
    }
    if left <= x <= left + size - 1 && top <= y <= top + size - 1 {
        assert(in_square_brush(line_state(point, point, 0).0, line_state(point, point, 0).1, size, x, y));
    }
}


/// The hex distance is the axial distance, half the sum of the three cube-coordinate
/// differences; it is zero only between equal coordinates, symmetric, obeys the triangle
/// inequality, and each of the six axial unit steps has length one.
pub proof fn lemma_hex_distance_is_the_axial_metric(a: Coord2, b: Coord2, c: Coord2)
    ensures
        2 * spec_hex_distance(a, b) == abs(a.x - b.x) + abs(a.y - b.y) + abs((a.x - b.x) + (a.y - b.y)),
        spec_hex_distance(a, b) >= 0,
        spec_hex_distance(a, b) == 0 <==> a == b,
        spec_hex_distance(a, b) == spec_hex_distance(b, a),
        spec_hex_distance(a, c) <= spec_hex_distance(a, b) + spec_hex_distance(b, c),
        ({
            let dq = b.x - a.x;
            let dr = b.y - a.y;
            (dq, dr) == (1int, 0int) || (dq, dr) == (-1int, 0int) || (dq, dr) == (0int, 1int) || (dq, dr) == (0int, -1int)
                || (dq, dr) == (1int, -1int) || (dq, dr) == (-1int, 1int) ==> spec_hex_distance(a, b) == 1
        }),
{
}

/// A hex brush impression of radius `radius` covers exactly the in-hex samples within
/// `radius` hex steps of its center.
pub proof fn lemma_hex_brush_is_a_disc(center: Coord2, radius: int, coord: Coord2)
    ensures
        in_hex_brush(center, radius, coord) <==> spec_hex_contains(coord) && spec_hex_distance(center, coord) <= radius,
{
}


/// A stroke paints the full brush impression at each of its two ends: every pixel of the
/// `size` by `size` square around `from`, and around `to`, reaching `(size - 1) / 2` pixels up
/// and left of the point, is covered.
pub proof fn lemma_stroke_covers_both_end_impressions(from: Coord2, to: Coord2, size: int, x: int, y: int)
    requires
        size >= 1,
    ensures
        ({
            let reach = (size - 1) / 2;
            &&& from.x - reach <= x <= from.x - reach + size - 1 && from.y - reach <= y <= from.y - reach + size - 1
                ==> stroke_covers(from, to, size, x, y)
            &&& to.x - reach <= x <= to.x - reach + size - 1 && to.y - reach <= y <= to.y - reach + size - 1
                ==> stroke_covers(from, to, size, x, y)
        }),
{
    let n = lemma_line_ends(from, to);
    let reach = (size - 1) / 2;
    if from.x - reach <= x <= from.x - reach + size - 1 && from.y - reach <= y <= from.y - reach + size - 1 {
        assert(in_square_brush(line_state(from, to, 0).0, line_state(from, to, 0).1, size, x, y));
    }
    if to.x - reach <= x <= to.x - reach + size - 1 && to.y - reach <= y <= to.y - reach + size - 1 {
        assert(in_square_brush(line_state(from, to, n).0, line_state(from, to, n).1, size, x, y));
    }
}

/// The walk under a stroke moves at most one pixel along each axis per step, so the
/// impressions along it leave no gap.
pub proof fn lemma_stroke_walk_moves_to_adjacent_pixels(from: Coord2, to: Coord2, k: nat)
    ensures
        abs(line_state(from, to, k + 1).0 - line_state(from, to, k).0) <= 1,
        abs(line_state(from, to, k + 1).1 - line_state(from, to, k).1) <= 1,
{
    assert(line_state(from, to, k + 1) == line_step(from, to, line_state(from, to, k)));
}


/// The sides of the square raster run along its border, the north and south sides left to
/// right, the east and west sides top to bottom, one pixel per index: opposite sides are the
/// same line of samples one raster width apart, index by index, so facing sides of adjacent
/// tiles line up; the four corners are each shared by two sides.
pub proof fn lemma_square_sides_line_up(index: int)
    requires
        0 <= index < SQUARE_RASTER_SIZE,
    ensures
        spec_square_edge_sample(SquareDirection::North, index).y == 0,
        spec_square_edge_sample(SquareDirection::South, index).y == SQUARE_RASTER_SIZE - 1,
        spec_square_edge_sample(SquareDirection::West, index).x == 0,
        spec_square_edge_sample(SquareDirection::East, index).x == SQUARE_RASTER_SIZE - 1,
        spec_square_edge_sample(SquareDirection::North, index).x == index,
        spec_square_edge_sample(SquareDirection::West, index).y == index,
        spec_square_edge_sample(SquareDirection::South, index).x == spec_square_edge_sample(SquareDirection::North, index).x,
        spec_square_edge_sample(SquareDirection::East, index).y == spec_square_edge_sample(SquareDirection::West, index).y,
        spec_square_edge_sample(SquareDirection::North, 0) == spec_square_edge_sample(SquareDirection::West, 0),
        spec_square_edge_sample(SquareDirection::North, SQUARE_RASTER_SIZE - 1) == spec_square_edge_sample(SquareDirection::East, 0),
        spec_square_edge_sample(SquareDirection::South, 0) == spec_square_edge_sample(SquareDirection::West, SQUARE_RASTER_SIZE - 1),
        spec_square_edge_sample(SquareDirection::South, SQUARE_RASTER_SIZE - 1) == spec_square_edge_sample(
            SquareDirection::East,
            SQUARE_RASTER_SIZE - 1,
        ),
{
}

/// Opposite sides of the hex raster are the same line of samples shifted by the spacing of
/// two adjacent tiles, index by index, so facing sides of neighboring tiles line up; along a
/// side, consecutive samples are the same step apart.
pub proof fn lemma_hex_sides_line_up(direction: HexDirection, index: int)
    requires
        0 <= index < HEX_EDGE_SAMPLES - 1,
    ensures
        ({
            let here = spec_hex_edge_sample(direction, index);
            let there = spec_hex_edge_sample(direction.spec_opposite(), index);
            let first = spec_hex_edge_sample(direction, 0);
            let first_there = spec_hex_edge_sample(direction.spec_opposite(), 0);
            here.x - there.x == first.x - first_there.x && here.y - there.y == first.y - first_there.y
        }),
        ({
            let here = spec_hex_edge_sample(direction, index);
            let next = spec_hex_edge_sample(direction, index + 1);
            let step = (next.x - here.x, next.y - here.y);
            let first = spec_hex_edge_sample(direction, 0);
            let second = spec_hex_edge_sample(direction, 1);
            step == (second.x - first.x, second.y - first.y)
        }),
{
}


/// A hex brush of size `size`, from one up to a side's sample count, covers the in-hex
/// samples fewer than `size` hex steps from its center (size one: the center alone); a size
/// of zero or beyond a side's sample count paints nothing.
pub proof fn lemma_hex_brush_size_is_its_reach(center: Coord2, size: usize, coord: Coord2)
    ensures
        (size == 0 || size > HEX_EDGE_SAMPLES) <==> hex_brush_radius(size) is None,
        hex_brush_radius(size) matches Some(radius) ==> (in_hex_brush(center, radius, coord) <==> spec_hex_contains(coord)
            && spec_hex_distance(center, coord) < size),
        size == 1 ==> (in_hex_brush(center, hex_brush_radius(size).unwrap(), coord) <==> spec_hex_contains(coord) && coord
            == center),
{
    lemma_hex_distance_is_the_axial_metric(center, coord, coord);
}

} // verus!
