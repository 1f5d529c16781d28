//! Owned, dense, row-major rectangular storage.
use vstd::prelude::*;
use vstd::std_specs::iter::IteratorSpec;
use vstd::string::StringExecFns;

use crate::spatial::{
    Coord2, Extent2, area_fits, coordinates_fit, lemma_coordinate_exists,
    lemma_row_major_below_area, spec_area, spec_coordinate, spec_linear_index,
};

use crate::text::{decimal, push_decimal};

verus! {

/// An error constructing a [`Grid`].
#[derive(Clone, Debug, PartialEq, Eq)]
pub enum GridError {
    AreaOverflow { extent: Extent2 },
    LengthMismatch { expected: usize, actual: usize },
}

impl GridError {
    /// The error's message.
    pub fn to_string(&self) -> (r: String)
        ensures
            r@ == match *self {
                GridError::AreaOverflow { extent } => "grid area overflows usize: "@ + decimal(extent.width as nat) + " x "@
                    + decimal(extent.height as nat),
                GridError::LengthMismatch { expected, actual } => "grid needs "@ + decimal(expected as nat)
                    + " cells, but received "@ + decimal(actual as nat),
            },
    {
        match *self {
            GridError::AreaOverflow { extent } => {
                let mut text = "grid area overflows usize: ".to_owned();
                push_decimal(&mut text, extent.width);
                text.append(" x ");
                push_decimal(&mut text, extent.height);
                text
            },
            GridError::LengthMismatch { expected, actual } => {
                let mut text = "grid needs ".to_owned();
                push_decimal(&mut text, expected);
                text.append(" cells, but received ");
                push_decimal(&mut text, actual);
                text
            },
        }
    }
}

/// Owned, dense, row-major rectangular storage.
#[derive(Debug, PartialEq, Eq, Hash)]
pub struct Grid<T> {
    extent: Extent2,
    cells: Vec<T>,
}

impl<T> View for Grid<T> {
    type V = Seq<T>;

    /// The cells in row-major order.
    closed spec fn view(&self) -> Seq<T> {
        self.cells@
    }
}

impl<T> Grid<T> {
    #[verifier::type_invariant]
    spec fn inv(self) -> bool {
        &&& area_fits(self.extent)
        &&& self.cells@.len() == spec_area(self.extent)
    }

    /// The grid's extent.
    pub closed spec fn spec_extent(self) -> Extent2 {
        self.extent
    }

    /// Constructs a grid from row-major storage.
    pub fn from_vec(extent: Extent2, cells: Vec<T>) -> (r: Result<Self, GridError>)
        ensures
            r is Ok <==> area_fits(extent) && cells@.len() == spec_area(extent),
            r matches Ok(grid) ==> grid.spec_extent() == extent && grid@ == cells@,
            !area_fits(extent) ==> r == Err::<Self, GridError>((GridError::AreaOverflow { extent })),
            area_fits(extent) && cells@.len() != spec_area(extent) ==> r == Err::<Self, GridError>(
                (GridError::LengthMismatch { expected: spec_area(extent) as usize, actual: cells@.len() as usize }),
            ),
    {
        let expected = match extent.checked_area() {
            Some(area) => area,
            None => return Err(GridError::AreaOverflow { extent }),
        };
        if cells.len() != expected {
            return Err(GridError::LengthMismatch { expected, actual: cells.len() });
        }
        Ok(Grid { extent, cells })
    }

    /// Constructs a grid by visiting coordinates in row-major order.
    ///
    /// A non-empty grid whose dimensions exceed the signed coordinate range cannot be
    /// visited and is reported as an area overflow.
    pub fn from_fn(extent: Extent2, make_cell: impl Fn(Coord2) -> T) -> (r: Result<Self, GridError>)
        requires
            forall|coord: Coord2| call_requires(make_cell, (coord,)),
        ensures
            r is Ok <==> area_fits(extent) && coordinates_fit(extent),
            r matches Ok(grid) ==> grid.spec_extent() == extent && grid@.len() == spec_area(extent),
            r matches Ok(grid) ==> forall|i: int| 0 <= i < grid@.len()
                ==> call_ensures(make_cell, (spec_coordinate(extent, i as usize).unwrap(),), #[trigger] grid@[i]),
            r matches Err(e) ==> e == (GridError::AreaOverflow { extent }),
    {
        let len = match extent.checked_area() {
            Some(area) => area,
            None => return Err(GridError::AreaOverflow { extent }),
        };
        let mut cells: Vec<T> = Vec::with_capacity(len);
        let mut index: usize = 0;
        while index < len
            invariant
                len == spec_area(extent),
                area_fits(extent),
                index <= len,
                cells@.len() == index,
                forall|coord: Coord2| call_requires(make_cell, (coord,)),
                forall|i: usize| i < index ==> #[trigger] spec_coordinate(extent, i) is Some,
                forall|i: int| 0 <= i < cells@.len()
                    ==> call_ensures(make_cell, (spec_coordinate(extent, i as usize).unwrap(),), #[trigger] cells@[i]),
            decreases len - index,
        {
            let coord = match extent.coordinate(index) {
                Some(coord) => coord,
                None => {
                    assert(!coordinates_fit(extent)) by {
                        if coordinates_fit(extent) {
                            lemma_coordinate_exists(extent, index);
                        }
                    }
                    return Err(GridError::AreaOverflow { extent });
                },
            };
            cells.push(make_cell(coord));
            index += 1;
        }
        assert(coordinates_fit(extent)) by {
            if !coordinates_fit(extent) {
                Self::lemma_large_extent_has_no_coordinate(extent);
            }
        }
        Ok(Grid { extent, cells })
    }

    proof fn lemma_large_extent_has_no_coordinate(extent: Extent2)
        requires
            area_fits(extent),
            !coordinates_fit(extent),
        ensures
            exists|i: usize| i < spec_area(extent) && #[trigger] spec_coordinate(extent, i) is None,
    {
        let w = extent.width as int;
        let h = extent.height as int;
        assert(w > 0 && h > 0) by (nonlinear_arith)
            requires
                w * h != 0,
                w >= 0,
                h >= 0,
        ;
        if w > i32::MAX + 1 {
            let i = w - 1;
            assert(i < w * h) by (nonlinear_arith)
                requires
                    i == w - 1,
                    h >= 1,
                    w >= 1,
            ;
            vstd::arithmetic::div_mod::lemma_fundamental_div_mod_converse(i, w, 0, i);
            assert(spec_coordinate(extent, i as usize) is None);
            assert(exists|j: usize| j < spec_area(extent) && #[trigger] spec_coordinate(extent, j) is None);
        } else {
            let i = (h - 1) * w;
            lemma_row_major_below_area(w, h, 0, h - 1);
            vstd::arithmetic::div_mod::lemma_fundamental_div_mod_converse(i, w, h - 1, 0);
            assert(spec_coordinate(extent, i as usize) is None);
            assert(exists|j: usize| j < spec_area(extent) && #[trigger] spec_coordinate(extent, j) is None);
        }
    }

    pub fn extent(&self) -> (r: Extent2)
        ensures
            r == self.spec_extent(),
            area_fits(r),
            self@.len() == spec_area(r),
    {
        proof {
            use_type_invariant(self);
        }
        self.extent
    }

    pub fn len(&self) -> (r: usize)
        ensures
            r == self@.len(),
            r == spec_area(self.spec_extent()),
    {
        proof {
            use_type_invariant(self);
        }
        self.cells.len()
    }

    pub fn is_empty(&self) -> (r: bool)
        ensures
            r == (self@.len() == 0),
    {
        self.cells.len() == 0
    }

    /// The cell at an in-bounds coordinate.
    pub fn get(&self, coord: Coord2) -> (r: Option<&T>)
        ensures
            r is Some <==> spec_linear_index(self.spec_extent(), coord) is Some,
            r matches Some(cell) ==> *cell == self@[spec_linear_index(self.spec_extent(), coord).unwrap() as int],
    {
        proof {
            use_type_invariant(self);
            if spec_linear_index(self.extent, coord) is Some {
                lemma_row_major_below_area(
                    self.extent.width as int,
                    self.extent.height as int,
                    coord.x as int,
                    coord.y as int,
                );
            }
        }
        match self.extent.linear_index(coord) {
            Some(index) => Some(&self.cells[index]),
            None => None,
        }
    }

    /// Iterates over the cells in row-major order.
    pub fn iter(&self) -> (r: core::slice::Iter<'_, T>)
        ensures
            r.remaining().unref() == self@,
    {
        let r = self.cells.as_slice().iter();
        proof {
            broadcast use vstd::std_specs::slice::axiom_spec_slice_iter;
            assert(r.remaining().unref() =~= self.cells@);
        }
        r
    }

    /// The cells in row-major order.
    pub(crate) fn as_slice(&self) -> (r: &[T])
        ensures
            r@ == self@,
    {
        self.cells.as_slice()
    }

    /// A grid of the same extent holding `cells` in row-major order.
    pub(crate) fn with_cells<U>(&self, cells: Vec<U>) -> (r: Grid<U>)
        requires
            cells@.len() == self@.len(),
        ensures
            r.spec_extent() == self.spec_extent(),
            r@ == cells@,
    {
        proof {
            use_type_invariant(self);
        }
        Grid { extent: self.extent, cells }
    }

    /// Mutable access to the cell at an in-bounds coordinate.
    pub fn get_mut(&mut self, coord: Coord2) -> (r: Option<&mut T>)
        ensures
            r is Some <==> spec_linear_index(old(self).spec_extent(), coord) is Some,
            r is Some ==> spec_linear_index(old(self).spec_extent(), coord).unwrap() < old(self)@.len(),
            final(self).spec_extent() == old(self).spec_extent(),
            r matches Some(cell) ==> *cell == old(self)@[spec_linear_index(old(self).spec_extent(), coord).unwrap() as int]
                && final(self)@ == old(self)@.update(
                    spec_linear_index(old(self).spec_extent(), coord).unwrap() as int,
                    *final(cell),
                ),
            r is None ==> final(self)@ == old(self)@,
    {
        proof {
            use_type_invariant(&*self);
            if spec_linear_index(self.extent, coord) is Some {
                lemma_row_major_below_area(
                    self.extent.width as int,
                    self.extent.height as int,
                    coord.x as int,
                    coord.y as int,
                );
            }
        }
        match self.extent.linear_index(coord) {
            Some(index) => Some(&mut self.cells[index]),
            None => None,
        }
    }

    /// The coordinates of every cell, in row-major order.
    pub fn coordinates(&self) -> (r: Vec<Coord2>)
        requires
            coordinates_fit(self.spec_extent()),
        ensures
            r@.len() == self@.len(),
            forall|i: int| 0 <= i < r@.len() ==> Some(#[trigger] r@[i]) == spec_coordinate(self.spec_extent(), i as usize),
    {
        proof {
            use_type_invariant(self);
        }
        let len = self.cells.len();
        let mut coords: Vec<Coord2> = Vec::with_capacity(len);
        let mut index: usize = 0;
        while index < len
            invariant
                len == self.cells@.len(),
                len == spec_area(self.extent),
                area_fits(self.extent),
                coordinates_fit(self.extent),
                index <= len,
                coords@.len() == index,
                forall|i: int| 0 <= i < coords@.len() ==> Some(#[trigger] coords@[i]) == spec_coordinate(self.extent, i as usize),
            decreases len - index,
        {
            proof {
                lemma_coordinate_exists(self.extent, index);
            }
            let coord = self.extent.coordinate(index).unwrap();
            coords.push(coord);
            index += 1;
        }
        coords
    }

    /// Every cell with its coordinate, in row-major order.
    pub fn cells(&self) -> (r: Vec<(Coord2, &T)>)
        requires
            coordinates_fit(self.spec_extent()),
        ensures
            r@.len() == self@.len(),
            forall|i: int| 0 <= i < r@.len() ==> Some((#[trigger] r@[i]).0) == spec_coordinate(self.spec_extent(), i as usize)
                && *r@[i].1 == self@[i],
    {
        proof {
            use_type_invariant(self);
        }
        let coords = self.coordinates();
        let mut out: Vec<(Coord2, &T)> = Vec::with_capacity(coords.len());
        let mut index: usize = 0;
        while index < coords.len()
            invariant
                coords@.len() == self.cells@.len(),
                forall|i: int| 0 <= i < coords@.len() ==> Some(#[trigger] coords@[i]) == spec_coordinate(self.extent, i as usize),
                index <= coords@.len(),
                out@.len() == index,
                forall|i: int| 0 <= i < out@.len() ==> Some((#[trigger] out@[i]).0) == spec_coordinate(self.extent, i as usize)
                    && *out@[i].1 == self.cells@[i],
            decreases coords@.len() - index,
        {
            out.push((coords[index], &self.cells[index]));
            index += 1;
        }
        out
    }

    /// Replaces every cell by what `update` makes of its coordinate and its current value, in
    /// row-major order.
    pub fn update_cells(&mut self, update: impl Fn(Coord2, &T) -> T)
        requires
            coordinates_fit(old(self).spec_extent()),
            forall|coord: Coord2, cell: &T| call_requires(update, (coord, cell)),
        ensures
            final(self).spec_extent() == old(self).spec_extent(),
            final(self)@.len() == old(self)@.len(),
            forall|i: int|
                0 <= i < old(self)@.len() ==> call_ensures(
                    update,
                    (spec_coordinate(old(self).spec_extent(), i as usize).unwrap(), &old(self)@[i]),
                    #[trigger] final(self)@[i],
                ),
    {
        proof {
            use_type_invariant(&*self);
        }
        let len = self.cells.len();
        let mut updated: Vec<T> = Vec::with_capacity(len);
        let mut index: usize = 0;
        while index < len
            invariant
                len == self.cells@.len(),
                len == spec_area(self.extent),
                area_fits(self.extent),
                coordinates_fit(self.extent),
                index <= len,
                updated@.len() == index,
                forall|coord: Coord2, cell: &T| call_requires(update, (coord, cell)),
                forall|i: int|
                    0 <= i < index ==> call_ensures(
                        update,
                        (spec_coordinate(self.extent, i as usize).unwrap(), &self.cells@[i]),
                        #[trigger] updated@[i],
                    ),
            decreases len - index,
        {
            proof {
                lemma_coordinate_exists(self.extent, index);
            }
            let coord = self.extent.coordinate(index).unwrap();
            updated.push(update(coord, &self.cells[index]));
            index += 1;
        }
        self.cells = updated;
    }

    pub fn into_vec(self) -> (r: Vec<T>)
        ensures
            r@ == self@,
    {
        self.cells
    }
}

impl<T: Clone> Clone for Grid<T> {
    fn clone(&self) -> (r: Self)
        ensures
            r.spec_extent() == self.spec_extent(),
            r@.len() == self@.len(),
            forall|i: int| 0 <= i < self@.len() ==> cloned(self@[i], #[trigger] r@[i]),
    {
        proof {
            use_type_invariant(self);
        }
        Grid { extent: self.extent, cells: self.cells.clone() }
    }
}

impl<T: Clone> Grid<T> {
    /// A grid whose every cell is a clone of `value`.
    pub fn filled(extent: Extent2, value: T) -> (r: Result<Self, GridError>)
        ensures
            r is Ok <==> area_fits(extent),
            r matches Ok(grid) ==> grid.spec_extent() == extent && grid@.len() == spec_area(extent),
            r matches Ok(grid) ==> forall|i: int| 0 <= i < grid@.len() ==> cloned(value, #[trigger] grid@[i]),
            r matches Err(e) ==> e == (GridError::AreaOverflow { extent }),
    {
        let len = match extent.checked_area() {
            Some(area) => area,
            None => return Err(GridError::AreaOverflow { extent }),
        };
        Self::from_vec(extent, vec![value; len])
    }
}

impl<T> core::ops::Index<Coord2> for Grid<T> {
    type Output = T;

    fn index(&self, coord: Coord2) -> (r: &T)
        ensures
            *r == self@[spec_linear_index(self.spec_extent(), coord).unwrap() as int],
    {
        proof {
            use_type_invariant(self);
            lemma_row_major_below_area(
                self.extent.width as int,
                self.extent.height as int,
                coord.x as int,
                coord.y as int,
            );
        }
        let index = self.extent.linear_index(coord).unwrap();
        &self.cells[index]
    }
}

impl<T> vstd::std_specs::core::IndexSpecImpl<Coord2> for Grid<T> {
    /// Indexing is defined on coordinates inside the grid.
    open spec fn index_req(&self, coord: &Coord2) -> bool {
        spec_linear_index(self.spec_extent(), *coord) is Some
    }
}

impl<T> IntoIterator for Grid<T> {
    type Item = T;
    type IntoIter = std::vec::IntoIter<T>;

    /// Consumes the grid, yielding its cells in row-major order.
    fn into_iter(self) -> (r: std::vec::IntoIter<T>)
        ensures
            r.remaining() == self@,
    {
        let cells = self.cells;
        let r = cells.into_iter();
        proof {
            broadcast use vstd::std_specs::vec::axiom_spec_into_iter;
        }
        r
    }
}

impl<'a, T> IntoIterator for &'a Grid<T> {
    type Item = &'a T;
    type IntoIter = core::slice::Iter<'a, T>;

    /// Visits the cells in row-major order.
    fn into_iter(self) -> (r: core::slice::Iter<'a, T>)
        ensures
            r.remaining().unref() == self@,
    {
        self.iter()
    }
}

} // verus!
