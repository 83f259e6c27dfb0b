//! Trusted bindings to ndarray's two-dimensional arrays.
//!
//! The occupancy grid and the thinner keep their data in `ndarray::Array2`
//! buffers.  Verus refuses a declaration of `ArrayBase` itself (its `RawData`
//! bound names a trait it cannot see), so each buffer is held in a private
//! field of a small opaque struct.  The uninterpreted functions below name
//! the buffer's contents (row-major) and its dimensions, and each wrapper
//! states over those names what the called ndarray method does, as its
//! source shows.

use vstd::prelude::*;

use crate::grid_map::{GridMapCell, GridMapCellState};

verus! {

/// Opaque holder of an `ndarray::Array2<bool>`.
#[verifier::external_body]
pub struct BoolArray2 {
    inner: ndarray::Array2<bool>,
}

/// Opaque holder of an `ndarray::Array2<GridMapCell>`.
#[verifier::external_body]
pub struct CellArray2 {
    inner: ndarray::Array2<GridMapCell>,
}

/// Row-major contents of a two-dimensional boolean array.
pub uninterp spec fn bool_grid_of(a: BoolArray2) -> Seq<bool>;

/// Dimensions `(rows, columns)` of a two-dimensional boolean array.
pub uninterp spec fn bool_grid_dim_of(a: BoolArray2) -> (usize, usize);

/// Row-major contents of a two-dimensional cell array; `true` stands for an
/// occupied cell.
pub uninterp spec fn cell_grid_of(a: CellArray2) -> Seq<bool>;

/// Dimensions `(rows, columns)` of a two-dimensional cell array.
pub uninterp spec fn cell_grid_dim_of(a: CellArray2) -> (usize, usize);

impl BoolArray2 {
    /// Relies on ndarray's `Array2::from_shape_vec`: with a `(rows, columns)`
    /// shape it succeeds exactly when `rows * columns` equals the vector's
    /// length and the product of the non-zero axis lengths stays within
    /// `isize::MAX` (its size check), and the vector becomes the array's
    /// row-major contents.
    #[verifier::external_body]
    pub(crate) fn from_vec(rows: usize, columns: usize, v: Vec<bool>) -> (r: Self)
        requires
            rows * columns == v@.len(),
            rows as int <= isize::MAX as int,
            columns as int <= isize::MAX as int,
            rows * columns <= isize::MAX as int,
        ensures
            bool_grid_dim_of(r) == (rows, columns),
            bool_grid_of(r) == v@,
    {
        BoolArray2 { inner: ndarray::Array2::from_shape_vec((rows, columns), v).unwrap() }
    }

    /// Relies on ndarray's `ArrayBase::dim`, which returns the array's
    /// `(rows, columns)` pattern; the element count equals their product,
    /// and every constructible array has passed ndarray's size check, which
    /// keeps each axis and the element count within `isize::MAX`.
    #[verifier::external_body]
    pub(crate) fn dim(&self) -> (r: (usize, usize))
        ensures
            r == bool_grid_dim_of(*self),
            bool_grid_of(*self).len() == r.0 * r.1,
            r.0 as int <= isize::MAX as int,
            r.1 as int <= isize::MAX as int,
            r.0 * r.1 <= isize::MAX as int,
    {
        self.inner.dim()
    }

    /// Relies on ndarray's `Index` impl for `ArrayBase`, which returns the
    /// element at `(row, column)` of the row-major buffer.
    #[verifier::external_body]
    pub(crate) fn at(&self, row: usize, column: usize) -> (r: bool)
        requires
            row < bool_grid_dim_of(*self).0,
            column < bool_grid_dim_of(*self).1,
        ensures
            r == bool_grid_of(*self)[row * bool_grid_dim_of(*self).1 + column],
    {
        self.inner[[row, column]]
    }
}

impl CellArray2 {
    /// Relies on ndarray's `Array2::from_shape_vec`, as
    /// `BoolArray2::from_vec` does, for arrays of grid cells (same size
    /// check).
    #[verifier::external_body]
    pub(crate) fn from_vec(rows: usize, columns: usize, v: Vec<GridMapCell>) -> (r: Self)
        requires
            rows * columns == v@.len(),
            rows as int <= isize::MAX as int,
            columns as int <= isize::MAX as int,
            rows * columns <= isize::MAX as int,
        ensures
            cell_grid_dim_of(r) == (rows, columns),
            cell_grid_of(r) =~= Seq::new(
                v@.len(),
                |i: int| v@[i].spec_state() == GridMapCellState::Occupied,
            ),
    {
        CellArray2 { inner: ndarray::Array2::from_shape_vec((rows, columns), v).unwrap() }
    }

    /// Relies on ndarray's `ArrayBase::dim`, as `BoolArray2::dim` does
    /// (same size-check bounds).
    #[verifier::external_body]
    pub(crate) fn dim(&self) -> (r: (usize, usize))
        ensures
            r == cell_grid_dim_of(*self),
            cell_grid_of(*self).len() == r.0 * r.1,
            r.0 as int <= isize::MAX as int,
            r.1 as int <= isize::MAX as int,
            r.0 * r.1 <= isize::MAX as int,
    {
        self.inner.dim()
    }

    /// Relies on ndarray's `ArrayRef::get`, which returns the element at
    /// `(row, column)` when both indices are in bounds and `None` otherwise.
    #[verifier::external_body]
    pub(crate) fn get(&self, row: usize, column: usize) -> (r: Option<&GridMapCell>)
        ensures
            r matches Some(c) ==> row < cell_grid_dim_of(*self).0 && column < cell_grid_dim_of(
                *self,
            ).1 && (c.spec_state() == GridMapCellState::Occupied) == cell_grid_of(*self)[row
                * cell_grid_dim_of(*self).1 + column],
            r is None ==> !(row < cell_grid_dim_of(*self).0 && column < cell_grid_dim_of(*self).1),
    {
        self.inner.get((row, column))
    }

    /// Relies on ndarray's `IndexMut` impl for `ArrayBase`, which replaces
    /// the element at `(row, column)` of the row-major buffer.
    #[verifier::external_body]
    pub(crate) fn set(&mut self, row: usize, column: usize, cell: GridMapCell)
        requires
            row < cell_grid_dim_of(*old(self)).0,
            column < cell_grid_dim_of(*old(self)).1,
        ensures
            cell_grid_dim_of(*final(self)) == cell_grid_dim_of(*old(self)),
            cell_grid_of(*final(self)) =~= cell_grid_of(*old(self)).update(
                row * cell_grid_dim_of(*old(self)).1 + column,
                cell.spec_state() == GridMapCellState::Occupied,
            ),
    {
        self.inner[[row, column]] = cell;
    }
}

} // verus!
