//! A row-major boolean grid with verified indexing.

use vstd::prelude::*;

use crate::arr2::{self, BoolArray2};
use crate::grid_map::GridMap;

verus! {

/// A boolean image stored row-major: `true` is a foreground pixel.
pub struct BoolGrid {
    cells: Vec<bool>,
    width: usize,
    height: usize,
}

impl BoolGrid {
    /// Row-major contents.
    pub closed spec fn grid(&self) -> Seq<bool> {
        self.cells@
    }

    pub closed spec fn spec_width(&self) -> usize {
        self.width
    }

    pub closed spec fn spec_height(&self) -> usize {
        self.height
    }

    /// The cell count matches the dimensions.
    pub open spec fn wf(&self) -> bool {
        self.grid().len() == self.spec_height() * self.spec_width()
    }

    /// The pixel at row `y`, column `x` of a row-major sequence `s` with
    /// `w` columns.
    pub open spec fn at(s: Seq<bool>, w: int, y: int, x: int) -> bool {
        s[y * w + x]
    }

    /// Grid over an existing row-major cell vector.
    pub fn from_vec_grid(width: usize, height: usize, cells: Vec<bool>) -> (r: Self)
        requires
            cells@.len() == height * width,
        ensures
            r.wf(),
            r.spec_width() == width,
            r.spec_height() == height,
            r.grid() == cells@,
    {
        BoolGrid { cells, width, height }
    }

    /// Grid of the given dimensions with every pixel set to `value`.
    pub fn filled(width: usize, height: usize, value: bool) -> (r: Self)
        requires
            height * width <= usize::MAX,
        ensures
            r.wf(),
            r.spec_width() == width,
            r.spec_height() == height,
            forall|k: int| 0 <= k < r.grid().len() ==> r.grid()[k] == value,
    {
        let total: usize = height * width;
        let mut cells: Vec<bool> = Vec::new();
        let mut i: usize = 0;
        while i < total
            invariant
                i <= total,
                cells@.len() == i,
                forall|j: int| 0 <= j < i ==> cells@[j] == value,
            decreases total - i,
        {
            cells.push(value);
            i += 1;
        }
        BoolGrid { cells, width, height }
    }

    pub fn width(&self) -> (r: usize)
        ensures
            r == self.spec_width(),
    {
        self.width
    }

    pub fn height(&self) -> (r: usize)
        ensures
            r == self.spec_height(),
    {
        self.height
    }

    /// Read the pixel at row `y`, column `x`.
    pub fn get(&self, y: usize, x: usize) -> (r: bool)
        requires
            self.wf(),
            y < self.spec_height(),
            x < self.spec_width(),
        ensures
            r == Self::at(self.grid(), self.spec_width() as int, y as int, x as int),
    {
        proof {
            GridMap::lemma_row_major(
                y as int,
                x as int,
                self.spec_height() as int,
                self.spec_width() as int,
            );
        }
        let _n: usize = self.cells.len();
        self.cells[y * self.width + x]
    }

    /// Write the pixel at row `y`, column `x`.
    pub fn set(&mut self, y: usize, x: usize, value: bool)
        requires
            old(self).wf(),
            y < old(self).spec_height(),
            x < old(self).spec_width(),
        ensures
            final(self).wf(),
            final(self).spec_width() == old(self).spec_width(),
            final(self).spec_height() == old(self).spec_height(),
            final(self).grid() == old(self).grid().update(
                y * old(self).spec_width() + x,
                value,
            ),
    {
        proof {
            GridMap::lemma_row_major(
                y as int,
                x as int,
                self.spec_height() as int,
                self.spec_width() as int,
            );
        }
        let _n: usize = self.cells.len();
        let k: usize = y * self.width + x;
        self.cells.set(k, value);
    }

    /// Read the pixel at flat row-major index `k`.
    pub fn get_flat(&self, k: usize) -> (r: bool)
        requires
            k < self.grid().len(),
        ensures
            r == self.grid()[k as int],
    {
        self.cells[k]
    }

    /// Write the pixel at flat row-major index `k`.
    pub fn set_flat(&mut self, k: usize, value: bool)
        requires
            k < old(self).grid().len(),
        ensures
            final(self).spec_width() == old(self).spec_width(),
            final(self).spec_height() == old(self).spec_height(),
            final(self).grid() == old(self).grid().update(k as int, value),
    {
        self.cells.set(k, value);
    }

    /// An equal copy of this grid.
    pub fn clone_grid(&self) -> (r: Self)
        ensures
            r.grid() == self.grid(),
            r.spec_width() == self.spec_width(),
            r.spec_height() == self.spec_height(),
    {
        let total: usize = self.cells.len();
        let mut v: Vec<bool> = Vec::new();
        let mut i: usize = 0;
        while i < total
            invariant
                i <= total,
                total == self.grid().len(),
                v@.len() == i,
                forall|j: int| 0 <= j < i ==> v@[j] == self.grid()[j],
            decreases total - i,
        {
            v.push(self.cells[i]);
            i += 1;
        }
        proof {
            assert(v@ =~= self.grid());
        }
        BoolGrid { cells: v, width: self.width, height: self.height }
    }

    /// Copy of the grid held in an ndarray buffer.
    pub fn to_array(&self) -> (r: BoolArray2)
        requires
            self.wf(),
            self.spec_height() as int <= isize::MAX as int,
            self.spec_width() as int <= isize::MAX as int,
            self.spec_height() * self.spec_width() <= isize::MAX as int,
        ensures
            arr2::bool_grid_dim_of(r) == (self.spec_height(), self.spec_width()),
            arr2::bool_grid_of(r) == self.grid(),
    {
        let mut v: Vec<bool> = Vec::new();
        let total: usize = self.cells.len();
        let mut i: usize = 0;
        while i < total
            invariant
                i <= total,
                total == self.grid().len(),
                v@.len() == i,
                forall|j: int| 0 <= j < i ==> v@[j] == self.grid()[j],
            decreases total - i,
        {
            v.push(self.cells[i]);
            i += 1;
        }
        proof {
            assert(v@ =~= self.grid());
        }
        BoolArray2::from_vec(self.height, self.width, v)
    }

    /// Grid read out of an ndarray buffer.
    pub fn from_array(a: &BoolArray2) -> (r: Self)
        ensures
            r.wf(),
            r.spec_height() == arr2::bool_grid_dim_of(*a).0,
            r.spec_width() == arr2::bool_grid_dim_of(*a).1,
            r.grid() == arr2::bool_grid_of(*a),
            r.spec_height() as int <= isize::MAX as int,
            r.spec_width() as int <= isize::MAX as int,
            r.spec_height() * r.spec_width() <= isize::MAX as int,
    {
        let (height, width) = a.dim();
        let mut v: Vec<bool> = Vec::new();
        let mut y: usize = 0;
        while y < height
            invariant
                y <= height,
                (height, width) == arr2::bool_grid_dim_of(*a),
                arr2::bool_grid_of(*a).len() == height * width,
                v@.len() == y * width,
                forall|j: int| 0 <= j < y * width ==> v@[j] == arr2::bool_grid_of(*a)[j],
            decreases height - y,
        {
            let mut x: usize = 0;
            while x < width
                invariant
                    y < height,
                    x <= width,
                    (height, width) == arr2::bool_grid_dim_of(*a),
                    arr2::bool_grid_of(*a).len() == height * width,
                    v@.len() == y * width + x,
                    forall|j: int| 0 <= j < y * width + x ==> v@[j] == arr2::bool_grid_of(*a)[j],
                decreases width - x,
            {
                proof {
                    GridMap::lemma_row_major(y as int, x as int, height as int, width as int);
                }
                v.push(a.at(y, x));
                x += 1;
            }
            y += 1;
            proof {
                assert((y - 1) * width + width == y * width) by (nonlinear_arith);
            }
        }
        proof {
            assert(v@ =~= arr2::bool_grid_of(*a));
        }
        BoolGrid { cells: v, width, height }
    }
}

} // verus!
