//! Binary occupancy grid derived from a raster image.

use vstd::prelude::*;

use crate::arr2::CellArray2;
use crate::arr2;

verus! {

/// State of one occupancy-grid cell.
#[derive(Clone, Copy, Debug, PartialEq, Eq, Structural)]
pub enum GridMapCellState {
    Vacant,
    Occupied,
}

/// Which grayscale extreme of the source image marks occupied space.
#[derive(Clone, Copy, Debug, PartialEq, Eq, Structural)]
pub enum OccupiedRegionColor {
    White,
    Black,
}

/// Failures while turning an image into a grid map.
#[derive(Clone, Copy, Debug, PartialEq, Eq, Structural)]
pub enum GridMapError {
    ImageNotFound,
    ImageDecodeFailed,
}

/// One cell of the occupancy grid.
#[derive(Clone, Copy, Debug)]
pub struct GridMapCell {
    state: GridMapCellState,
}

impl GridMapCell {
    pub closed spec fn spec_state(&self) -> GridMapCellState {
        self.state
    }

    pub fn new(state: GridMapCellState) -> (r: Self)
        ensures
            r.spec_state() == state,
    {
        GridMapCell { state }
    }

    pub fn state(&self) -> (r: &GridMapCellState)
        ensures
            *r == self.spec_state(),
    {
        &self.state
    }

    pub fn state_mut(&mut self) -> (r: &mut GridMapCellState)
        ensures
            *r == old(self).spec_state(),
            final(self).spec_state() == *final(r),
    {
        &mut self.state
    }
}

/// A row-major grid of occupancy cells.
pub struct GridMap {
    cells: CellArray2,
}

impl GridMap {
    /// Number of cell rows.
    pub closed spec fn spec_rows(&self) -> usize {
        arr2::cell_grid_dim_of(self.cells).0
    }

    /// Number of cell columns.
    pub closed spec fn spec_columns(&self) -> usize {
        arr2::cell_grid_dim_of(self.cells).1
    }

    /// Row-major occupancy: `true` at `r * columns + c` means cell `(r, c)`
    /// is occupied.
    pub closed spec fn occupancy(&self) -> Seq<bool> {
        arr2::cell_grid_of(self.cells)
    }

    /// The grid's dimensions and contents agree.
    pub open spec fn wf(&self) -> bool {
        self.occupancy().len() == self.spec_rows() * self.spec_columns()
    }

    /// Whether cell `(r, c)` of an occupancy sequence with `columns` columns
    /// is occupied.
    pub open spec fn occupied_at(occ: Seq<bool>, columns: usize, r: int, c: int) -> bool {
        occ[r * columns + c]
    }

    /// Flat row-major index of an in-range cell stays below the cell count.
    pub proof fn lemma_row_major(i: int, j: int, rows: int, columns: int)
        requires
            0 <= i < rows,
            0 <= j < columns,
        ensures
            0 <= i * columns + j < rows * columns,
            i * columns + j < (i + 1) * columns,
            (i + 1) * columns <= rows * columns,
    {
        assert(0 <= i * columns + j < rows * columns && i * columns + j < (i + 1) * columns && (i
            + 1) * columns <= rows * columns) by (nonlinear_arith)
            requires
                0 <= i < rows,
                0 <= j < columns,
        ;
    }

    /// Grid with every cell in the given state.
    pub fn with_cell_state(width: usize, height: usize, state: GridMapCellState) -> (r: Self)
        requires
            width as int <= isize::MAX as int,
            height as int <= isize::MAX as int,
            width * height <= isize::MAX as int,
        ensures
            r.wf(),
            r.spec_rows() == height,
            r.spec_columns() == width,
            forall|i: int|
                0 <= i < r.occupancy().len() ==> r.occupancy()[i] == (state
                    == GridMapCellState::Occupied),
    {
        let total: usize = width * height;
        let mut cells: Vec<GridMapCell> = Vec::new();
        let mut i: usize = 0;
        while i < total
            invariant
                i <= total,
                cells@.len() == i,
                forall|j: int|
                    0 <= j < i ==> cells@[j].spec_state() == state,
            decreases total - i,
        {
            cells.push(GridMapCell { state });
            i += 1;
        }
        let arr = CellArray2::from_vec(height, width, cells);
        GridMap { cells: arr }
    }

    /// Classification rule for one image pixel: border pixels are occupied,
    /// and an interior pixel is occupied when its gray value lies beyond the
    /// threshold on the occupied side.
    pub open spec fn pixel_occupied(
        rows: usize,
        columns: usize,
        pixels: Seq<u8>,
        color: OccupiedRegionColor,
        threshold: u8,
        r: int,
        c: int,
    ) -> bool {
        r == 0 || c == 0 || r == rows - 1 || c == columns - 1 || (color
            == OccupiedRegionColor::Black && pixels[r * columns + c] < threshold) || (color
            == OccupiedRegionColor::White && pixels[r * columns + c] > threshold)
    }

    /// Grid built from a decoded 8-bit grayscale image, given row-major.
    ///
    /// Every border cell is forced occupied, so that no vacant region ever
    /// touches the border; the thinner and the extractor rely on that.
    pub fn from_image_pixels(
        width: usize,
        height: usize,
        pixels: &Vec<u8>,
        occupied_region_color: OccupiedRegionColor,
        threshold: u8,
    ) -> (ret: Self)
        requires
            pixels@.len() == height * width,
            height as int <= isize::MAX as int,
            width as int <= isize::MAX as int,
            height * width <= isize::MAX as int,
        ensures
            ret.wf(),
            ret.spec_rows() == height,
            ret.spec_columns() == width,
            forall|r: int, c: int|
                0 <= r < height && 0 <= c < width ==> Self::occupied_at(ret.occupancy(), width, r, c)
                    == Self::pixel_occupied(
                    height,
                    width,
                    pixels@,
                    occupied_region_color,
                    threshold,
                    r,
                    c,
                ),
    {
        let n: usize = pixels.len();
        let mut cells: Vec<GridMapCell> = Vec::new();
        let mut r: usize = 0;
        while r < height
            invariant
                r <= height,
                n == height * width,
                pixels@.len() == height * width,
                cells@.len() == r * width,
                forall|i: int, j: int|
                    0 <= i < r && 0 <= j < width ==> (cells@[i * width + j].spec_state()
                        == GridMapCellState::Occupied) == Self::pixel_occupied(
                        height,
                        width,
                        pixels@,
                        occupied_region_color,
                        threshold,
                        i,
                        j,
                    ),
            decreases height - r,
        {
            let mut c: usize = 0;
            while c < width
                invariant
                    r < height,
                    c <= width,
                    n == height * width,
                    pixels@.len() == height * width,
                    cells@.len() == r * width + c,
                    forall|i: int, j: int|
                        0 <= i < r && 0 <= j < width ==> (cells@[i * width + j].spec_state()
                            == GridMapCellState::Occupied) == Self::pixel_occupied(
                            height,
                            width,
                            pixels@,
                            occupied_region_color,
                            threshold,
                            i,
                            j,
                        ),
                    forall|j: int|
                        0 <= j < c ==> (cells@[r * width + j].spec_state()
                            == GridMapCellState::Occupied) == Self::pixel_occupied(
                            height,
                            width,
                            pixels@,
                            occupied_region_color,
                            threshold,
                            r as int,
                            j,
                        ),
                decreases width - c,
            {
                proof {
                    Self::lemma_row_major(r as int, c as int, height as int, width as int);
                    assert(r * width + c < n);
                }
                let pixel_value: u8 = pixels[r * width + c];
                let state: GridMapCellState = if r == 0 || c == 0 || r == height - 1 || c == width
                    - 1 {
                    GridMapCellState::Occupied
                } else if occupied_region_color == OccupiedRegionColor::Black && pixel_value
                    < threshold {
                    GridMapCellState::Occupied
                } else if occupied_region_color == OccupiedRegionColor::White && pixel_value
                    > threshold {
                    GridMapCellState::Occupied
                } else {
                    GridMapCellState::Vacant
                };
                cells.push(GridMapCell { state });
                c += 1;
                proof {
                    assert forall|i: int, j: int| 0 <= i < r && 0 <= j < width implies (cells@[i
                        * width + j].spec_state() == GridMapCellState::Occupied)
                        == Self::pixel_occupied(
                        height,
                        width,
                        pixels@,
                        occupied_region_color,
                        threshold,
                        i,
                        j,
                    ) by {
                        Self::lemma_row_major(i, j, r as int, width as int);
                    }
                }
            }
            r += 1;
            proof {
                assert((r - 1) * width + width == r * width) by (nonlinear_arith);
                assert forall|i: int, j: int| 0 <= i < r && 0 <= j < width implies (cells@[i * width
                    + j].spec_state() == GridMapCellState::Occupied) == Self::pixel_occupied(
                    height,
                    width,
                    pixels@,
                    occupied_region_color,
                    threshold,
                    i,
                    j,
                ) by {
                    Self::lemma_row_major(i, j, r as int, width as int);
                }
            }
        }
        let arr = CellArray2::from_vec(height, width, cells);
        let ret = GridMap { cells: arr };
        proof {
            assert forall|i: int, j: int| 0 <= i < height && 0 <= j < width implies Self::occupied_at(
                ret.occupancy(),
                width,
                i,
                j,
            ) == Self::pixel_occupied(
                height,
                width,
                pixels@,
                occupied_region_color,
                threshold,
                i,
                j,
            ) by {
                assert(i * width + j < height * width) by (nonlinear_arith)
                    requires
                        i < height,
                        j < width,
                        0 <= i,
                        0 <= j,
                ;
            }
        }
        ret
    }

    /// Border safety, stated as a law: every border cell of a grid built
    /// from an image is occupied.
    pub proof fn lemma_border_occupied(
        rows: usize,
        columns: usize,
        pixels: Seq<u8>,
        color: OccupiedRegionColor,
        threshold: u8,
        r: int,
        c: int,
    )
        requires
            0 <= r < rows,
            0 <= c < columns,
            r == 0 || c == 0 || r == rows - 1 || c == columns - 1,
        ensures
            Self::pixel_occupied(rows, columns, pixels, color, threshold, r, c),
    {
    }

    /// Cell at `(row, column)`, if in bounds.
    pub fn get_by_cell(&self, row: usize, column: usize) -> (r: Option<&GridMapCell>)
        ensures
            r matches Some(cell) ==> row < self.spec_rows() && column < self.spec_columns() && (
            cell.spec_state() == GridMapCellState::Occupied) == Self::occupied_at(
                self.occupancy(),
                self.spec_columns(),
                row as int,
                column as int,
            ),
            r is None ==> !(row < self.spec_rows() && column < self.spec_columns()),
    {
        self.cells.get(row, column)
    }

    /// Replace the state of cell `(row, column)`; reports whether the cell
    /// exists.
    pub fn set_cell_state(&mut self, row: usize, column: usize, state: GridMapCellState) -> (r:
        bool)
        ensures
            r == (row < old(self).spec_rows() && column < old(self).spec_columns()),
            final(self).spec_rows() == old(self).spec_rows(),
            final(self).spec_columns() == old(self).spec_columns(),
            r ==> final(self).occupancy() == old(self).occupancy().update(
                row * old(self).spec_columns() + column,
                state == GridMapCellState::Occupied,
            ),
            !r ==> final(self).occupancy() == old(self).occupancy(),
    {
        let (rows, columns) = self.cells.dim();
        if row < rows && column < columns {
            self.cells.set(row, column, GridMapCell { state });
            true
        } else {
            false
        }
    }

    /// Number of cells in horizontal direction.
    pub fn horizontal_cells(&self) -> (r: usize)
        ensures
            r == self.spec_columns(),
    {
        self.cells.dim().1
    }

    /// Number of cells in vertical direction.
    pub fn vertical_cells(&self) -> (r: usize)
        ensures
            r == self.spec_rows(),
    {
        self.cells.dim().0
    }
}

} // verus!
