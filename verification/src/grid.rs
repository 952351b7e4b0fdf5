//! Dense, row-major grids of pixels.

use vstd::prelude::*;

verus! {

/// A `width` by `height` grid of cells, stored row by row: the cell of pixel
/// `(x, y)` is at index `y * width + x`.
#[derive(Debug)]
pub struct PixelGrid<T> {
    width: u32,
    height: u32,
    cells: Vec<T>,
}

impl<T> View for PixelGrid<T> {
    type V = Seq<T>;

    closed spec fn view(&self) -> Seq<T> {
        self.cells@
    }
}

impl<T> PixelGrid<T> {
    /// A grid holds exactly one cell for each pixel.
    #[verifier::type_invariant]
    pub closed spec fn well_formed(self) -> bool {
        self.cells@.len() == self.width as int * self.height as int
    }

    /// The number of columns, in contracts.
    pub closed spec fn spec_width(&self) -> u32 {
        self.width
    }

    /// The number of rows, in contracts.
    pub closed spec fn spec_height(&self) -> u32 {
        self.height
    }

    /// Wraps `cells` as a grid, or returns `None` when their number is not
    /// `width * height`.
    pub fn new(width: u32, height: u32, cells: Vec<T>) -> (grid: Option<Self>)
        ensures
            grid is Some <==> cells@.len() == width as int * height as int,
            grid matches Some(g) ==> g.width() == width && g.height() == height && g@ == cells@,
    {
        proof {
            lemma_product_fits(width, height);
        }
        let expected: u64 = width as u64 * height as u64;
        if cells.len() as u64 == expected {
            Some(PixelGrid { width, height, cells })
        } else {
            None
        }
    }

    /// Wraps `cells`, one for each pixel, as a grid.
    pub(crate) fn from_cells(width: u32, height: u32, cells: Vec<T>) -> (grid: Self)
        requires
            cells@.len() == width as int * height as int,
        ensures
            grid.width() == width,
            grid.height() == height,
            grid@ == cells@,
    {
        PixelGrid { width, height, cells }
    }

    /// The number of columns.
    #[verifier::when_used_as_spec(spec_width)]
    pub fn width(&self) -> (width: u32)
        ensures
            width == self.width(),
    {
        self.width
    }

    /// The number of rows.
    #[verifier::when_used_as_spec(spec_height)]
    pub fn height(&self) -> (height: u32)
        ensures
            height == self.height(),
    {
        self.height
    }

    /// The cells, row by row.
    pub fn cells(&self) -> (cells: &Vec<T>)
        ensures
            cells@ == self@,
            cells@.len() == self.width() as int * self.height() as int,
    {
        proof {
            use_type_invariant(self);
        }
        &self.cells
    }

    /// The cell of pixel `(x, y)`, or `None` outside the grid.
    pub fn get(&self, x: u32, y: u32) -> (cell: Option<&T>)
        ensures
            cell is Some <==> x < self.width() && y < self.height(),
            cell matches Some(c) ==> *c == self@[y as int * self.width() as int + x as int],
    {
        if x < self.width && y < self.height {
            proof {
                use_type_invariant(self);
                lemma_cell_index(x as int, y as int, self.width as int, self.height as int);
                assert(self.cells@.len() == self.cells.len() <= usize::MAX);
            }
            let index: u64 = y as u64 * self.width as u64 + x as u64;
            Some(&self.cells[index as usize])
        } else {
            None
        }
    }
}

/// The product of two 32-bit numbers fits in 64 bits.
proof fn lemma_product_fits(a: u32, b: u32)
    by (nonlinear_arith)
    ensures
        a * b <= 0xFFFF_FFFE_0000_0001,
{
}

/// The index of a pixel inside the grid lies inside the storage.
proof fn lemma_cell_index(x: int, y: int, width: int, height: int)
    by (nonlinear_arith)
    requires
        0 <= x < width,
        0 <= y < height,
    ensures
        0 <= y * width <= y * width + x < width * height,
        y * width <= (height - 1) * width,
{
}

} // verus!
