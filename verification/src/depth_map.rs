//! The depth buffer that polygons are drawn through.
use vstd::prelude::*;

verus! {

/// A grid of depths, one for every pixel of a frame. It is kept in a
/// dynamically sized matrix of `nalgebra` whose row index is the pixel's
/// `x` and whose column index is its `y`.
///
/// The matrix is hidden from the verifier. All that is known of a map are
/// its extent and its cells, as the functions below report them.
#[verifier::external_body]
pub struct DepthMap {
    grid: nalgebra::DMatrix<i32>,
}

/// The depth that a map holds for the pixel in column `x` of row `y`, by
/// `(x, y)`.
pub uninterp spec fn depth_cells(m: DepthMap) -> Map<(int, int), i32>;

/// The number of columns and the number of rows that a map was made with.
pub uninterp spec fn depth_extent(m: DepthMap) -> (nat, nat);

impl DepthMap {
    /// The number of pixel columns.
    pub open spec fn spec_width(&self) -> nat {
        depth_extent(*self).0
    }

    /// The number of pixel rows.
    pub open spec fn spec_height(&self) -> nat {
        depth_extent(*self).1
    }

    /// Whether the map has a cell for the pixel in column `x` of row `y`.
    pub open spec fn holds(&self, x: int, y: int) -> bool {
        0 <= x < self.spec_width() && 0 <= y < self.spec_height()
    }

    /// The depth held for the pixel in column `x` of row `y`.
    pub open spec fn cell(&self, x: int, y: int) -> i32 {
        depth_cells(*self)[(x, y)]
    }

    /// The depth held for a pixel, if the map has a cell for it.
    pub open spec fn lookup(&self, x: int, y: int) -> Option<i32> {
        if self.holds(x, y) {
            Some(self.cell(x, y))
        } else {
            None
        }
    }

    /// Calls `DMatrix::from_element`. Trusted: the matrix has `width` rows
    /// and `height` columns, and every element is `depth`. The product of
    /// the two must not overflow and the elements must fit in an
    /// allocation, or the call panics.
    #[verifier::external_body]
    fn grid_new(width: usize, height: usize, depth: i32) -> (m: DepthMap)
        requires
            width * height * 4 <= isize::MAX,
        ensures
            m.spec_width() == width,
            m.spec_height() == height,
            forall|x: int, y: int|
                0 <= x < width && 0 <= y < height ==> #[trigger] m.cell(x, y) == depth,
    {
        DepthMap { grid: nalgebra::DMatrix::from_element(width, height, depth) }
    }

    /// Calls `Matrix::nrows`. Trusted: it is the number of rows that the
    /// matrix was made with.
    #[verifier::external_body]
    fn grid_rows(&self) -> (n: usize)
        ensures
            n == self.spec_width(),
    {
        self.grid.nrows()
    }

    /// Calls `Matrix::ncols`. Trusted: it is the number of columns that the
    /// matrix was made with.
    #[verifier::external_body]
    fn grid_cols(&self) -> (n: usize)
        ensures
            n == self.spec_height(),
    {
        self.grid.ncols()
    }

    /// Calls `Matrix::get` with a pair of indices. Trusted: it yields the
    /// element in that row and column where both indices lie below the
    /// matrix's extent, and nothing otherwise.
    #[verifier::external_body]
    fn grid_get(&self, x: usize, y: usize) -> (depth: Option<i32>)
        ensures
            depth == self.lookup(x as int, y as int),
    {
        self.grid.get((x, y)).copied()
    }

    /// Assigns through `IndexMut` with a pair of indices. Trusted: it
    /// replaces the element in that row and column and no other, and keeps
    /// the extent. Outside the extent the call panics.
    #[verifier::external_body]
    fn grid_set(&mut self, x: usize, y: usize, depth: i32)
        requires
            old(self).holds(x as int, y as int),
        ensures
            depth_cells(*final(self)) == depth_cells(*old(self)).insert((x as int, y as int), depth),
            depth_extent(*final(self)) == depth_extent(*old(self)),
    {
        self.grid[(x, y)] = depth;
    }

    /// A map of `width` columns and `height` rows that holds `depth` for
    /// every pixel.
    pub fn new(width: usize, height: usize, depth: i32) -> (m: DepthMap)
        requires
            width * height * 4 <= isize::MAX,
        ensures
            m.spec_width() == width,
            m.spec_height() == height,
            forall|x: int, y: int| m.holds(x, y) ==> #[trigger] m.cell(x, y) == depth,
    {
        DepthMap::grid_new(width, height, depth)
    }

    /// The number of pixel columns.
    pub fn width(&self) -> (n: usize)
        ensures
            n == self.spec_width(),
    {
        self.grid_rows()
    }

    /// The number of pixel rows.
    pub fn height(&self) -> (n: usize)
        ensures
            n == self.spec_height(),
    {
        self.grid_cols()
    }

    /// The depth held for the pixel in column `x` of row `y`. A pixel off
    /// the map, to whichever side, has none.
    pub fn get(&self, x: i32, y: i32) -> (depth: Option<i32>)
        ensures
            depth == self.lookup(x as int, y as int),
    {
        if x < 0 || y < 0 {
            None
        } else {
            self.grid_get(x as usize, y as usize)
        }
    }

    /// Replaces the depth held for the pixel in column `x` of row `y`, a
    /// pixel that the map has a cell for.
    pub fn set(&mut self, x: i32, y: i32, depth: i32)
        requires
            old(self).holds(x as int, y as int),
        ensures
            final(self).spec_width() == old(self).spec_width(),
            final(self).spec_height() == old(self).spec_height(),
            final(self).cell(x as int, y as int) == depth,
            forall|a: int, b: int|
                (a, b) != (x as int, y as int) ==> #[trigger] final(self).cell(a, b) == old(self).cell(a, b),
    {
        self.grid_set(x as usize, y as usize, depth);
    }
}

} // verus!
