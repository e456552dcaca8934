//! The accumulation grid: a dense `width x height` buffer of cells,
//! indexed as `cells[x][y]`. It is created once per image with every cell
//! at a fill value, written in place while the field is generated, and
//! never resized, so every write stays within the dimensions it was
//! created with.

use vstd::prelude::*;

verus! {

/// A dense two-dimensional buffer addressed as `(x, y)` with `x` below the
/// width and `y` below the height. The view is the sequence of columns.
pub struct Grid<T> {
    cells: Vec<Vec<T>>,
    height: usize,
}

impl<T> View for Grid<T> {
    type V = Seq<Seq<T>>;

    closed spec fn view(&self) -> Seq<Seq<T>> {
        self.cells@.map_values(|col: Vec<T>| col@)
    }
}

impl<T: Copy> Grid<T> {
    /// The number of columns.
    pub open spec fn spec_width(&self) -> nat {
        self@.len()
    }

    /// The number of cells in each column.
    pub closed spec fn spec_height(&self) -> nat {
        self.height as nat
    }

    /// Every column has exactly `spec_height` cells.
    pub open spec fn wf(&self) -> bool {
        forall|x: int| 0 <= x < self@.len() ==> (#[trigger] self@[x]).len() == self.spec_height()
    }

    /// A fresh grid of the given dimensions with every cell at `fill`.
    pub fn new(width: usize, height: usize, fill: T) -> (r: Grid<T>)
        ensures
            r.wf(),
            r.spec_width() == width,
            r.spec_height() == height,
            forall|x: int, y: int|
                0 <= x < width && 0 <= y < height ==> #[trigger] r@[x][y] == fill,
    {
        let mut cells: Vec<Vec<T>> = Vec::new();
        let mut x: usize = 0;
        while x < width
            invariant
                x <= width,
                cells@.len() == x,
                forall|i: int|
                    0 <= i < x ==> (#[trigger] cells@[i])@.len() == height && forall|j: int|
                        0 <= j < height ==> cells@[i]@[j] == fill,
            decreases width - x,
        {
            let mut col: Vec<T> = Vec::new();
            let mut y: usize = 0;
            while y < height
                invariant
                    y <= height,
                    col@.len() == y,
                    forall|j: int| 0 <= j < y ==> #[trigger] col@[j] == fill,
                decreases height - y,
            {
                col.push(fill);
                y = y + 1;
            }
            cells.push(col);
            x = x + 1;
        }
        Grid { cells, height }
    }

    /// The width the grid was created with.
    pub fn width(&self) -> (r: usize)
        ensures
            r == self.spec_width(),
    {
        self.cells.len()
    }

    /// The height the grid was created with.
    pub fn height(&self) -> (r: usize)
        ensures
            r == self.spec_height(),
    {
        self.height
    }

    /// The cell at `(x, y)`.
    pub fn get(&self, x: usize, y: usize) -> (r: T)
        requires
            x < self.spec_width(),
            self.wf(),
            y < self.spec_height(),
        ensures
            r == self@[x as int][y as int],
    {
        proof {
            assert(self@[x as int] == self.cells@[x as int]@);
        }
        self.cells[x][y]
    }

    /// Overwrite the cell at `(x, y)`; every other cell and the dimensions
    /// are unchanged.
    pub fn set(&mut self, x: usize, y: usize, v: T)
        requires
            x < old(self).spec_width(),
            old(self).wf(),
            y < old(self).spec_height(),
        ensures
            final(self).wf(),
            final(self).spec_width() == old(self).spec_width(),
            final(self).spec_height() == old(self).spec_height(),
            final(self)@ == old(self)@.update(
                x as int,
                old(self)@[x as int].update(y as int, v),
            ),
    {
        proof {
            assert(self@[x as int] == self.cells@[x as int]@);
        }
        self.cells[x][y] = v;
        proof {
            assert(self@ =~~= old(self)@.update(
                x as int,
                old(self)@[x as int].update(y as int, v),
            ));
        }
    }
}

} // verus!
