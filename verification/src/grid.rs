//! A rectangular two-dimensional array.
//!
//! Cells are addressed by a column `x` and a row `y` and stored flat in
//! column-major order, so walking the backing vector visits whole columns
//! left to right.  All accesses are bounds-checked by contract.

use vstd::prelude::*;

verus! {

/// A fixed-size rectangular array of `T`, addressed as `(x, y)`.
pub struct Grid<T> {
    pub cells: Vec<T>,
    pub rows: usize,
    pub cols: usize,
}

/// Distinct in-bounds positions land on distinct flat indices.
pub proof fn lemma_flat_index_injective(rows: int, x1: int, y1: int, x2: int, y2: int)
    requires
        0 <= y1 < rows,
        0 <= y2 < rows,
        0 <= x1,
        0 <= x2,
        x1 * rows + y1 == x2 * rows + y2,
    ensures
        x1 == x2 && y1 == y2,
{
    assert(x1 == x2 && y1 == y2) by (nonlinear_arith)
        requires
            0 <= y1 < rows,
            0 <= y2 < rows,
            0 <= x1,
            0 <= x2,
            x1 * rows + y1 == x2 * rows + y2,
    ;
}

/// An in-bounds position's flat index lies inside the backing vector.
pub proof fn lemma_flat_index_in_range(rows: int, cols: int, x: int, y: int)
    requires
        0 <= x < cols,
        0 <= y < rows,
    ensures
        0 <= x * rows + y < rows * cols,
{
    assert(0 <= x * rows + y < rows * cols) by (nonlinear_arith)
        requires
            0 <= x < cols,
            0 <= y < rows,
    ;
}

impl<T> Grid<T> {
    /// The backing vector holds exactly one cell per position.
    pub open spec fn wf(self) -> bool {
        self.cells.len() == self.rows * self.cols
    }

    /// Whether `(x, y)` addresses a cell.
    pub open spec fn in_bounds(self, x: int, y: int) -> bool {
        0 <= x < self.cols && 0 <= y < self.rows
    }

    /// The flat column-major index of `(x, y)`.
    pub open spec fn flat_index(self, x: int, y: int) -> int {
        x * self.rows + y
    }

    /// The cell at `(x, y)`.
    pub open spec fn at(self, x: int, y: int) -> T {
        self.cells[self.flat_index(x, y)]
    }

    /// Two grids of one shape whose cells agree are equal.
    pub proof fn lemma_cellwise_equal(self, other: Grid<T>)
        requires
            self.wf(),
            other.wf(),
            self.rows == other.rows,
            self.cols == other.cols,
            forall|x: int, y: int|
                self.in_bounds(x, y) ==> self.at(x, y) == #[trigger] other.at(x, y),
        ensures
            self.cells@ =~= other.cells@,
    {
        assert forall|i: int| 0 <= i < self.cells.len() implies self.cells[i]
            == other.cells[i] by {
            let x = i / self.rows as int;
            let y = i % self.rows as int;
            assert(0 <= x < self.cols && 0 <= y < self.rows && i == x * self.rows + y)
                by (nonlinear_arith)
                requires
                    0 <= i < self.rows * self.cols,
                    x == i / self.rows as int,
                    y == i % self.rows as int,
                    self.rows > 0,
            ;
            assert(self.at(x, y) == other.at(x, y));
        }
    }
}

impl<T: Copy> Grid<T> {
    /// Builds a `rows` by `cols` grid with every cell set to `fill`.
    pub fn new(rows: usize, cols: usize, fill: T) -> (g: Grid<T>)
        requires
            rows * cols <= usize::MAX,
        ensures
            g.wf(),
            g.rows == rows,
            g.cols == cols,
            forall|x: int, y: int| g.in_bounds(x, y) ==> #[trigger] g.at(x, y) == fill,
            forall|i: int| 0 <= i < g.cells@.len() ==> g.cells@[i] == fill,
    {
        proof {
            assert(rows * cols >= 0) by (nonlinear_arith);
        }
        let n: usize = rows * cols;
        let mut cells: Vec<T> = Vec::new();
        let mut i: usize = 0;
        while i < n
            invariant
                i <= n,
                cells.len() == i,
                forall|j: int| 0 <= j < i ==> cells[j] == fill,
            decreases n - i,
        {
            cells.push(fill);
            i = i + 1;
        }
        let g = Grid { cells, rows, cols };
        proof {
            assert forall|x: int, y: int| g.in_bounds(x, y) implies #[trigger] g.at(x, y)
                == fill by {
                lemma_flat_index_in_range(rows as int, cols as int, x, y);
            }
        }
        g
    }

    /// Reads the cell at `(x, y)`.
    pub fn get(&self, x: usize, y: usize) -> (v: T)
        requires
            self.wf(),
            self.in_bounds(x as int, y as int),
        ensures
            v == self.at(x as int, y as int),
    {
        proof {
            lemma_flat_index_in_range(self.rows as int, self.cols as int, x as int, y as int);
        }
        self.cells[x * self.rows + y]
    }

    /// Writes `v` to the cell at `(x, y)`; every other cell keeps its value.
    pub fn put(&mut self, x: usize, y: usize, v: T)
        requires
            old(self).wf(),
            old(self).in_bounds(x as int, y as int),
        ensures
            final(self).wf(),
            final(self).rows == old(self).rows,
            final(self).cols == old(self).cols,
            final(self).at(x as int, y as int) == v,
            forall|x2: int, y2: int|
                old(self).in_bounds(x2, y2) && !(x2 == x as int && y2 == y as int)
                    ==> #[trigger] final(self).at(x2, y2) == old(self).at(x2, y2),
            final(self).cells@ == old(self).cells@.update(
                old(self).flat_index(x as int, y as int),
                v,
            ),
    {
        proof {
            lemma_flat_index_in_range(self.rows as int, self.cols as int, x as int, y as int);
        }
        let i: usize = x * self.rows + y;
        self.cells.set(i, v);
        proof {
            assert forall|x2: int, y2: int|
                old(self).in_bounds(x2, y2) && !(x2 == x as int && y2 == y as int)
                    implies #[trigger] self.at(x2, y2) == old(self).at(x2, y2) by {
                lemma_flat_index_in_range(self.rows as int, self.cols as int, x2, y2);
                if x2 * self.rows as int + y2 == x as int * self.rows as int + y as int {
                    lemma_flat_index_injective(self.rows as int, x2, y2, x as int, y as int);
                }
            }
        }
    }

    /// Overwrites every cell with `v`.
    pub fn fill(&mut self, v: T)
        requires
            old(self).wf(),
        ensures
            final(self).wf(),
            final(self).rows == old(self).rows,
            final(self).cols == old(self).cols,
            forall|x: int, y: int|
                final(self).in_bounds(x, y) ==> #[trigger] final(self).at(x, y) == v,
            forall|i: int| 0 <= i < final(self).cells@.len() ==> final(self).cells@[i] == v,
            final(self).cells@.len() == old(self).cells@.len(),
    {
        let n: usize = self.cells.len();
        let mut i: usize = 0;
        while i < n
            invariant
                i <= n,
                self.cells.len() == n,
                self.rows == old(self).rows,
                self.cols == old(self).cols,
                forall|j: int| 0 <= j < i ==> self.cells[j] == v,
            decreases n - i,
        {
            self.cells.set(i, v);
            i = i + 1;
        }
        proof {
            assert forall|x: int, y: int| self.in_bounds(x, y) implies #[trigger] self.at(x, y)
                == v by {
                lemma_flat_index_in_range(self.rows as int, self.cols as int, x, y);
            }
        }
    }
}

} // verus!
