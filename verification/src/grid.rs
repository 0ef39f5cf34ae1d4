//! A rectangular two-dimensional container.

use vstd::prelude::*;

verus! {

/// `cells` is a table of `rows` rows, each of `cols` cells.
pub open spec fn rect<T>(cells: Seq<Seq<T>>, rows: nat, cols: nat) -> bool {
    &&& cells.len() == rows
    &&& forall|i: int| 0 <= i < rows ==> (#[trigger] cells[i]).len() == cols
}

/// A `rows x cols` table of cells, stored row by row.
pub struct Grid<T> {
    data: Vec<Vec<T>>,
}

impl<T> View for Grid<T> {
    type V = Seq<Seq<T>>;

    /// The rows of the grid, each as the sequence of its cells.
    closed spec fn view(&self) -> Seq<Seq<T>> {
        Seq::new(self.data@.len(), |i: int| self.data@[i]@)
    }
}

impl<T> Grid<T> {
    /// Number of rows.
    pub open spec fn spec_rows(&self) -> nat {
        self@.len()
    }

    /// Number of columns: the length of the first row, and 0 for a grid without rows.
    pub open spec fn spec_cols(&self) -> nat {
        if self@.len() > 0 {
            self@[0].len()
        } else {
            0
        }
    }

    /// Every row has the same length.
    pub open spec fn wf(&self) -> bool {
        rect(self@, self.spec_rows(), self.spec_cols())
    }

    /// Builds the grid whose cell at `(i, j)` is what `value_at(i, j)` returns.
    pub fn new<F: Fn(usize, usize) -> T>(size: (usize, usize), value_at: F) -> (grid: Self)
        requires
            forall|i: usize, j: usize| i < size.0 && j < size.1 ==> call_requires(value_at, (i, j)),
        ensures
            grid.wf(),
            grid@.len() == size.0,
            forall|i: int| 0 <= i < size.0 ==> (#[trigger] grid@[i]).len() == size.1,
            forall|i: usize, j: usize|
                i < size.0 && j < size.1 ==> call_ensures(
                    value_at,
                    (i, j),
                    #[trigger] grid@[i as int][j as int],
                ),
    {
        let mut data: Vec<Vec<T>> = Vec::new();
        let mut i: usize = 0;
        while i < size.0
            invariant
                i <= size.0,
                data@.len() == i,
                forall|a: usize, b: usize| a < size.0 && b < size.1 ==> call_requires(value_at, (a, b)),
                forall|a: int| 0 <= a < i ==> (#[trigger] data@[a])@.len() == size.1,
                forall|a: usize, b: usize|
                    a < i && b < size.1 ==> call_ensures(
                        value_at,
                        (a, b),
                        #[trigger] data@[a as int]@[b as int],
                    ),
            decreases size.0 - i,
        {
            let mut row: Vec<T> = Vec::new();
            let mut j: usize = 0;
            while j < size.1
                invariant
                    i < size.0,
                    j <= size.1,
                    row@.len() == j,
                    forall|a: usize, b: usize|
                        a < size.0 && b < size.1 ==> call_requires(value_at, (a, b)),
                    forall|b: usize| b < j ==> call_ensures(value_at, (i, b), #[trigger] row@[b as int]),
                decreases size.1 - j,
            {
                row.push(value_at(i, j));
                j += 1;
            }
            data.push(row);
            i += 1;
        }
        Grid { data }
    }

    /// Number of rows.
    pub fn rows(&self) -> (n: usize)
        ensures
            n == self.spec_rows(),
    {
        self.data.len()
    }

    /// Number of columns.
    pub fn cols(&self) -> (n: usize)
        ensures
            n == self.spec_cols(),
    {
        if self.data.len() > 0 {
            self.data[0].len()
        } else {
            0
        }
    }

    /// The cell at row `i`, column `j`.
    pub fn get(&self, i: usize, j: usize) -> (cell: &T)
        requires
            i < self@.len(),
            j < self@[i as int].len(),
        ensures
            *cell == self@[i as int][j as int],
    {
        &self.data[i][j]
    }

    /// Overwrites the cell at row `i`, column `j`.
    pub fn set(&mut self, i: usize, j: usize, value: T)
        requires
            i < old(self)@.len(),
            j < old(self)@[i as int].len(),
        ensures
            final(self)@ == old(self)@.update(i as int, old(self)@[i as int].update(j as int, value)),
    {
        self.data[i][j] = value;
    }
}

impl<T: Copy> Grid<T> {
    /// Builds the grid of the given size in which every cell holds `value`.
    pub fn full(size: (usize, usize), value: T) -> (grid: Self)
        ensures
            grid.wf(),
            grid@ == Seq::new(size.0 as nat, |i: int| Seq::new(size.1 as nat, |j: int| value)),
    {
        let mut data: Vec<Vec<T>> = Vec::new();
        let mut i: usize = 0;
        while i < size.0
            invariant
                i <= size.0,
                data@.len() == i,
                forall|a: int| 0 <= a < i ==> (#[trigger] data@[a])@ == Seq::new(size.1 as nat, |j: int| value),
            decreases size.0 - i,
        {
            let mut row: Vec<T> = Vec::new();
            let mut j: usize = 0;
            while j < size.1
                invariant
                    j <= size.1,
                    row@.len() == j,
                    forall|b: int| 0 <= b < j ==> row@[b] == value,
                decreases size.1 - j,
            {
                row.push(value);
                j += 1;
            }
            assert(row@ =~= Seq::new(size.1 as nat, |j: int| value));
            data.push(row);
            i += 1;
        }
        let grid = Grid { data };
        assert(grid@ =~= Seq::new(size.0 as nat, |i: int| Seq::new(size.1 as nat, |j: int| value)));
        grid
    }
}

} // verus!
