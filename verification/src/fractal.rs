//! The incremental fractal state: per point the current iterate, its constant
//! offset, the steps taken so far and whether it has escaped, together with the
//! total budget offered so far. A pass advances every point that has not escaped.

use crate::grid::{rect, Grid};
use crate::mandel::{
    batched_is_checked, batched_outcome, checked_outcome, iter_mandel_many_inplace_batched,
    lemma_batched_within_budget, lemma_checked_outcome_unique, lemma_checked_runs_compose,
    lemma_escaped_run_ignores_budget, magnitude_is_function, step_is_function, Magnitude,
};
use crate::text::{decimal, decimal_text, table_text, texts_of};
use vstd::prelude::*;

verus! {

/// The fractal state over a grid of points.
pub struct Mandelbrot<Z> {
    z: Grid<Z>,
    c: Grid<Z>,
    iters: Grid<usize>,
    total_iters: usize,
    finished: Grid<bool>,
}

/// The mathematical content of a [`Mandelbrot`].
pub struct MandelbrotView<Z> {
    /// Current iterate of each point.
    pub z: Seq<Seq<Z>>,
    /// Constant offset of each point.
    pub c: Seq<Seq<Z>>,
    /// Steps applied to each point so far.
    pub iters: Seq<Seq<usize>>,
    /// Budget offered over all passes so far.
    pub total_iters: usize,
    /// Whether each point has been seen to escape.
    pub finished: Seq<Seq<bool>>,
}

impl<Z> MandelbrotView<Z> {
    /// Number of rows.
    pub open spec fn rows(self) -> nat {
        self.iters.len()
    }

    /// Number of columns.
    pub open spec fn cols(self) -> nat {
        if self.iters.len() > 0 {
            self.iters[0].len()
        } else {
            0
        }
    }

    /// `(i, j)` is a point of the grid.
    pub open spec fn in_grid(self, i: int, j: int) -> bool {
        0 <= i < self.rows() && 0 <= j < self.cols()
    }

    /// The four grids have one shape.
    pub open spec fn same_shape(self) -> bool {
        &&& rect(self.z, self.rows(), self.cols())
        &&& rect(self.c, self.rows(), self.cols())
        &&& rect(self.iters, self.rows(), self.cols())
        &&& rect(self.finished, self.rows(), self.cols())
    }

    /// The state is consistent: the grids have one shape, no point has taken more
    /// steps than were offered, and the points that took fewer are exactly the
    /// finished ones.
    pub open spec fn wf(self) -> bool {
        &&& self.same_shape()
        &&& forall|i: int, j: int|
            self.in_grid(i, j) ==> (#[trigger] self.iters[i][j]) <= self.total_iters
        &&& forall|i: int, j: int|
            self.in_grid(i, j) ==> (#[trigger] self.finished[i][j] <==> self.iters[i][j]
                < self.total_iters)
    }

    /// Per point, whether it took fewer steps than were offered.
    pub open spec fn exploded(self) -> Seq<Seq<bool>> {
        Seq::new(
            self.rows(),
            |i: int| Seq::new(self.cols(), |j: int| self.iters[i][j] < self.total_iters),
        )
    }
}

/// The point `(i, j)` is the same in both states.
pub open spec fn point_kept<Z>(pre: MandelbrotView<Z>, post: MandelbrotView<Z>, i: int, j: int) -> bool {
    &&& post.z[i][j] == pre.z[i][j]
    &&& post.iters[i][j] == pre.iters[i][j]
    &&& post.finished[i][j] == pre.finished[i][j]
}

/// What one pass with budget `n` does to the point `(i, j)`: a finished point is
/// kept as it is; any other is advanced by a batched run, the steps taken are
/// added to its count, and it is finished if they were fewer than `n`.
pub open spec fn point_advanced<Z, M: Fn(Z) -> Magnitude, S: Fn(Z, Z) -> Z>(
    pre: MandelbrotView<Z>,
    post: MandelbrotView<Z>,
    n: nat,
    magnitude: M,
    step: S,
    i: int,
    j: int,
) -> bool {
    if pre.finished[i][j] {
        point_kept(pre, post, i, j)
    } else {
        &&& post.iters[i][j] >= pre.iters[i][j]
        &&& batched_outcome(
            magnitude,
            step,
            pre.z[i][j],
            pre.c[i][j],
            n,
            post.z[i][j],
            (post.iters[i][j] - pre.iters[i][j]) as nat,
        )
        &&& post.finished[i][j] <==> post.iters[i][j] - pre.iters[i][j] < n
    }
}

/// `post` is a result of one pass with budget `n` over `pre`.
pub open spec fn advanced<Z, M: Fn(Z) -> Magnitude, S: Fn(Z, Z) -> Z>(
    pre: MandelbrotView<Z>,
    post: MandelbrotView<Z>,
    n: nat,
    magnitude: M,
    step: S,
) -> bool {
    &&& post.total_iters == pre.total_iters + n
    &&& post.c == pre.c
    &&& post.rows() == pre.rows()
    &&& post.cols() == pre.cols()
    &&& post.same_shape()
    &&& forall|i: int, j: int|
        pre.in_grid(i, j) ==> #[trigger] point_advanced(pre, post, n, magnitude, step, i, j)
}

/// Where a pass that has come to `(i, j)` has left the point `(a, b)`: advanced
/// if it comes before `(i, j)` row by row, and else as it was.
spec fn point_swept<Z, M: Fn(Z) -> Magnitude, S: Fn(Z, Z) -> Z>(
    pre: MandelbrotView<Z>,
    cur: MandelbrotView<Z>,
    n: nat,
    magnitude: M,
    step: S,
    i: int,
    j: int,
    a: int,
    b: int,
) -> bool {
    if a < i || (a == i && b < j) {
        point_advanced(pre, cur, n, magnitude, step, a, b)
    } else {
        point_kept(pre, cur, a, b)
    }
}

/// `cur` is `pre` in the middle of a pass with budget `n` that has come to `(i, j)`.
spec fn swept_until<Z, M: Fn(Z) -> Magnitude, S: Fn(Z, Z) -> Z>(
    pre: MandelbrotView<Z>,
    cur: MandelbrotView<Z>,
    n: nat,
    magnitude: M,
    step: S,
    i: int,
    j: int,
) -> bool {
    &&& cur.total_iters == pre.total_iters
    &&& cur.c == pre.c
    &&& cur.rows() == pre.rows()
    &&& cur.cols() == pre.cols()
    &&& cur.same_shape()
    &&& forall|a: int, b: int|
        pre.in_grid(a, b) ==> #[trigger] point_swept(pre, cur, n, magnitude, step, i, j, a, b)
}

/// Advancing the point `(i, j)` alone takes the pass from `(i, j)` to `(i, j + 1)`.
proof fn lemma_sweep_moves_on<Z, M: Fn(Z) -> Magnitude, S: Fn(Z, Z) -> Z>(
    pre: MandelbrotView<Z>,
    before: MandelbrotView<Z>,
    after: MandelbrotView<Z>,
    n: nat,
    magnitude: M,
    step: S,
    i: int,
    j: int,
)
    requires
        pre.in_grid(i, j),
        swept_until(pre, before, n, magnitude, step, i, j),
        after.same_shape(),
        after.rows() == before.rows(),
        after.cols() == before.cols(),
        after.c == before.c,
        after.total_iters == before.total_iters,
        point_advanced(before, after, n, magnitude, step, i, j),
        forall|a: int, b: int|
            before.in_grid(a, b) && !(a == i && b == j) ==> #[trigger] point_kept(before, after, a, b),
    ensures
        swept_until(pre, after, n, magnitude, step, i, j + 1),
{
    assert forall|a: int, b: int| pre.in_grid(a, b) implies #[trigger] point_swept(
        pre,
        after,
        n,
        magnitude,
        step,
        i,
        j + 1,
        a,
        b,
    ) by {
        assert(point_swept(pre, before, n, magnitude, step, i, j, a, b));
        if !(a == i && b == j) {
            assert(point_kept(before, after, a, b));
        }
    }
}

/// A pass that has come to the end of row `i` stands at the start of row `i + 1`.
proof fn lemma_sweep_turns_row<Z, M: Fn(Z) -> Magnitude, S: Fn(Z, Z) -> Z>(
    pre: MandelbrotView<Z>,
    cur: MandelbrotView<Z>,
    n: nat,
    magnitude: M,
    step: S,
    i: int,
)
    requires
        swept_until(pre, cur, n, magnitude, step, i, pre.cols() as int),
    ensures
        swept_until(pre, cur, n, magnitude, step, i + 1, 0),
{
    assert forall|a: int, b: int| pre.in_grid(a, b) implies #[trigger] point_swept(
        pre,
        cur,
        n,
        magnitude,
        step,
        i + 1,
        0,
        a,
        b,
    ) by {
        assert(point_swept(pre, cur, n, magnitude, step, i, pre.cols() as int, a, b));
    }
}

/// Every point that is finished in `pre` is finished in `post`, with the same
/// iterate and the same step count.
pub open spec fn finished_points_kept<Z>(pre: MandelbrotView<Z>, post: MandelbrotView<Z>) -> bool {
    forall|i: int, j: int|
        #![trigger post.z[i][j]]
        #![trigger post.iters[i][j]]
        #![trigger post.finished[i][j]]
        pre.in_grid(i, j) && pre.finished[i][j] ==> post.z[i][j] == pre.z[i][j]
            && post.iters[i][j] == pre.iters[i][j] && post.finished[i][j]
}

/// No step count is smaller in `post` than in `pre`, and none is above the total
/// budget of `post`.
pub open spec fn counts_grown<Z>(pre: MandelbrotView<Z>, post: MandelbrotView<Z>) -> bool {
    forall|i: int, j: int|
        pre.in_grid(i, j) ==> pre.iters[i][j] <= (#[trigger] post.iters[i][j])
            && post.iters[i][j] <= post.total_iters
}

/// A pass leaves the finished points alone, lowers no step count and lets none
/// exceed the new total.
pub proof fn lemma_advanced_keeps_and_grows<Z, M: Fn(Z) -> Magnitude, S: Fn(Z, Z) -> Z>(
    pre: MandelbrotView<Z>,
    post: MandelbrotView<Z>,
    n: nat,
    magnitude: M,
    step: S,
)
    requires
        pre.wf(),
        advanced(pre, post, n, magnitude, step),
    ensures
        finished_points_kept(pre, post),
        counts_grown(pre, post),
{
    lemma_advanced_is_wf(pre, post, n, magnitude, step);
    assert forall|i: int, j: int| pre.in_grid(i, j) && pre.finished[i][j] implies post.z[i][j]
        == pre.z[i][j] && post.iters[i][j] == pre.iters[i][j] && post.finished[i][j] by {
        assert(point_advanced(pre, post, n, magnitude, step, i, j));
    }
    assert forall|i: int, j: int| pre.in_grid(i, j) implies pre.iters[i][j] <= (
    #[trigger] post.iters[i][j]) && post.iters[i][j] <= post.total_iters by {
        assert(point_advanced(pre, post, n, magnitude, step, i, j));
        assert(post.in_grid(i, j));
    }
}

/// A pass keeps the state consistent.
pub proof fn lemma_advanced_is_wf<Z, M: Fn(Z) -> Magnitude, S: Fn(Z, Z) -> Z>(
    pre: MandelbrotView<Z>,
    post: MandelbrotView<Z>,
    n: nat,
    magnitude: M,
    step: S,
)
    requires
        pre.wf(),
        advanced(pre, post, n, magnitude, step),
    ensures
        post.wf(),
{
    assert forall|i: int, j: int| post.in_grid(i, j) implies (#[trigger] post.iters[i][j])
        <= post.total_iters && (post.finished[i][j] <==> post.iters[i][j] < post.total_iters) by {
        assert(point_advanced(pre, post, n, magnitude, step, i, j));
        if !pre.finished[i][j] {
            lemma_batched_within_budget(
                magnitude,
                step,
                pre.z[i][j],
                pre.c[i][j],
                n,
                post.z[i][j],
                (post.iters[i][j] - pre.iters[i][j]) as nat,
            );
        }
    }
}

impl<Z> View for Mandelbrot<Z> {
    type V = MandelbrotView<Z>;

    closed spec fn view(&self) -> MandelbrotView<Z> {
        MandelbrotView {
            z: self.z@,
            c: self.c@,
            iters: self.iters@,
            total_iters: self.total_iters,
            finished: self.finished@,
        }
    }
}

impl<Z: Copy> Mandelbrot<Z> {
    /// The state before any pass: every iterate is `origin`, the offset of the
    /// point `(i, j)` is what `offset_at(i, j)` returns, no point has taken a step
    /// or is finished, and no budget has been offered.
    pub fn new<F: Fn(usize, usize) -> Z>(size: (usize, usize), origin: Z, offset_at: F) -> (state:
        Self)
        requires
            forall|i: usize, j: usize| i < size.0 && j < size.1 ==> call_requires(offset_at, (i, j)),
        ensures
            state@.wf(),
            state@.total_iters == 0,
            state@.z == Seq::new(size.0 as nat, |i: int| Seq::new(size.1 as nat, |j: int| origin)),
            state@.iters == Seq::new(size.0 as nat, |i: int| Seq::new(size.1 as nat, |j: int| 0usize)),
            state@.finished == Seq::new(
                size.0 as nat,
                |i: int| Seq::new(size.1 as nat, |j: int| false),
            ),
            rect(state@.c, size.0 as nat, size.1 as nat),
            forall|i: usize, j: usize|
                i < size.0 && j < size.1 ==> call_ensures(
                    offset_at,
                    (i, j),
                    #[trigger] state@.c[i as int][j as int],
                ),
    {
        Mandelbrot {
            z: Grid::full(size, origin),
            c: Grid::new(size, offset_at),
            iters: Grid::full(size, 0),
            total_iters: 0,
            finished: Grid::full(size, false),
        }
    }

    /// Advances the point `(i, j)` by up to `n` steps unless it is finished, and
    /// leaves every other point as it is.
    fn advance_point<M: Fn(Z) -> Magnitude, S: Fn(Z, Z) -> Z>(
        &mut self,
        i: usize,
        j: usize,
        n: usize,
        magnitude: &M,
        step: &S,
    )
        requires
            old(self)@.same_shape(),
            old(self)@.in_grid(i as int, j as int),
            old(self)@.iters[i as int][j as int] + n <= usize::MAX,
            forall|a: Z| call_requires(*magnitude, (a,)),
            forall|a: Z, b: Z| call_requires(*step, (a, b)),
        ensures
            final(self)@.same_shape(),
            final(self)@.rows() == old(self)@.rows(),
            final(self)@.cols() == old(self)@.cols(),
            final(self)@.c == old(self)@.c,
            final(self)@.total_iters == old(self)@.total_iters,
            point_advanced(old(self)@, final(self)@, n as nat, *magnitude, *step, i as int, j as int),
            forall|a: int, b: int|
                old(self)@.in_grid(a, b) && !(a == i && b == j) ==> #[trigger] point_kept(
                    old(self)@,
                    final(self)@,
                    a,
                    b,
                ),
    {
        if !*self.finished.get(i, j) {
            let mut z: Z = *self.z.get(i, j);
            let c: Z = *self.c.get(i, j);
            let new_iters = iter_mandel_many_inplace_batched(&mut z, &c, n, magnitude, step);
            self.z.set(i, j, z);
            let count: usize = *self.iters.get(i, j);
            self.iters.set(i, j, count + new_iters);
            if new_iters < n {
                self.finished.set(i, j, true);
            }
        }
    }

    /// One pass: every point that is not finished is advanced by up to `n` steps
    /// with the batched evaluator; the steps it took are added to its count, and it
    /// is finished if they were fewer than `n`. Finished points are left as they
    /// are. The total budget grows by `n` whatever the points did.
    pub fn iter_inplace<M: Fn(Z) -> Magnitude, S: Fn(Z, Z) -> Z>(
        &mut self,
        n: usize,
        magnitude: &M,
        step: &S,
    )
        requires
            old(self)@.wf(),
            old(self)@.total_iters + n <= usize::MAX,
            forall|a: Z| call_requires(*magnitude, (a,)),
            forall|a: Z, b: Z| call_requires(*step, (a, b)),
        ensures
            final(self)@.wf(),
            advanced(old(self)@, final(self)@, n as nat, *magnitude, *step),
            finished_points_kept(old(self)@, final(self)@),
            counts_grown(old(self)@, final(self)@),
    {
        let rows = self.iters.rows();
        let cols = self.iters.cols();
        let mut i: usize = 0;
        while i < rows
            invariant
                i <= rows,
                rows == old(self)@.rows(),
                cols == old(self)@.cols(),
                old(self)@.wf(),
                old(self)@.total_iters + n <= usize::MAX,
                forall|a: Z| call_requires(*magnitude, (a,)),
                forall|a: Z, b: Z| call_requires(*step, (a, b)),
                swept_until(old(self)@, self@, n as nat, *magnitude, *step, i as int, 0),
            decreases rows - i,
        {
            let mut j: usize = 0;
            while j < cols
                invariant
                    i < rows,
                    j <= cols,
                    rows == old(self)@.rows(),
                    cols == old(self)@.cols(),
                    old(self)@.wf(),
                    old(self)@.total_iters + n <= usize::MAX,
                    forall|a: Z| call_requires(*magnitude, (a,)),
                    forall|a: Z, b: Z| call_requires(*step, (a, b)),
                    swept_until(old(self)@, self@, n as nat, *magnitude, *step, i as int, j as int),
                decreases cols - j,
            {
                let ghost before = self@;
                assert(point_swept(
                    old(self)@,
                    before,
                    n as nat,
                    *magnitude,
                    *step,
                    i as int,
                    j as int,
                    i as int,
                    j as int,
                ));
                self.advance_point(i, j, n, magnitude, step);
                proof {
                    lemma_sweep_moves_on(
                        old(self)@,
                        before,
                        self@,
                        n as nat,
                        *magnitude,
                        *step,
                        i as int,
                        j as int,
                    );
                }
                j += 1;
            }
            proof {
                lemma_sweep_turns_row(old(self)@, self@, n as nat, *magnitude, *step, i as int);
            }
            i += 1;
        }
        let ghost swept = self@;
        self.total_iters += n;
        proof {
            assert forall|a: int, b: int| old(self)@.in_grid(a, b) implies #[trigger] point_advanced(
                old(self)@,
                self@,
                n as nat,
                *magnitude,
                *step,
                a,
                b,
            ) by {
                assert(point_swept(
                    old(self)@,
                    swept,
                    n as nat,
                    *magnitude,
                    *step,
                    rows as int,
                    0,
                    a,
                    b,
                ));
            }
            lemma_advanced_is_wf(old(self)@, self@, n as nat, *magnitude, *step);
            lemma_advanced_keeps_and_grows(old(self)@, self@, n as nat, *magnitude, *step);
        }
    }

    /// One pass with any budget: the pass of [`Mandelbrot::iter_inplace`] where the
    /// total budget stays within `usize`, and no change at all where it would not.
    /// Returns whether the pass was made. Either way the finished points are left
    /// alone and no step count falls or exceeds the total.
    pub fn try_iter_inplace<M: Fn(Z) -> Magnitude, S: Fn(Z, Z) -> Z>(
        &mut self,
        n: usize,
        magnitude: &M,
        step: &S,
    ) -> (done: bool)
        requires
            old(self)@.wf(),
            forall|a: Z| call_requires(*magnitude, (a,)),
            forall|a: Z, b: Z| call_requires(*step, (a, b)),
        ensures
            done <==> old(self)@.total_iters + n <= usize::MAX,
            done ==> advanced(old(self)@, final(self)@, n as nat, *magnitude, *step),
            !done ==> final(self)@ == old(self)@,
            final(self)@.wf(),
            finished_points_kept(old(self)@, final(self)@),
            counts_grown(old(self)@, final(self)@),
    {
        if n <= usize::MAX - self.total_iters {
            self.iter_inplace(n, magnitude, step);
            true
        } else {
            false
        }
    }

    /// The step counts of the points.
    pub fn iters(&self) -> (grid: &Grid<usize>)
        ensures
            grid@ == self@.iters,
    {
        &self.iters
    }

    /// The total budget offered so far.
    pub fn total_iters(&self) -> (total: usize)
        ensures
            total == self@.total_iters,
    {
        self.total_iters
    }

    /// The current iterates of the points.
    pub fn z(&self) -> (grid: &Grid<Z>)
        ensures
            grid@ == self@.z,
    {
        &self.z
    }

    /// The constant offsets of the points.
    pub fn c(&self) -> (grid: &Grid<Z>)
        ensures
            grid@ == self@.c,
    {
        &self.c
    }

    /// The finished flags of the points.
    pub fn finished(&self) -> (grid: &Grid<bool>)
        ensures
            grid@ == self@.finished,
    {
        &self.finished
    }

    /// Per point, whether it took fewer steps than were offered so far. On a
    /// consistent state these are exactly the finished points.
    pub fn exploded(&self) -> (grid: Grid<bool>)
        requires
            self@.wf(),
        ensures
            grid.wf(),
            grid@ == self@.exploded(),
            grid@ == self@.finished,
    {
        let rows = self.iters.rows();
        let cols = self.iters.cols();
        let mut grid: Grid<bool> = Grid::full((rows, cols), false);
        let mut i: usize = 0;
        while i < rows
            invariant
                i <= rows,
                rows == self@.rows(),
                cols == self@.cols(),
                self@.wf(),
                rect(grid@, rows as nat, cols as nat),
                forall|a: int, b: int|
                    0 <= a < i && 0 <= b < cols ==> (#[trigger] grid@[a][b]) == (self@.iters[a][b]
                        < self@.total_iters),
            decreases rows - i,
        {
            let mut j: usize = 0;
            while j < cols
                invariant
                    i < rows,
                    j <= cols,
                    rows == self@.rows(),
                    cols == self@.cols(),
                    self@.wf(),
                    rect(grid@, rows as nat, cols as nat),
                    forall|a: int, b: int|
                        0 <= a < i && 0 <= b < cols ==> (#[trigger] grid@[a][b]) == (
                        self@.iters[a][b] < self@.total_iters),
                    forall|b: int|
                        0 <= b < j ==> (#[trigger] grid@[i as int][b]) == (self@.iters[i as int][b]
                            < self@.total_iters),
                decreases cols - j,
            {
                let count: usize = *self.iters.get(i, j);
                grid.set(i, j, count < self.total_iters);
                j += 1;
            }
            i += 1;
        }
        proof {
            lemma_exploded_is_finished(self@);
            assert(grid@ =~~= self@.exploded());
        }
        grid
    }
}

impl<Z> MandelbrotView<Z> {
    /// What the state shows of each point: the decimal numeral of its step count
    /// if it took fewer steps than were offered, and an empty text otherwise.
    pub open spec fn count_texts(self) -> Seq<Seq<Seq<char>>> {
        Seq::new(
            self.rows(),
            |i: int|
                Seq::new(
                    self.cols(),
                    |j: int|
                        if self.iters[i][j] < self.total_iters {
                            decimal(self.iters[i][j] as nat)
                        } else {
                            Seq::empty()
                        },
                ),
        )
    }
}

impl<Z: Copy> Mandelbrot<Z> {
    /// The step counts of the points that took fewer steps than were offered, as
    /// decimal numerals; the other points get an empty text.
    pub fn labels(&self) -> (labels: Grid<String>)
        requires
            self@.wf(),
        ensures
            labels.wf(),
            labels.spec_rows() == self@.rows(),
            labels.spec_cols() == self@.cols(),
            texts_of(labels@) == self@.count_texts(),
    {
        let rows = self.iters.rows();
        let cols = self.iters.cols();
        let exploded = self.exploded();
        let mut labels: Grid<String> = Grid::new(
            (rows, cols),
            |i: usize, j: usize| -> (s: String) { String::new() },
        );
        let mut i: usize = 0;
        while i < rows
            invariant
                i <= rows,
                rows == self@.rows(),
                cols == self@.cols(),
                self@.wf(),
                exploded@ == self@.exploded(),
                rect(labels@, rows as nat, cols as nat),
                forall|a: int, b: int|
                    0 <= a < i && 0 <= b < cols ==> (#[trigger] labels@[a][b])@
                        == self@.count_texts()[a][b],
            decreases rows - i,
        {
            let mut j: usize = 0;
            while j < cols
                invariant
                    i < rows,
                    j <= cols,
                    rows == self@.rows(),
                    cols == self@.cols(),
                    self@.wf(),
                    exploded@ == self@.exploded(),
                    rect(labels@, rows as nat, cols as nat),
                    forall|a: int, b: int|
                        (0 <= a < i && 0 <= b < cols) || (a == i && 0 <= b < j) ==> (
                        #[trigger] labels@[a][b])@ == self@.count_texts()[a][b],
                decreases cols - j,
            {
                let label = if *exploded.get(i, j) {
                    decimal_text(*self.iters.get(i, j))
                } else {
                    String::new()
                };
                labels.set(i, j, label);
                j += 1;
            }
            i += 1;
        }
        proof {
            assert(texts_of(labels@) =~~= self@.count_texts());
        }
        labels
    }

    /// The state as a text table of the step counts of the points that took fewer
    /// steps than were offered, with a line break at the end.
    pub fn render(&self) -> (text: String)
        requires
            self@.wf(),
            self@.rows() >= 1,
            self@.cols() >= 1,
        ensures
            text@ == table_text(self@.count_texts()) + "\n"@,
    {
        let labels = self.labels();
        let mut text = labels.layout();
        text.push_str("\n");
        text
    }
}

/// On a consistent state, the points that took fewer steps than were offered are
/// exactly the finished ones.
pub proof fn lemma_exploded_is_finished<Z>(state: MandelbrotView<Z>)
    requires
        state.wf(),
    ensures
        state.exploded() == state.finished,
{
    assert forall|i: int| 0 <= i < state.rows() implies #[trigger] state.exploded()[i]
        =~= state.finished[i] by {
        assert forall|j: int| 0 <= j < state.cols() implies state.exploded()[i][j]
            == state.finished[i][j] by {
            assert(state.in_grid(i, j));
            assert(state.finished[i][j] <==> state.iters[i][j] < state.total_iters);
        }
    }
    assert(state.exploded() =~= state.finished);
}

/// `history` is a sequence of states in which the first is consistent and each
/// later one is a result of a pass over the one before, with the budgets `budgets`.
pub open spec fn is_history<Z, M: Fn(Z) -> Magnitude, S: Fn(Z, Z) -> Z>(
    history: Seq<MandelbrotView<Z>>,
    budgets: Seq<nat>,
    magnitude: M,
    step: S,
) -> bool {
    &&& history.len() == budgets.len() + 1
    &&& history[0].wf()
    &&& forall|k: int|
        0 <= k < budgets.len() ==> advanced(
            #[trigger] history[k],
            history[k + 1],
            budgets[k],
            magnitude,
            step,
        )
}

/// Every state of a history is consistent and has the shape of the first.
pub proof fn lemma_history_is_wf<Z, M: Fn(Z) -> Magnitude, S: Fn(Z, Z) -> Z>(
    history: Seq<MandelbrotView<Z>>,
    budgets: Seq<nat>,
    magnitude: M,
    step: S,
    k: int,
)
    requires
        is_history(history, budgets, magnitude, step),
        0 <= k < history.len(),
    ensures
        history[k].wf(),
        history[k].rows() == history[0].rows(),
        history[k].cols() == history[0].cols(),
    decreases k,
{
    if k > 0 {
        lemma_history_is_wf(history, budgets, magnitude, step, k - 1);
        assert(advanced(history[k - 1], history[k - 1 + 1], budgets[k - 1], magnitude, step));
        lemma_advanced_is_wf(history[k - 1], history[k], budgets[k - 1], magnitude, step);
    }
}

/// Over any sequence of passes, the step count of a point never decreases and
/// never exceeds the total budget offered.
pub proof fn lemma_counts_grow_within_budget<Z, M: Fn(Z) -> Magnitude, S: Fn(Z, Z) -> Z>(
    history: Seq<MandelbrotView<Z>>,
    budgets: Seq<nat>,
    magnitude: M,
    step: S,
    earlier: int,
    later: int,
    i: int,
    j: int,
)
    requires
        is_history(history, budgets, magnitude, step),
        0 <= earlier <= later < history.len(),
        history[0].in_grid(i, j),
    ensures
        history[earlier].iters[i][j] <= history[later].iters[i][j],
        history[later].iters[i][j] <= history[later].total_iters,
    decreases later - earlier,
{
    lemma_history_is_wf(history, budgets, magnitude, step, later);
    assert(history[later].in_grid(i, j));
    if earlier < later {
        lemma_counts_grow_within_budget(history, budgets, magnitude, step, earlier, later - 1, i, j);
        lemma_history_is_wf(history, budgets, magnitude, step, later - 1);
        assert(advanced(history[later - 1], history[later - 1 + 1], budgets[later - 1], magnitude, step));
        assert(point_advanced(
            history[later - 1],
            history[later],
            budgets[later - 1],
            magnitude,
            step,
            i,
            j,
        ));
    }
}

/// Over any sequence of passes, a point that is finished stays finished, and its
/// iterate and its step count never change again.
pub proof fn lemma_finished_points_are_frozen<Z, M: Fn(Z) -> Magnitude, S: Fn(Z, Z) -> Z>(
    history: Seq<MandelbrotView<Z>>,
    budgets: Seq<nat>,
    magnitude: M,
    step: S,
    earlier: int,
    later: int,
    i: int,
    j: int,
)
    requires
        is_history(history, budgets, magnitude, step),
        0 <= earlier <= later < history.len(),
        history[0].in_grid(i, j),
        history[earlier].finished[i][j],
    ensures
        history[later].finished[i][j],
        history[later].z[i][j] == history[earlier].z[i][j],
        history[later].iters[i][j] == history[earlier].iters[i][j],
    decreases later - earlier,
{
    if earlier < later {
        lemma_finished_points_are_frozen(history, budgets, magnitude, step, earlier, later - 1, i, j);
        lemma_history_is_wf(history, budgets, magnitude, step, later - 1);
        assert(history[later - 1].in_grid(i, j));
        assert(advanced(history[later - 1], history[later - 1 + 1], budgets[later - 1], magnitude, step));
        assert(point_advanced(
            history[later - 1],
            history[later],
            budgets[later - 1],
            magnitude,
            step,
            i,
            j,
        ));
    }
}

/// After any sequence of passes, the points that took fewer steps than were
/// offered are exactly the finished ones.
pub proof fn lemma_history_exploded_is_finished<Z, M: Fn(Z) -> Magnitude, S: Fn(Z, Z) -> Z>(
    history: Seq<MandelbrotView<Z>>,
    budgets: Seq<nat>,
    magnitude: M,
    step: S,
    k: int,
)
    requires
        is_history(history, budgets, magnitude, step),
        0 <= k < history.len(),
    ensures
        history[k].exploded() == history[k].finished,
{
    lemma_history_is_wf(history, budgets, magnitude, step, k);
    lemma_exploded_is_finished(history[k]);
}

/// On the point `(i, j)`, the batched evaluator comes to what the checked one
/// comes to in each run that a pass of `first` over `pre`, a pass of `second` over
/// `mid` and a pass of `first + second` over `pre` make there.
pub open spec fn batching_is_exact_at<Z, M: Fn(Z) -> Magnitude, S: Fn(Z, Z) -> Z>(
    pre: MandelbrotView<Z>,
    mid: MandelbrotView<Z>,
    first: nat,
    second: nat,
    magnitude: M,
    step: S,
    i: int,
    j: int,
) -> bool {
    &&& batched_is_checked(magnitude, step, pre.z[i][j], pre.c[i][j], first)
    &&& batched_is_checked(magnitude, step, pre.z[i][j], pre.c[i][j], first + second)
    &&& !mid.finished[i][j] ==> batched_is_checked(magnitude, step, mid.z[i][j], pre.c[i][j], second)
}

/// Two passes make one: with a step and a magnitude that are functions, and
/// where the batched evaluator comes to what the checked one comes to on every
/// point that is advanced, a pass of `first` followed by a pass of `second` leaves
/// the state that one pass of `first + second` leaves.
pub proof fn lemma_two_passes_make_one<Z, M: Fn(Z) -> Magnitude, S: Fn(Z, Z) -> Z>(
    pre: MandelbrotView<Z>,
    mid: MandelbrotView<Z>,
    post: MandelbrotView<Z>,
    whole: MandelbrotView<Z>,
    first: nat,
    second: nat,
    magnitude: M,
    step: S,
)
    requires
        step_is_function(step),
        magnitude_is_function(magnitude),
        pre.wf(),
        advanced(pre, mid, first, magnitude, step),
        advanced(mid, post, second, magnitude, step),
        advanced(pre, whole, first + second, magnitude, step),
        forall|i: int, j: int|
            pre.in_grid(i, j) && !pre.finished[i][j] ==> #[trigger] batching_is_exact_at(
                pre,
                mid,
                first,
                second,
                magnitude,
                step,
                i,
                j,
            ),
    ensures
        whole == post,
{
    assert forall|i: int, j: int| pre.in_grid(i, j) implies #[trigger] point_kept(
        post,
        whole,
        i,
        j,
    ) by {
        assert(point_advanced(pre, mid, first, magnitude, step, i, j));
        assert(mid.in_grid(i, j));
        assert(point_advanced(mid, post, second, magnitude, step, i, j));
        assert(point_advanced(pre, whole, first + second, magnitude, step, i, j));
        if !pre.finished[i][j] {
            assert(batching_is_exact_at(pre, mid, first, second, magnitude, step, i, j));
            let start = pre.z[i][j];
            let c = pre.c[i][j];
            let first_steps = (mid.iters[i][j] - pre.iters[i][j]) as nat;
            let whole_steps = (whole.iters[i][j] - pre.iters[i][j]) as nat;
            lemma_batched_within_budget(magnitude, step, start, c, first, mid.z[i][j], first_steps);
            assert(checked_outcome(magnitude, step, start, c, first, mid.z[i][j], first_steps));
            assert(checked_outcome(
                magnitude,
                step,
                start,
                c,
                first + second,
                whole.z[i][j],
                whole_steps,
            ));
            if mid.finished[i][j] {
                lemma_escaped_run_ignores_budget(
                    magnitude,
                    step,
                    start,
                    c,
                    first,
                    first + second,
                    mid.z[i][j],
                    first_steps,
                );
                lemma_checked_outcome_unique(
                    magnitude,
                    step,
                    start,
                    c,
                    first + second,
                    mid.z[i][j],
                    first_steps,
                    whole.z[i][j],
                    whole_steps,
                );
            } else {
                let second_steps = (post.iters[i][j] - mid.iters[i][j]) as nat;
                assert(checked_outcome(
                    magnitude,
                    step,
                    mid.z[i][j],
                    c,
                    second,
                    post.z[i][j],
                    second_steps,
                ));
                lemma_checked_runs_compose(
                    magnitude,
                    step,
                    start,
                    c,
                    first,
                    second,
                    mid.z[i][j],
                    first_steps,
                    post.z[i][j],
                    second_steps,
                );
                lemma_checked_outcome_unique(
                    magnitude,
                    step,
                    start,
                    c,
                    first + second,
                    post.z[i][j],
                    first_steps + second_steps,
                    whole.z[i][j],
                    whole_steps,
                );
            }
        }
    }
    assert(post.rows() == pre.rows() && post.cols() == pre.cols());
    assert(whole.rows() == pre.rows() && whole.cols() == pre.cols());
    assert forall|i: int| 0 <= i < pre.rows() implies #[trigger] whole.z[i] =~= post.z[i] by {
        assert(whole.z[i].len() == pre.cols() && post.z[i].len() == pre.cols());
        assert forall|j: int| 0 <= j < pre.cols() implies whole.z[i][j] == post.z[i][j] by {
            assert(point_kept(post, whole, i, j));
        }
    }
    assert forall|i: int| 0 <= i < pre.rows() implies #[trigger] whole.iters[i]
        =~= post.iters[i] by {
        assert(whole.iters[i].len() == pre.cols() && post.iters[i].len() == pre.cols());
        assert forall|j: int| 0 <= j < pre.cols() implies whole.iters[i][j]
            == post.iters[i][j] by {
            assert(point_kept(post, whole, i, j));
        }
    }
    assert forall|i: int| 0 <= i < pre.rows() implies #[trigger] whole.finished[i]
        =~= post.finished[i] by {
        assert(whole.finished[i].len() == pre.cols() && post.finished[i].len() == pre.cols());
        assert forall|j: int| 0 <= j < pre.cols() implies whole.finished[i][j]
            == post.finished[i][j] by {
            assert(point_kept(post, whole, i, j));
        }
    }
    assert(whole.z =~= post.z);
    assert(whole.iters =~= post.iters);
    assert(whole.finished =~= post.finished);
}

} // verus!
