//! The propagation scheduler: a board of tri-state cells, the row and column
//! hints, and a FIFO queue of lines whose cells changed since they were last
//! solved.
use vstd::prelude::*;
use std::collections::VecDeque;
use crate::deduce::{covered, line_solver, overlap_fill, overlap_result, positive, same_hint, solve_line, Infeasible};
use crate::line::{
    agrees, completes, compress, filled_of, hint_view, infeasible, keeps, runs, runs_with, sound_step,
};

verus! {

/// Row and column hints: one run sequence per row, then one per column.
pub type Hints = (Vec<Vec<usize>>, Vec<Vec<usize>>);

/// How a solve attempt ended.
#[derive(Debug, Clone, Copy, PartialEq, Eq, Structural)]
pub enum Outcome {
    /// Every cell is decided.
    Solved,
    /// Propagation reached a fixed point with undecided cells left.
    Stalled,
    /// A line's known cells contradict its hint.
    Infeasible,
}

/// Index of cell `(y, x)` in a row-major grid of width `w`.
pub open spec fn at(w: int, y: int, x: int) -> int {
    y * w + x
}

/// Row `y` of a row-major grid of width `w`.
pub open spec fn row_of<T>(grid: Seq<T>, w: int, y: int) -> Seq<T> {
    Seq::new(w as nat, |x: int| grid[at(w, y, x)])
}

/// Column `x` of a row-major grid of height `h` and width `w`.
pub open spec fn col_of<T>(grid: Seq<T>, h: int, w: int, x: int) -> Seq<T> {
    Seq::new(h as nat, |y: int| grid[at(w, y, x)])
}

/// `b` is an `h`×`w` board whose every row and column runs match the hints.
pub open spec fn is_solution(
    b: Seq<bool>,
    h: int,
    w: int,
    rows: Seq<Vec<usize>>,
    cols: Seq<Vec<usize>>,
) -> bool {
    &&& b.len() == h * w
    &&& forall|y: int| 0 <= y < h ==> runs(#[trigger] row_of(b, w, y)) == hint_view(rows[y]@)
    &&& forall|x: int| 0 <= x < w ==> runs(#[trigger] col_of(b, h, w, x)) == hint_view(cols[x]@)
}

/// Number of undecided cells.
pub open spec fn unknowns(grid: Seq<Option<bool>>) -> int
    decreases grid.len(),
{
    if grid.len() == 0 {
        0
    } else {
        unknowns(grid.drop_last()) + if grid.last() is None {
            1int
        } else {
            0
        }
    }
}

/// A cell of an `h`×`w` board has an index inside the grid.
pub proof fn lemma_index(h: int, w: int, y: int, x: int)
    requires
        0 <= y < h,
        0 <= x < w,
    ensures
        0 <= at(w, y, x) < h * w,
{
    assert(0 <= y * w) by (nonlinear_arith)
        requires
            0 <= y,
            0 <= w,
    ;
    assert(y * w + x < h * w) by (nonlinear_arith)
        requires
            0 <= y < h,
            0 <= x < w,
    ;
}

proof fn lemma_index_distinct(w: int, y: int, x: int, y2: int, x2: int)
    requires
        0 <= x < w,
        0 <= x2 < w,
        y != y2 || x != x2,
    ensures
        at(w, y, x) != at(w, y2, x2),
{
    if y != y2 {
        assert(y * w + x != y2 * w + x2) by (nonlinear_arith)
            requires
                0 <= x < w,
                0 <= x2 < w,
                y != y2,
        ;
    }
}

/// Deciding one undecided cell leaves one undecided cell fewer.
pub proof fn lemma_unknowns_update(grid: Seq<Option<bool>>, p: int, v: Option<bool>)
    requires
        0 <= p < grid.len(),
        grid[p] is None,
        v is Some,
    ensures
        unknowns(grid.update(p, v)) == unknowns(grid) - 1,
    decreases grid.len(),
{
    let g2 = grid.update(p, v);
    if p == grid.len() - 1 {
        assert(g2.drop_last() =~= grid.drop_last());
    } else {
        lemma_unknowns_update(grid.drop_last(), p, v);
        assert(g2.drop_last() =~= grid.drop_last().update(p, v));
    }
}

/// The number of undecided cells is never negative.
pub proof fn lemma_unknowns_nonneg(grid: Seq<Option<bool>>)
    ensures
        unknowns(grid) >= 0,
    decreases grid.len(),
{
    if grid.len() > 0 {
        lemma_unknowns_nonneg(grid.drop_last());
    }
}

/// `b` keeps every decided cell of `a`, reading both as `h`×`w` boards.
pub open spec fn board_keeps(a: Seq<Option<bool>>, b: Seq<Option<bool>>, h: int, w: int) -> bool {
    &&& a.len() == b.len()
    &&& forall|y: int, x: int|
        0 <= y < h && 0 <= x < w && (#[trigger] a[at(w, y, x)]) is Some ==> b[at(w, y, x)] == a[at(
            w,
            y,
            x,
        )]
}

/// The filled/empty board `b` agrees with every decided cell of `grid`.
pub open spec fn board_fits(b: Seq<bool>, grid: Seq<Option<bool>>, h: int, w: int) -> bool {
    forall|y: int, x: int|
        0 <= y < h && 0 <= x < w && (#[trigger] grid[at(w, y, x)]) is Some ==> b[at(w, y, x)]
            == grid[at(w, y, x)]->Some_0
}

/// Every cell of the `h`×`w` grid is decided.
pub open spec fn board_decided(grid: Seq<Option<bool>>, h: int, w: int) -> bool {
    forall|y: int, x: int| 0 <= y < h && 0 <= x < w ==> (#[trigger] grid[at(w, y, x)]) is Some
}

/// Run lengths are at least one.
pub proof fn lemma_runs_positive(s: Seq<bool>, open: int)
    requires
        open >= 0,
    ensures
        forall|j: int| 0 <= j < runs_with(s, open).len() ==> runs_with(s, open)[j] >= 1,
    decreases s.len(),
{
    if s.len() == 0 {
        if open > 0 {
            assert(runs_with(s, open) =~= seq![open]);
        }
    } else {
        let t = s.drop_first();
        if s[0] {
            lemma_runs_positive(t, open + 1);
            assert(runs_with(s, open) == runs_with(t, open + 1));
        } else {
            lemma_runs_positive(t, 0);
            if open == 0 {
                assert(runs_with(s, open) == runs_with(t, 0));
            } else {
                let r = seq![open] + runs_with(t, 0);
                assert(runs_with(s, open) == r);
                assert forall|j: int| 0 <= j < r.len() implies r[j] >= 1 by {
                    if j > 0 {
                        assert(r[j] == runs_with(t, 0)[j - 1]);
                    }
                }
            }
        }
    }
}

/// The scheduler's state: the grid, the queue of lines, and the pending
/// flags of the rows and of the columns.
pub type Sched = (Seq<Option<bool>>, Seq<(usize, bool)>, Seq<bool>, Seq<bool>);

/// Deciding cell `(y, x)` as `val`; a change queues its row, then its
/// column, unless they are pending.
pub open spec fn sched_set(st: Sched, w: int, y: int, x: int, val: Option<bool>) -> Sched {
    if st.0[at(w, y, x)] == val {
        st
    } else {
        let q1 = if st.2[y] { st.1 } else { st.1.push((y as usize, true)) };
        let q2 = if st.3[x] { q1 } else { q1.push((x as usize, false)) };
        (st.0.update(at(w, y, x), val), q2, st.2.update(y, true), st.3.update(x, true))
    }
}

/// Writing back, from position `k` on, the cells where `next` differs from
/// `line` along line `idx`.
pub open spec fn sched_write(
    st: Sched,
    w: int,
    is_row: bool,
    idx: int,
    line: Seq<Option<bool>>,
    next: Seq<Option<bool>>,
    k: int,
) -> Sched
    decreases next.len() - k,
{
    if k < 0 || k >= next.len() {
        st
    } else {
        let st2 = if next[k] != line[k] {
            if is_row {
                sched_set(st, w, idx, k, next[k])
            } else {
                sched_set(st, w, k, idx, next[k])
            }
        } else {
            st
        };
        sched_write(st2, w, is_row, idx, line, next, k + 1)
    }
}

/// Solving line `idx` once, by overlap fill when `initial`, else by the line
/// solver; the flag tells a contradiction, which changes nothing.
pub open spec fn sched_process(
    st: Sched,
    h: int,
    w: int,
    rows: Seq<Seq<usize>>,
    cols: Seq<Seq<usize>>,
    is_row: bool,
    idx: int,
    initial: bool,
) -> (Sched, bool) {
    let line = row_or_col(st.0, is_row, h, w, idx);
    let hint = if is_row { rows[idx] } else { cols[idx] };
    let res = if initial { overlap_result(line, hint) } else { line_solver(line, hint) };
    match res {
        None => (st, true),
        Some(next) => (sched_write(st, w, is_row, idx, line, next, 0), false),
    }
}

/// Overlap fill on lines `i..`: rows first, then columns.
pub open spec fn sched_seed(
    st: Sched,
    h: int,
    w: int,
    rows: Seq<Seq<usize>>,
    cols: Seq<Seq<usize>>,
    i: int,
) -> (Sched, bool)
    decreases h + w - i,
{
    if i < 0 || i >= h + w {
        (st, false)
    } else {
        let r = if i < h {
            sched_process(st, h, w, rows, cols, true, i, true)
        } else {
            sched_process(st, h, w, rows, cols, false, i - h, true)
        };
        if r.1 {
            r
        } else {
            sched_seed(r.0, h, w, rows, cols, i + 1)
        }
    }
}

/// Taking the first line off the queue and clearing its flag.
pub open spec fn sched_pop(st: Sched) -> Sched {
    let (idx, is_row) = st.1[0];
    (
        st.0,
        st.1.drop_first(),
        if is_row { st.2.update(idx as int, false) } else { st.2 },
        if is_row { st.3 } else { st.3.update(idx as int, false) },
    )
}

/// The main loop: solving queued lines until the queue is empty, for at
/// most `fuel` steps.
pub open spec fn sched_run(
    st: Sched,
    h: int,
    w: int,
    rows: Seq<Seq<usize>>,
    cols: Seq<Seq<usize>>,
    fuel: nat,
) -> (Sched, bool)
    decreases fuel,
{
    if st.1.len() == 0 || fuel == 0 {
        (st, false)
    } else {
        let (idx, is_row) = st.1[0];
        let r = sched_process(sched_pop(st), h, w, rows, cols, is_row, idx as int, false);
        if r.1 {
            r
        } else {
            sched_run(r.0, h, w, rows, cols, (fuel - 1) as nat)
        }
    }
}

/// Every hint entry is positive.
pub open spec fn all_hints_positive(h: int, w: int, rows: Seq<Seq<usize>>, cols: Seq<Seq<usize>>) -> bool {
    &&& forall|y: int| 0 <= y < h ==> positive(#[trigger] rows[y])
    &&& forall|x: int| 0 <= x < w ==> positive(#[trigger] cols[x])
}

/// The runs of every row and column of the filled cells match the hints.
pub open spec fn grid_consistent(g: Seq<Option<bool>>, h: int, w: int, rows: Seq<Seq<usize>>, cols: Seq<Seq<usize>>) -> bool {
    &&& forall|y: int| 0 <= y < h ==> runs(#[trigger] row_of(filled_of(g), w, y)) == hint_view(rows[y])
    &&& forall|x: int| 0 <= x < w ==> runs(#[trigger] col_of(filled_of(g), h, w, x)) == hint_view(cols[x])
}

/// The step budget that the main loop never exceeds.
pub open spec fn sched_fuel(st: Sched) -> nat {
    (3 * unknowns(st.0) + st.1.len() + 1) as nat
}

/// What the propagation scheduler does with grid `g` and the hints: its
/// outcome and the grid it leaves.
pub open spec fn schedule(g: Seq<Option<bool>>, h: int, w: int, rows: Seq<Seq<usize>>, cols: Seq<Seq<usize>>) -> (
    Outcome,
    Seq<Option<bool>>,
) {
    if !all_hints_positive(h, w, rows, cols) {
        (Outcome::Infeasible, g)
    } else {
        let st0: Sched = (g, Seq::empty(), Seq::new(h as nat, |i: int| false), Seq::new(w as nat, |i: int| false));
        let seeded = sched_seed(st0, h, w, rows, cols, 0);
        if seeded.1 {
            (Outcome::Infeasible, seeded.0.0)
        } else {
            let run = sched_run(seeded.0, h, w, rows, cols, sched_fuel(seeded.0));
            let g2 = run.0.0;
            if run.1 {
                (Outcome::Infeasible, g2)
            } else if !board_decided(g2, h, w) {
                (Outcome::Stalled, g2)
            } else if grid_consistent(g2, h, w, rows, cols) {
                (Outcome::Solved, g2)
            } else {
                (Outcome::Infeasible, g2)
            }
        }
    }
}

/// A board being solved: its size, its hints and its cells in row-major order.
pub struct Solver {
    pub h: usize,
    pub w: usize,
    pub hints: Hints,
    pub grid: Vec<Option<bool>>,
}

impl Solver {
    /// The solver's shape is consistent.
    pub open spec fn wf(&self) -> bool {
        &&& self.grid@.len() == self.h * self.w
        &&& self.h * self.w <= usize::MAX
        &&& self.hints.0@.len() == self.h
        &&& self.hints.1@.len() == self.w
    }

    /// `b` solves this solver's hints.
    pub open spec fn solves(&self, b: Seq<bool>) -> bool {
        is_solution(b, self.h as int, self.w as int, self.hints.0@, self.hints.1@)
    }

    /// Line `idx` of the grid, a row when `is_row` holds, else a column.
    pub open spec fn line_view(&self, is_row: bool, idx: int) -> Seq<Option<bool>> {
        if is_row {
            row_of(self.grid@, self.w as int, idx)
        } else {
            col_of(self.grid@, self.h as int, self.w as int, idx)
        }
    }

    /// The queue holds only lines of this board.
    pub open spec fn queue_ok(&self, q: Seq<(usize, bool)>) -> bool {
        forall|j: int|
            0 <= j < q.len() ==> if q[j].1 {
                q[j].0 < self.h
            } else {
                q[j].0 < self.w
            }
    }

    /// Overlap fill forces cell `(y, x)` filled from its row hint or from its
    /// column hint.
    pub open spec fn overlap_forced(&self, y: int, x: int) -> bool {
        covered(hint_view(self.hints.0@[y]@), self.w as int, x) || covered(hint_view(self.hints.1@[x]@), self.h as int, y)
    }

    /// The row hints as sequences.
    pub open spec fn rows_seq(&self) -> Seq<Seq<usize>> {
        self.hints.0@.map_values(|v: Vec<usize>| v@)
    }

    /// The column hints as sequences.
    pub open spec fn cols_seq(&self) -> Seq<Seq<usize>> {
        self.hints.1@.map_values(|v: Vec<usize>| v@)
    }

    /// The scheduler state made of this grid, a queue and pending flags.
    pub open spec fn state(&self, q: Seq<(usize, bool)>, used: (Vec<bool>, Vec<bool>)) -> Sched {
        (self.grid@, q, used.0@, used.1@)
    }

    /// Every flagged line is in the queue.
    pub open spec fn flags_queued(&self, q: Seq<(usize, bool)>, used: (Vec<bool>, Vec<bool>)) -> bool {
        &&& used.0@.len() == self.h
        &&& used.1@.len() == self.w
        &&& forall|r: int| 0 <= r < self.h && (#[trigger] used.0@[r]) ==> q.contains((r as usize, true))
        &&& forall|c: int| 0 <= c < self.w && (#[trigger] used.1@[c]) ==> q.contains((c as usize, false))
    }

    /// The queue holds each line at most once, exactly the flagged ones.
    pub open spec fn queue_exact(&self, q: Seq<(usize, bool)>, used: (Vec<bool>, Vec<bool>)) -> bool {
        &&& self.flags_queued(q, used)
        &&& self.queue_ok(q)
        &&& forall|j: int|
            0 <= j < q.len() ==> if (#[trigger] q[j]).1 {
                used.0@[q[j].0 as int]
            } else {
                used.1@[q[j].0 as int]
            }
        &&& forall|i: int, j: int| 0 <= i < j < q.len() ==> #[trigger] q[i] != #[trigger] q[j]
    }

    /// Line `idx` is at a fixed point of the line solver.
    pub open spec fn line_fixed(&self, is_row: bool, idx: int) -> bool {
        line_solver(self.line_view(is_row, idx), self.hint_of(is_row, idx)) == Some(self.line_view(is_row, idx))
    }

    /// An `h`×`w` board with every cell unknown.
    pub fn new(h: usize, w: usize, hints: Hints) -> (r: Self)
        requires
            h * w <= usize::MAX,
            hints.0@.len() == h,
            hints.1@.len() == w,
        ensures
            r.wf(),
            r.h == h,
            r.w == w,
            r.hints == hints,
            forall|p: int| 0 <= p < h * w ==> r.grid@[p] is None,
    {
        let n = h * w;
        let grid: Vec<Option<bool>> = vec![None; n];
        Solver { h, w, hints, grid }
    }

    /// Decides cell `(y, x)` as `val`; a change enqueues its row and its
    /// column unless they are already pending.
    fn set(
        &mut self,
        y: usize,
        x: usize,
        val: Option<bool>,
        q: &mut VecDeque<(usize, bool)>,
        used: &mut (Vec<bool>, Vec<bool>),
    )
        requires
            old(self).wf(),
            y < old(self).h,
            x < old(self).w,
            old(used).0@.len() == old(self).h,
            old(used).1@.len() == old(self).w,
            old(self).queue_ok(old(q)@),
            old(self).flags_queued(old(q)@, *old(used)),
            old(self).queue_exact(old(q)@, *old(used)),
        ensures
            final(self).queue_exact(final(q)@, *final(used)),
            final(self).wf(),
            final(self).h == old(self).h,
            final(self).w == old(self).w,
            final(self).hints == old(self).hints,
            final(self).grid@ == old(self).grid@.update(at(old(self).w as int, y as int, x as int), val),
            final(used).0@.len() == old(self).h,
            final(used).1@.len() == old(self).w,
            final(self).queue_ok(final(q)@),
            final(self).flags_queued(final(q)@, *final(used)),
            old(self).grid@[at(old(self).w as int, y as int, x as int)] == val ==> final(q)@ == old(q)@
                && *final(used) == *old(used),
            old(self).grid@[at(old(self).w as int, y as int, x as int)] != val ==> final(used).0@[y as int]
                && final(used).1@[x as int],
            old(self).grid@[at(old(self).w as int, y as int, x as int)] != val ==> final(q)@ == old(q)@ + (if old(
                used,
            ).0@[y as int] {
                Seq::<(usize, bool)>::empty()
            } else {
                seq![(y, true)]
            }) + (if old(used).1@[x as int] {
                Seq::<(usize, bool)>::empty()
            } else {
                seq![(x, false)]
            }),
            forall|r: int| 0 <= r < old(self).h && r != y ==> final(used).0@[r] == old(used).0@[r],
            forall|c: int| 0 <= c < old(self).w && c != x ==> final(used).1@[c] == old(used).1@[c],
            final(self).state(final(q)@, *final(used)) == sched_set(
                old(self).state(old(q)@, *old(used)),
                old(self).w as int,
                y as int,
                x as int,
                val,
            ),
            forall|r: int| 0 <= r < old(self).h && old(used).0@[r] ==> final(used).0@[r],
            forall|c: int| 0 <= c < old(self).w && old(used).1@[c] ==> final(used).1@[c],
            final(q)@.len() <= old(q)@.len() + 2,
    {
        proof {
            lemma_index(self.h as int, self.w as int, y as int, x as int);
        }
        let p = y * self.w + x;
        if self.grid[p] == val {
            proof {
                assert(self.grid@.update(p as int, val) =~= self.grid@);
            }
            return ;
        }
        self.grid.set(p, val);
        let ghost h = self.h as int;
        let ghost w = self.w as int;
        let ghost q0 = q@;
        if !used.0[y] {
            q.push_back((y, true));
            used.0.set(y, true);
        }
        let ghost q1 = q@;
        proof {
            assert forall|c: int| 0 <= c < w && (#[trigger] used.1@[c]) implies q@.contains((c as usize, false)) by {
                let j = choose|j: int| 0 <= j < q0.len() && q0[j] == (c as usize, false);
                assert(q@[j] == q0[j]);
            }
            assert forall|r: int| 0 <= r < h && (#[trigger] used.0@[r]) implies q@.contains((r as usize, true)) by {
                if r == y && q@ != q0 {
                    assert(q@[q@.len() - 1] == (r as usize, true));
                } else {
                    let j = choose|j: int| 0 <= j < q0.len() && q0[j] == (r as usize, true);
                    assert(q@[j] == q0[j]);
                }
            }
        }
        if !used.1[x] {
            q.push_back((x, false));
            used.1.set(x, true);
        }
        proof {
            assert(q1 =~= q0 + (if old(used).0@[y as int] {
                Seq::<(usize, bool)>::empty()
            } else {
                seq![(y, true)]
            }));
            assert(q@ =~= q1 + (if old(used).1@[x as int] {
                Seq::<(usize, bool)>::empty()
            } else {
                seq![(x, false)]
            }));
            assert(used.0@ =~= old(used).0@.update(y as int, true));
            assert(used.1@ =~= old(used).1@.update(x as int, true));
            assert(q1 =~= if old(used).0@[y as int] { q0 } else { q0.push((y, true)) });
            assert(q@ =~= if old(used).1@[x as int] { q1 } else { q1.push((x, false)) });
            assert forall|r: int| 0 <= r < h && (#[trigger] used.0@[r]) implies q@.contains((r as usize, true)) by {
                let j = choose|j: int| 0 <= j < q1.len() && q1[j] == (r as usize, true);
                assert(q@[j] == q1[j]);
            }
            assert forall|c: int| 0 <= c < w && (#[trigger] used.1@[c]) implies q@.contains((c as usize, false)) by {
                if c == x && q@ != q1 {
                    assert(q@[q@.len() - 1] == (c as usize, false));
                } else {
                    let j = choose|j: int| 0 <= j < q1.len() && q1[j] == (c as usize, false);
                    assert(q@[j] == q1[j]);
                }
            }
        }
    }

    /// Copies line `idx` out of the grid.
    fn line(&self, is_row: bool, idx: usize) -> (r: Vec<Option<bool>>)
        requires
            self.wf(),
            is_row ==> idx < self.h,
            !is_row ==> idx < self.w,
        ensures
            r@ == self.line_view(is_row, idx as int),
    {
        let len = if is_row { self.w } else { self.h };
        let mut r: Vec<Option<bool>> = Vec::with_capacity(len);
        let mut k: usize = 0;
        while k < len
            invariant
                self.wf(),
                is_row ==> idx < self.h,
                !is_row ==> idx < self.w,
                len == if is_row { self.w } else { self.h },
                k <= len,
                r@.len() == k,
                forall|j: int| 0 <= j < k ==> r@[j] == self.line_view(is_row, idx as int)[j],
            decreases len - k,
        {
            let (y, x) = if is_row { (idx, k) } else { (k, idx) };
            proof {
                lemma_index(self.h as int, self.w as int, y as int, x as int);
            }
            r.push(self.grid[y * self.w + x]);
            k += 1;
        }
        proof {
            assert(r@ =~= self.line_view(is_row, idx as int));
        }
        r
    }
}

impl Solver {
    /// Every hint entry of every line is positive.
    pub open spec fn hints_positive(&self) -> bool {
        &&& forall|y: int| 0 <= y < self.h ==> positive(#[trigger] self.hints.0@[y]@)
        &&& forall|x: int| 0 <= x < self.w ==> positive(#[trigger] self.hints.1@[x]@)
    }

    /// The hint of line `idx`.
    pub open spec fn hint_of(&self, is_row: bool, idx: int) -> Seq<usize> {
        if is_row {
            self.hints.0@[idx]@
        } else {
            self.hints.1@[idx]@
        }
    }

    /// The cells of a solution along line `idx`.
    pub open spec fn solution_line(&self, b: Seq<bool>, is_row: bool, idx: int) -> Seq<bool> {
        if is_row {
            row_of(b, self.w as int, idx)
        } else {
            col_of(b, self.h as int, self.w as int, idx)
        }
    }

    /// Solves line `idx` once (by overlap fill when `initial`, else by the
    /// line solver) and writes back every cell that it decided.
    fn process(
        &mut self,
        is_row: bool,
        idx: usize,
        initial: bool,
        q: &mut VecDeque<(usize, bool)>,
        used: &mut (Vec<bool>, Vec<bool>),
    ) -> (r: Result<(), Infeasible>)
        requires
            old(self).wf(),
            old(self).hints_positive(),
            is_row ==> idx < old(self).h,
            !is_row ==> idx < old(self).w,
            old(used).0@.len() == old(self).h,
            old(used).1@.len() == old(self).w,
            old(self).queue_ok(old(q)@),
            old(self).flags_queued(old(q)@, *old(used)),
            old(self).queue_exact(old(q)@, *old(used)),
        ensures
            final(self).queue_exact(final(q)@, *final(used)),
            final(self).wf(),
            final(self).h == old(self).h,
            final(self).w == old(self).w,
            final(self).hints == old(self).hints,
            final(used).0@.len() == old(self).h,
            final(used).1@.len() == old(self).w,
            final(self).queue_ok(final(q)@),
            final(self).flags_queued(final(q)@, *final(used)),
            forall|y: int, x: int|
                0 <= y < old(self).h && 0 <= x < old(self).w && #[trigger] final(self).grid@[at(old(self).w as int, y, x)]
                    != old(self).grid@[at(old(self).w as int, y, x)] ==> final(used).0@[y] && final(used).1@[x],
            forall|r: int| 0 <= r < old(self).h && old(used).0@[r] ==> final(used).0@[r],
            forall|c: int| 0 <= c < old(self).w && old(used).1@[c] ==> final(used).1@[c],
            r is Ok && !initial ==> (if is_row { final(used).0@[idx as int] } else { final(used).1@[idx as int] })
                || final(self).line_fixed(is_row, idx as int),
            final(q)@.len() >= old(q)@.len(),
            final(q)@.subrange(0, old(q)@.len() as int) == old(q)@,
            (final(self).state(final(q)@, *final(used)), r is Err) == sched_process(
                old(self).state(old(q)@, *old(used)),
                old(self).h as int,
                old(self).w as int,
                old(self).rows_seq(),
                old(self).cols_seq(),
                is_row,
                idx as int,
                initial,
            ),
            forall|y: int, x: int|
                0 <= y < old(self).h && 0 <= x < old(self).w && #[trigger] final(self).grid@[at(old(self).w as int, y, x)]
                    != old(self).grid@[at(old(self).w as int, y, x)] ==> on_line(is_row, idx as int, y, x),
            r is Ok && initial ==> forall|j: int|
                0 <= j < (if is_row { old(self).w } else { old(self).h }) && covered(
                    hint_view(old(self).hint_of(is_row, idx as int)),
                    if is_row { old(self).w as int } else { old(self).h as int },
                    j,
                ) ==> #[trigger] final(self).line_view(is_row, idx as int)[j] == Some(true),
            board_keeps(old(self).grid@, final(self).grid@, old(self).h as int, old(self).w as int),
            forall|b: Seq<bool>|
                old(self).solves(b) && board_fits(b, old(self).grid@, old(self).h as int, old(self).w as int)
                    ==> board_fits(b, final(self).grid@, old(self).h as int, old(self).w as int),
            r is Err ==> forall|b: Seq<bool>|
                old(self).solves(b) ==> !board_fits(b, old(self).grid@, old(self).h as int, old(self).w as int),
            3 * unknowns(final(self).grid@) + final(q)@.len() <= 3 * unknowns(old(self).grid@) + old(q)@.len(),
    {
        let ghost g0 = self.grid@;
        let ghost h = self.h as int;
        let ghost w = self.w as int;
        let ghost hint_s = self.hint_of(is_row, idx as int);
        let ghost hints0 = self.hints;
        let ghost u0 = *used;
        let ghost q00 = q@;
        let ghost st00 = self.state(q@, *used);
        let line = self.line(is_row, idx);
        let mut next = self.line(is_row, idx);
        let res = {
            let hint = if is_row { &self.hints.0[idx] } else { &self.hints.1[idx] };
            if initial { overlap_fill(&mut next, hint) } else { solve_line(&mut next, hint) }
        };
        proof {
            // a solution that fits the board completes this line
            assert forall|b: Seq<bool>| self.solves(b) && board_fits(b, g0, h, w) implies completes(
                self.solution_line(b, is_row, idx as int),
                line@,
                hint_s,
            ) by {
                let sl = self.solution_line(b, is_row, idx as int);
                if is_row {
                    assert(runs(row_of(b, w, idx as int)) == hint_view(self.hints.0@[idx as int]@));
                } else {
                    assert(runs(col_of(b, h, w, idx as int)) == hint_view(self.hints.1@[idx as int]@));
                }
                assert forall|k: int| 0 <= k < line@.len() && line@[k] is Some implies sl[k]
                    == line@[k]->Some_0 by {
                    if is_row {
                        lemma_index(h, w, idx as int, k);
                        assert(line@[k] == g0[at(w, idx as int, k)]);
                    } else {
                        lemma_index(h, w, k, idx as int);
                        assert(line@[k] == g0[at(w, k, idx as int)]);
                    }
                }
            }
        }
        proof {
            assert(hint_s == (if is_row { self.rows_seq()[idx as int] } else { self.cols_seq()[idx as int] }));
            assert(line@ == row_or_col(st00.0, is_row, h, w, idx as int));
        }
        if res.is_err() {
            return Err(Infeasible);
        }
        let len = line.len();
        let mut k: usize = 0;
        while k < len
            invariant
                self.wf(),
                self.h == h,
                self.w == w,
                self.hints == hints0,
                hint_s == self.hint_of(is_row, idx as int),
                self.hints_positive(),
                forall|b: Seq<bool>|
                    self.solves(b) && board_fits(b, g0, h, w) ==> completes(
                        self.solution_line(b, is_row, idx as int),
                        line@,
                        hint_s,
                    ),
                is_row ==> idx < h,
                !is_row ==> idx < w,
                len == line@.len(),
                len == next@.len(),
                len == if is_row { w } else { h },
                g0.len() == h * w,
                g0 == old(self).grid@,
                h == old(self).h as int,
                w == old(self).w as int,
                hints0 == old(self).hints,
                line@ == row_or_col(g0, is_row, h, w, idx as int),
                sound_step(line@, next@, hint_s),
                k <= len,
                used.0@.len() == h,
                used.1@.len() == w,
                self.queue_ok(q@),
                self.flags_queued(q@, *used),
                self.queue_exact(q@, *used),
                forall|y: int, x: int|
                    0 <= y < h && 0 <= x < w && #[trigger] self.grid@[at(w, y, x)] != g0[at(w, y, x)] ==> used.0@[y]
                        && used.1@[x],
                forall|r: int| 0 <= r < h && u0.0@[r] ==> used.0@[r],
                forall|c: int| 0 <= c < w && u0.1@[c] ==> used.1@[c],
                !initial ==> next@ == line_solver(line@, hint_s)->Some_0,
                !initial ==> line_solver(line@, hint_s) is Some,
                initial ==> next@ == overlap_result(line@, hint_s)->Some_0,
                sched_write(self.state(q@, *used), w, is_row, idx as int, line@, next@, k as int) == sched_write(
                    st00,
                    w,
                    is_row,
                    idx as int,
                    line@,
                    next@,
                    0,
                ),
                q@.len() >= q00.len(),
                q@.subrange(0, q00.len() as int) == q00,
                q00 == old(q)@,
                initial ==> forall|j: int| 0 <= j < len && covered(hint_view(hint_s), len as int, j) ==> next@[j] == Some(true),
                u0 == *old(used),
                forall|y: int, x: int|
                    0 <= y < h && 0 <= x < w ==> #[trigger] self.grid@[at(w, y, x)] == if on_line(
                        is_row,
                        idx as int,
                        y,
                        x,
                    ) && pos_on_line(is_row, y, x) < k {
                        next@[pos_on_line(is_row, y, x)]
                    } else {
                        g0[at(w, y, x)]
                    },
                3 * unknowns(self.grid@) + q@.len() <= 3 * unknowns(g0) + old(q)@.len(),
            decreases len - k,
        {
            let (y, x) = if is_row { (idx, k) } else { (k, idx) };
            let ghost stk = self.state(q@, *used);
            if next[k] != line[k] {
                let ghost gb = self.grid@;
                let ghost qb = q@;
                let ghost ub = *used;
                proof {
                    lemma_index(h, w, y as int, x as int);
                    assert(gb[at(w, y as int, x as int)] == line@[k as int]);
                    assert(line@[k as int] is None);
                    lemma_unknowns_update(gb, at(w, y as int, x as int), next@[k as int]);
                }
                self.set(y, x, next[k], q, used);
                proof {
                    assert(q@.subrange(0, q00.len() as int) =~= qb.subrange(0, q00.len() as int));
                    assert forall|y2: int, x2: int| 0 <= y2 < h && 0 <= x2 < w implies #[trigger] self.grid@[at(w, y2, x2)]
                        == if on_line(is_row, idx as int, y2, x2) && pos_on_line(is_row, y2, x2) < k + 1 {
                        next@[pos_on_line(is_row, y2, x2)]
                    } else {
                        g0[at(w, y2, x2)]
                    } by {
                        lemma_index(h, w, y2, x2);
                        if y2 != y || x2 != x {
                            lemma_index_distinct(w, y as int, x as int, y2, x2);
                        }
                    }
                    assert forall|y2: int, x2: int|
                        0 <= y2 < h && 0 <= x2 < w && #[trigger] self.grid@[at(w, y2, x2)] != g0[at(w, y2, x2)]
                        implies used.0@[y2] && used.1@[x2] by {
                        lemma_index(h, w, y2, x2);
                        if y2 != y || x2 != x {
                            lemma_index_distinct(w, y as int, x as int, y2, x2);
                            assert(gb[at(w, y2, x2)] != g0[at(w, y2, x2)]);
                            assert(ub.0@[y2] && ub.1@[x2]);
                        }
                    }
                }
            } else {
                proof {
                    assert forall|y2: int, x2: int| 0 <= y2 < h && 0 <= x2 < w implies #[trigger] self.grid@[at(w, y2, x2)]
                        == if on_line(is_row, idx as int, y2, x2) && pos_on_line(is_row, y2, x2) < k + 1 {
                        next@[pos_on_line(is_row, y2, x2)]
                    } else {
                        g0[at(w, y2, x2)]
                    } by {
                        if y2 == y && x2 == x {
                            lemma_index(h, w, y2, x2);
                            assert(line@[k as int] == g0[at(w, y2, x2)]);
                        }
                    }
                }
            }
            proof {
                assert(sched_write(stk, w, is_row, idx as int, line@, next@, k as int) == sched_write(
                    self.state(q@, *used),
                    w,
                    is_row,
                    idx as int,
                    line@,
                    next@,
                    k + 1,
                ));
            }
            k += 1;
        }
        proof {
            assert forall|y: int, x: int| 0 <= y < h && 0 <= x < w && (#[trigger] g0[at(w, y, x)]) is Some
                implies self.grid@[at(w, y, x)] == g0[at(w, y, x)] by {
                if on_line(is_row, idx as int, y, x) {
                    let j = pos_on_line(is_row, y, x);
                    assert(line@[j] == g0[at(w, y, x)]);
                }
            }
            assert forall|b: Seq<bool>| old(self).solves(b) && board_fits(b, old(self).grid@, old(self).h as int, old(self).w as int) implies board_fits(
                b,
                self.grid@,
                old(self).h as int,
                old(self).w as int,
            ) by {
                assert(self.solves(b));
                assert(board_fits(b, g0, h, w));
                let sl = self.solution_line(b, is_row, idx as int);
                assert(completes(sl, line@, hint_s));
                assert(agrees(sl, next@));
                assert forall|y: int, x: int| 0 <= y < h && 0 <= x < w && (#[trigger] self.grid@[at(w, y, x)]) is Some
                    implies b[at(w, y, x)] == self.grid@[at(w, y, x)]->Some_0 by {
                    if on_line(is_row, idx as int, y, x) {
                        let j = pos_on_line(is_row, y, x);
                        assert(sl[j] == b[at(w, y, x)]);
                    }
                }
            }
            assert(sched_write(self.state(q@, *used), w, is_row, idx as int, line@, next@, len as int) == self.state(q@, *used));
            if initial {
                assert forall|j: int|
                    0 <= j < len && covered(hint_view(hint_s), len as int, j)
                    implies #[trigger] self.line_view(is_row, idx as int)[j] == Some(true) by {
                    let (y, x) = if is_row { (idx as int, j) } else { (j, idx as int) };
                    lemma_index(h, w, y, x);
                    assert(self.grid@[at(w, y, x)] == next@[j]);
                }
            }
            if !initial {
                let flagged = if is_row { used.0@[idx as int] } else { used.1@[idx as int] };
                if !flagged {
                    assert forall|j: int| 0 <= j < len implies #[trigger] self.line_view(is_row, idx as int)[j] == next@[j]
                        && line@[j] == next@[j] by {
                        let (y, x) = if is_row { (idx as int, j) } else { (j, idx as int) };
                        lemma_index(h, w, y, x);
                        assert(self.grid@[at(w, y, x)] == next@[j]);
                        if self.grid@[at(w, y, x)] != g0[at(w, y, x)] {
                            assert(used.0@[y] && used.1@[x]);
                        }
                        assert(line@[j] == g0[at(w, y, x)]);
                    }
                    assert(self.line_view(is_row, idx as int) =~= next@);
                    assert(line@ =~= next@);
                    assert(self.hint_of(is_row, idx as int) == hint_s);
                }
            }
        }
        Ok(())
    }
}

/// Line `idx` of an `h`×`w` grid, a row when `is_row` holds, else a column.
pub open spec fn row_or_col(g: Seq<Option<bool>>, is_row: bool, h: int, w: int, idx: int) -> Seq<
    Option<bool>,
> {
    if is_row {
        row_of(g, w, idx)
    } else {
        col_of(g, h, w, idx)
    }
}

/// Cell `(y, x)` lies on line `idx`.
pub open spec fn on_line(is_row: bool, idx: int, y: int, x: int) -> bool {
    if is_row {
        y == idx
    } else {
        x == idx
    }
}

/// Position of cell `(y, x)` along its row or column.
pub open spec fn pos_on_line(is_row: bool, y: int, x: int) -> int {
    if is_row {
        x
    } else {
        y
    }
}

impl Solver {
    /// Whether every hint entry of every line is positive.
    fn check_hints(&self) -> (r: bool)
        requires
            self.wf(),
        ensures
            r == self.hints_positive(),
    {
        let mut y: usize = 0;
        while y < self.h
            invariant
                self.wf(),
                y <= self.h,
                forall|j: int| 0 <= j < y ==> positive(#[trigger] self.hints.0@[j]@),
            decreases self.h - y,
        {
            if !all_positive_vec(&self.hints.0[y]) {
                return false;
            }
            y += 1;
        }
        let mut x: usize = 0;
        while x < self.w
            invariant
                self.wf(),
                x <= self.w,
                forall|j: int| 0 <= j < self.h ==> positive(#[trigger] self.hints.0@[j]@),
                forall|j: int| 0 <= j < x ==> positive(#[trigger] self.hints.1@[j]@),
            decreases self.w - x,
        {
            if !all_positive_vec(&self.hints.1[x]) {
                return false;
            }
            x += 1;
        }
        true
    }

    /// Whether every cell is decided.
    fn decided(&self) -> (r: bool)
        requires
            self.wf(),
        ensures
            r == board_decided(self.grid@, self.h as int, self.w as int),
    {
        let mut y: usize = 0;
        while y < self.h
            invariant
                self.wf(),
                y <= self.h,
                forall|y2: int, x2: int|
                    0 <= y2 < y && 0 <= x2 < self.w ==> (#[trigger] self.grid@[at(self.w as int, y2, x2)]) is Some,
            decreases self.h - y,
        {
            let mut x: usize = 0;
            while x < self.w
                invariant
                    self.wf(),
                    y < self.h,
                    x <= self.w,
                    forall|y2: int, x2: int|
                        0 <= y2 < y && 0 <= x2 < self.w ==> (#[trigger] self.grid@[at(self.w as int, y2, x2)]) is Some,
                    forall|x2: int| 0 <= x2 < x ==> (#[trigger] self.grid@[at(self.w as int, y as int, x2)]) is Some,
                decreases self.w - x,
            {
                proof {
                    lemma_index(self.h as int, self.w as int, y as int, x as int);
                }
                if self.grid[y * self.w + x].is_none() {
                    return false;
                }
                x += 1;
            }
            y += 1;
        }
        true
    }

    /// Runs the propagation scheduler: overlap fill on every row and then
    /// every column, then the line solver on queued lines until the queue is
    /// empty, then a check of a decided board against the hints. The outcome
    /// and the grid left are those of `schedule`. Every solution of the
    /// hints that fits the board before the call still fits it after;
    /// `Infeasible` means no solution fits it; `Solved` means the decided
    /// board matches every hint.
    pub fn solve(&mut self) -> (r: Outcome)
        requires
            old(self).wf(),
        ensures
            final(self).wf(),
            final(self).h == old(self).h,
            final(self).w == old(self).w,
            final(self).hints == old(self).hints,
            board_keeps(old(self).grid@, final(self).grid@, old(self).h as int, old(self).w as int),
            forall|b: Seq<bool>|
                old(self).solves(b) && board_fits(b, old(self).grid@, old(self).h as int, old(self).w as int)
                    ==> board_fits(b, final(self).grid@, old(self).h as int, old(self).w as int),
            r is Infeasible ==> forall|b: Seq<bool>|
                old(self).solves(b) ==> !board_fits(b, old(self).grid@, old(self).h as int, old(self).w as int),
            r is Solved <==> !(r is Infeasible) && board_decided(final(self).grid@, old(self).h as int, old(self).w as int),
            r is Solved ==> final(self).solves(filled_of(final(self).grid@)),
            !(r is Infeasible) ==> forall|y: int, x: int|
                0 <= y < old(self).h && 0 <= x < old(self).w && old(self).overlap_forced(y, x)
                    ==> #[trigger] final(self).grid@[at(old(self).w as int, y, x)] == Some(true),
            r is Solved ==> forall|b: Seq<bool>|
                old(self).solves(b) && board_fits(b, old(self).grid@, old(self).h as int, old(self).w as int)
                    ==> forall|y: int, x: int|
                    0 <= y < old(self).h && 0 <= x < old(self).w ==> #[trigger] final(self).grid@[at(
                        old(self).w as int,
                        y,
                        x,
                    )] == Some(b[at(old(self).w as int, y, x)]),
            board_decided(old(self).grid@, old(self).h as int, old(self).w as int) && (exists|b: Seq<bool>|
                old(self).solves(b) && board_fits(b, old(self).grid@, old(self).h as int, old(self).w as int))
                ==> r is Solved && forall|y: int, x: int|
                0 <= y < old(self).h && 0 <= x < old(self).w ==> #[trigger] final(self).grid@[at(
                    old(self).w as int,
                    y,
                    x,
                )] == old(self).grid@[at(old(self).w as int, y, x)],
            (r, final(self).grid@) == schedule(
                old(self).grid@,
                old(self).h as int,
                old(self).w as int,
                old(self).rows_seq(),
                old(self).cols_seq(),
            ),
    {
        let ghost g0 = self.grid@;
        let ghost h = self.h as int;
        let ghost w = self.w as int;
        let ghost hints0 = self.hints;
        let ghost rs = self.rows_seq();
        let ghost cs = self.cols_seq();
        proof {
            assert forall|y: int| 0 <= y < h implies #[trigger] rs[y] == self.hints.0@[y]@ by {}
            assert forall|x: int| 0 <= x < w implies #[trigger] cs[x] == self.hints.1@[x]@ by {}
            if self.hints_positive() {
                assert forall|y: int| 0 <= y < h implies positive(#[trigger] rs[y]) by {
                    assert(rs[y] == self.hints.0@[y]@);
                }
                assert forall|x: int| 0 <= x < w implies positive(#[trigger] cs[x]) by {
                    assert(cs[x] == self.hints.1@[x]@);
                }
            }
            if all_hints_positive(h, w, rs, cs) {
                assert forall|y: int| 0 <= y < h implies positive(#[trigger] self.hints.0@[y]@) by {
                    assert(rs[y] == self.hints.0@[y]@);
                }
                assert forall|x: int| 0 <= x < w implies positive(#[trigger] self.hints.1@[x]@) by {
                    assert(cs[x] == self.hints.1@[x]@);
                }
            }
            assert(self.hints_positive() == all_hints_positive(h, w, rs, cs));
        }
        if !self.check_hints() {
            proof {
                assert forall|b: Seq<bool>| self.solves(b) implies !board_fits(b, g0, h, w) by {
                    if exists|y: int| 0 <= y < h && !positive(#[trigger] self.hints.0@[y]@) {
                        let y = choose|y: int| 0 <= y < h && !positive(#[trigger] self.hints.0@[y]@);
                        lemma_runs_positive(row_of(b, w, y), 0);
                        let j = choose|j: int| 0 <= j < self.hints.0@[y]@.len() && !(self.hints.0@[y]@[j] > 0);
                        assert(hint_view(self.hints.0@[y]@)[j] == 0);
                    } else {
                        let x = choose|x: int| 0 <= x < w && !positive(#[trigger] self.hints.1@[x]@);
                        lemma_runs_positive(col_of(b, h, w, x), 0);
                        let j = choose|j: int| 0 <= j < self.hints.1@[x]@.len() && !(self.hints.1@[x]@[j] > 0);
                        assert(hint_view(self.hints.1@[x]@)[j] == 0);
                    }
                }
                assert forall|b: Seq<bool>| old(self).solves(b) implies !board_fits(b, old(self).grid@, old(self).h as int, old(self).w as int) by {
                    assert(self.solves(b));
                }
            }
            return Outcome::Infeasible;
        }
        let mut q: VecDeque<(usize, bool)> = VecDeque::new();
        let mut used: (Vec<bool>, Vec<bool>) = (vec![false; self.h], vec![false; self.w]);
        let ghost st0: Sched = (g0, Seq::empty(), Seq::new(h as nat, |i: int| false), Seq::new(w as nat, |i: int| false));
        proof {
            assert(used.0@ =~= st0.2);
            assert(used.1@ =~= st0.3);
            assert(q@ =~= st0.1);
        }
        let mut i: usize = 0;
        while i < self.h
            invariant
                self.wf(),
                self.h == h,
                self.w == w,
                self.hints == hints0,
                g0 == old(self).grid@,
                h == old(self).h as int,
                w == old(self).w as int,
                hints0 == old(self).hints,
                self.hints_positive(),
                used.0@.len() == h,
                used.1@.len() == w,
                self.queue_ok(q@),
                board_keeps(g0, self.grid@, h, w),
                forall|b: Seq<bool>|
                    self.solves(b) && board_fits(b, g0, h, w) ==> board_fits(b, self.grid@, h, w),
                self.flags_queued(q@, used),
                self.queue_exact(q@, used),
                forall|y: int, x: int|
                    0 <= y < h && 0 <= x < w && #[trigger] self.grid@[at(w, y, x)] != g0[at(w, y, x)] ==> used.0@[y]
                        && used.1@[x],
                i <= self.h,
                all_hints_positive(h, w, rs, cs),
                rs == self.rows_seq(),
                cs == self.cols_seq(),
                st0.0 == g0,
                st0 == (g0, Seq::<(usize, bool)>::empty(), Seq::new(h as nat, |i: int| false), Seq::new(w as nat, |i: int| false)),
                sched_seed(self.state(q@, used), h, w, rs, cs, i as int) == sched_seed(st0, h, w, rs, cs, 0),
                forall|y: int, x: int| 0 <= y < i && 0 <= x < w && covered(hint_view(hints0.0@[y]@), w, x) ==> #[trigger] self.grid@[at(w, y, x)] == Some(true),
            decreases self.h - i,
        {
            let ghost gb = self.grid@;
            let ghost pre = *self;
            let ghost ub = used;
            let ghost stb = self.state(q@, used);
            if self.process(true, i, true, &mut q, &mut used).is_err() {
                proof {
                    assert(self.state(q@, used) == stb);
                    assert(sched_seed(stb, h, w, rs, cs, i as int) == (stb, true));
                    assert forall|b: Seq<bool>| self.solves(b) implies !board_fits(b, g0, h, w) by {
                        assert(pre.solves(b));
                        if board_fits(b, g0, h, w) {
                            assert(board_fits(b, gb, h, w));
                        }
                    }
                    assert forall|b: Seq<bool>| old(self).solves(b) implies !board_fits(b, old(self).grid@, old(self).h as int, old(self).w as int) by {
                        assert(self.solves(b));
                    }
                }
                return Outcome::Infeasible;
            }
            proof {
                assert(sched_seed(stb, h, w, rs, cs, i as int) == sched_seed(self.state(q@, used), h, w, rs, cs, i as int + 1));
                lemma_keeps_chain(g0, gb, self.grid@, h, w);
                assert forall|b: Seq<bool>| self.solves(b) && board_fits(b, g0, h, w) implies board_fits(b, self.grid@, h, w) by {
                    assert(pre.solves(b));
                    assert(board_fits(b, gb, h, w));
                }
                assert forall|y: int, x: int|
                    0 <= y < h && 0 <= x < w && #[trigger] self.grid@[at(w, y, x)] != g0[at(w, y, x)] implies used.0@[y]
                        && used.1@[x] by {
                    if self.grid@[at(w, y, x)] == gb[at(w, y, x)] {
                        assert(ub.0@[y] && ub.1@[x]);
                    }
                }
            }
            proof {
                assert forall|y: int, x: int| 0 <= y < i + 1 && 0 <= x < w && covered(hint_view(hints0.0@[y]@), w, x)
                    implies #[trigger] self.grid@[at(w, y, x)] == Some(true) by {
                    lemma_index(h, w, y, x);
                    if y == i {
                        assert(self.line_view(true, i as int)[x] == self.grid@[at(w, y, x)]);
                    } else {
                        assert(gb[at(w, y, x)] == Some(true));
                    }
                }
            }
            i += 1;
        }
        let mut i: usize = 0;
        while i < self.w
            invariant
                self.wf(),
                self.h == h,
                self.w == w,
                self.hints == hints0,
                g0 == old(self).grid@,
                h == old(self).h as int,
                w == old(self).w as int,
                hints0 == old(self).hints,
                self.hints_positive(),
                used.0@.len() == h,
                used.1@.len() == w,
                self.queue_ok(q@),
                board_keeps(g0, self.grid@, h, w),
                forall|b: Seq<bool>|
                    self.solves(b) && board_fits(b, g0, h, w) ==> board_fits(b, self.grid@, h, w),
                self.flags_queued(q@, used),
                self.queue_exact(q@, used),
                forall|y: int, x: int|
                    0 <= y < h && 0 <= x < w && #[trigger] self.grid@[at(w, y, x)] != g0[at(w, y, x)] ==> used.0@[y]
                        && used.1@[x],
                i <= self.w,
                all_hints_positive(h, w, rs, cs),
                rs == self.rows_seq(),
                cs == self.cols_seq(),
                st0 == (g0, Seq::<(usize, bool)>::empty(), Seq::new(h as nat, |i: int| false), Seq::new(w as nat, |i: int| false)),
                sched_seed(self.state(q@, used), h, w, rs, cs, h + i) == sched_seed(st0, h, w, rs, cs, 0),
                forall|y: int, x: int| 0 <= y < h && 0 <= x < w && covered(hint_view(hints0.0@[y]@), w, x) ==> #[trigger] self.grid@[at(w, y, x)] == Some(true),
                forall|y: int, x: int| 0 <= y < h && 0 <= x < i && covered(hint_view(hints0.1@[x]@), h, y) ==> #[trigger] self.grid@[at(w, y, x)] == Some(true),
            decreases self.w - i,
        {
            let ghost gb = self.grid@;
            let ghost pre = *self;
            let ghost ub = used;
            let ghost stb = self.state(q@, used);
            if self.process(false, i, true, &mut q, &mut used).is_err() {
                proof {
                    assert(self.state(q@, used) == stb);
                    assert(sched_seed(stb, h, w, rs, cs, h + i) == (stb, true));
                    assert forall|b: Seq<bool>| self.solves(b) implies !board_fits(b, g0, h, w) by {
                        assert(pre.solves(b));
                        if board_fits(b, g0, h, w) {
                            assert(board_fits(b, gb, h, w));
                        }
                    }
                    assert forall|b: Seq<bool>| old(self).solves(b) implies !board_fits(b, old(self).grid@, old(self).h as int, old(self).w as int) by {
                        assert(self.solves(b));
                    }
                }
                return Outcome::Infeasible;
            }
            proof {
                assert(sched_seed(stb, h, w, rs, cs, h + i) == sched_seed(self.state(q@, used), h, w, rs, cs, h + i + 1));
                lemma_keeps_chain(g0, gb, self.grid@, h, w);
                assert forall|b: Seq<bool>| self.solves(b) && board_fits(b, g0, h, w) implies board_fits(b, self.grid@, h, w) by {
                    assert(pre.solves(b));
                    assert(board_fits(b, gb, h, w));
                }
                assert forall|y: int, x: int|
                    0 <= y < h && 0 <= x < w && #[trigger] self.grid@[at(w, y, x)] != g0[at(w, y, x)] implies used.0@[y]
                        && used.1@[x] by {
                    if self.grid@[at(w, y, x)] == gb[at(w, y, x)] {
                        assert(ub.0@[y] && ub.1@[x]);
                    }
                }
            }
            proof {
                assert forall|y: int, x: int| 0 <= y < h && 0 <= x < w && covered(hint_view(hints0.0@[y]@), w, x)
                    implies #[trigger] self.grid@[at(w, y, x)] == Some(true) by {
                    lemma_index(h, w, y, x);
                    assert(gb[at(w, y, x)] == Some(true));
                }
                assert forall|y: int, x: int| 0 <= y < h && 0 <= x < i + 1 && covered(hint_view(hints0.1@[x]@), h, y)
                    implies #[trigger] self.grid@[at(w, y, x)] == Some(true) by {
                    lemma_index(h, w, y, x);
                    if x == i {
                        assert(self.line_view(false, i as int)[y] == self.grid@[at(w, y, x)]);
                    } else {
                        assert(gb[at(w, y, x)] == Some(true));
                    }
                }
            }
            i += 1;
        }
        let ghost seeded = self.state(q@, used);
        let ghost fuel0 = sched_fuel(seeded);
        let ghost mut fuel: nat = fuel0;
        proof {
            assert(sched_seed(seeded, h, w, rs, cs, h + w) == (seeded, false));
        }
        proof {
            lemma_unknowns_nonneg(self.grid@);
        }
        loop
            invariant
                self.wf(),
                self.h == h,
                self.w == w,
                self.hints == hints0,
                g0 == old(self).grid@,
                h == old(self).h as int,
                w == old(self).w as int,
                hints0 == old(self).hints,
                self.hints_positive(),
                used.0@.len() == h,
                used.1@.len() == w,
                self.queue_ok(q@),
                board_keeps(g0, self.grid@, h, w),
                forall|b: Seq<bool>|
                    self.solves(b) && board_fits(b, g0, h, w) ==> board_fits(b, self.grid@, h, w),
                unknowns(self.grid@) >= 0,
                self.flags_queued(q@, used),
                self.queue_exact(q@, used),
                forall|y: int, x: int|
                    0 <= y < h && 0 <= x < w && #[trigger] self.grid@[at(w, y, x)] != g0[at(w, y, x)] ==> (used.0@[y]
                        || self.line_fixed(true, y)) && (used.1@[x] || self.line_fixed(false, x)),
                forall|y: int, x: int| 0 <= y < h && 0 <= x < w && covered(hint_view(hints0.0@[y]@), w, x) ==> #[trigger] self.grid@[at(w, y, x)] == Some(true),
                forall|y: int, x: int| 0 <= y < h && 0 <= x < w && covered(hint_view(hints0.1@[x]@), h, y) ==> #[trigger] self.grid@[at(w, y, x)] == Some(true),
                all_hints_positive(h, w, rs, cs),
                rs == self.rows_seq(),
                cs == self.cols_seq(),
                st0 == (g0, Seq::<(usize, bool)>::empty(), Seq::new(h as nat, |i: int| false), Seq::new(w as nat, |i: int| false)),
                sched_seed(st0, h, w, rs, cs, 0) == (seeded, false),
                fuel0 == sched_fuel(seeded),
                fuel >= 3 * unknowns(self.grid@) + q@.len() + 1,
                sched_run(self.state(q@, used), h, w, rs, cs, fuel) == sched_run(seeded, h, w, rs, cs, fuel0),
            ensures
                forall|r: int| 0 <= r < h ==> !used.0@[r],
                forall|c: int| 0 <= c < w ==> !used.1@[c],
                q@.len() == 0,
                sched_run(self.state(q@, used), h, w, rs, cs, fuel) == (self.state(q@, used), false),
                sched_run(seeded, h, w, rs, cs, fuel0) == (self.state(q@, used), false),
            decreases 3 * unknowns(self.grid@) + q@.len(),
        {
            let ghost gb = self.grid@;
            let ghost pre = *self;
            let ghost qb = q@;
            let ghost stp = self.state(q@, used);
            match q.pop_front() {
                None => {
                    proof {
                        assert(self.state(q@, used) == stp);
                        assert(sched_run(stp, h, w, rs, cs, fuel) == (stp, false));
                        assert forall|r: int| 0 <= r < h implies !used.0@[r] by {
                            if used.0@[r] {
                                assert(q@.contains((r as usize, true)));
                            }
                        }
                        assert forall|c: int| 0 <= c < w implies !used.1@[c] by {
                            if used.1@[c] {
                                assert(q@.contains((c as usize, false)));
                            }
                        }
                    }
                    break ;
                },
                Some((idx, is_row)) => {
                    let ghost u_pre = used;
                    proof {
                        assert(fuel > 0);
                    }
                    if is_row {
                        used.0.set(idx, false);
                    } else {
                        used.1.set(idx, false);
                    }
                    proof {
                        assert(qb[0] == (idx, is_row));
                        assert(q@ =~= qb.drop_first());
                        assert forall|r: int| 0 <= r < h && (#[trigger] used.0@[r]) implies q@.contains((r as usize, true)) by {
                            let j = choose|j: int| 0 <= j < qb.len() && qb[j] == (r as usize, true);
                            assert(j > 0);
                            assert(q@[j - 1] == qb[j]);
                        }
                        assert forall|c: int| 0 <= c < w && (#[trigger] used.1@[c]) implies q@.contains((c as usize, false)) by {
                            let j = choose|j: int| 0 <= j < qb.len() && qb[j] == (c as usize, false);
                            assert(j > 0);
                            assert(q@[j - 1] == qb[j]);
                        }
                        assert(self.state(q@, used) == sched_pop(stp));
                        assert forall|j: int| 0 <= j < q@.len() implies if (#[trigger] q@[j]).1 {
                            used.0@[q@[j].0 as int]
                        } else {
                            used.1@[q@[j].0 as int]
                        } by {
                            assert(q@[j] == qb[j + 1]);
                            assert(qb[0] != qb[j + 1]);
                        }
                        assert forall|i: int, j: int| 0 <= i < j < q@.len() implies #[trigger] q@[i] != #[trigger] q@[j] by {
                            assert(q@[i] == qb[i + 1]);
                            assert(q@[j] == qb[j + 1]);
                        }
                    }
                    let ghost spop = self.state(q@, used);
                    if self.process(is_row, idx, false, &mut q, &mut used).is_err() {
                        proof {
                            assert(self.state(q@, used) == spop);
                            assert(stp.1[0] == (idx, is_row));
                            assert(sched_run(stp, h, w, rs, cs, fuel) == (spop, true));
                            assert forall|b: Seq<bool>| self.solves(b) implies !board_fits(b, g0, h, w) by {
                                assert(pre.solves(b));
                                if board_fits(b, g0, h, w) {
                                    assert(board_fits(b, gb, h, w));
                                }
                            }
                            assert forall|b: Seq<bool>| old(self).solves(b) implies !board_fits(b, old(self).grid@, old(self).h as int, old(self).w as int) by {
                                assert(self.solves(b));
                            }
                        }
                        return Outcome::Infeasible;
                    }
                    proof {
                        lemma_keeps_chain(g0, gb, self.grid@, h, w);
                        assert forall|b: Seq<bool>| self.solves(b) && board_fits(b, g0, h, w) implies board_fits(b, self.grid@, h, w) by {
                            assert(pre.solves(b));
                            assert(board_fits(b, gb, h, w));
                        }
                        lemma_unknowns_nonneg(self.grid@);
                        assert(stp.1[0] == (idx, is_row));
                        assert(sched_run(stp, h, w, rs, cs, fuel) == sched_run(self.state(q@, used), h, w, rs, cs, (fuel - 1) as nat));
                        fuel = (fuel - 1) as nat;
                        assert forall|y: int, x: int| 0 <= y < h && 0 <= x < w && covered(hint_view(hints0.0@[y]@), w, x)
                            implies #[trigger] self.grid@[at(w, y, x)] == Some(true) by {
                            lemma_index(h, w, y, x);
                            assert(gb[at(w, y, x)] == Some(true));
                        }
                        assert forall|y: int, x: int| 0 <= y < h && 0 <= x < w && covered(hint_view(hints0.1@[x]@), h, y)
                            implies #[trigger] self.grid@[at(w, y, x)] == Some(true) by {
                            lemma_index(h, w, y, x);
                            assert(gb[at(w, y, x)] == Some(true));
                        }
                        // a line whose flag stays clear kept its cells
                        assert forall|r: int| 0 <= r < h && !used.0@[r] implies self.line_view(true, r) == pre.line_view(true, r) by {
                            assert forall|x: int| 0 <= x < w implies self.line_view(true, r)[x] == pre.line_view(true, r)[x] by {
                                lemma_index(h, w, r, x);
                                if self.grid@[at(w, r, x)] != gb[at(w, r, x)] {
                                    assert(used.0@[r]);
                                }
                            }
                            assert(self.line_view(true, r) =~= pre.line_view(true, r));
                        }
                        assert forall|c: int| 0 <= c < w && !used.1@[c] implies self.line_view(false, c) == pre.line_view(false, c) by {
                            assert forall|y: int| 0 <= y < h implies self.line_view(false, c)[y] == pre.line_view(false, c)[y] by {
                                lemma_index(h, w, y, c);
                                if self.grid@[at(w, y, c)] != gb[at(w, y, c)] {
                                    assert(used.1@[c]);
                                }
                            }
                            assert(self.line_view(false, c) =~= pre.line_view(false, c));
                        }
                        assert forall|y: int, x: int|
                            0 <= y < h && 0 <= x < w && #[trigger] self.grid@[at(w, y, x)] != g0[at(w, y, x)] implies (used.0@[y]
                                || self.line_fixed(true, y)) && (used.1@[x] || self.line_fixed(false, x)) by {
                            if self.grid@[at(w, y, x)] == gb[at(w, y, x)] {
                                assert(gb[at(w, y, x)] != g0[at(w, y, x)]);
                                if !used.0@[y] && !(is_row && idx == y) {
                                    assert(!u_pre.0@[y]);
                                    assert(pre.line_fixed(true, y));
                                }
                                if !used.1@[x] && !(!is_row && idx == x) {
                                    assert(!u_pre.1@[x]);
                                    assert(pre.line_fixed(false, x));
                                }
                            }
                        }
                    }
                },
            }
        }
        proof {
            assert forall|b: Seq<bool>| old(self).solves(b) && board_fits(b, old(self).grid@, old(self).h as int, old(self).w as int)
                implies board_fits(b, self.grid@, old(self).h as int, old(self).w as int) by {
                assert(self.solves(b));
            }
            if board_decided(g0, h, w) {
                assert forall|y: int, x: int| 0 <= y < h && 0 <= x < w implies (#[trigger] self.grid@[at(w, y, x)]) is Some by {
                    assert(g0[at(w, y, x)] is Some);
                }
            }
        }
        proof {
            let f = filled_of(self.grid@);
            assert forall|y: int| 0 <= y < h implies hint_view(#[trigger] rs[y]) == hint_view(self.hints.0@[y]@) by {
                assert(rs[y] == self.hints.0@[y]@);
            }
            assert forall|x: int| 0 <= x < w implies hint_view(#[trigger] cs[x]) == hint_view(self.hints.1@[x]@) by {
                assert(cs[x] == self.hints.1@[x]@);
            }
            if grid_consistent(self.grid@, h, w, rs, cs) {
                assert forall|y: int| 0 <= y < h implies runs(#[trigger] row_of(f, w, y)) == hint_view(self.hints.0@[y]@) by {
                    assert(hint_view(rs[y]) == hint_view(self.hints.0@[y]@));
                }
                assert forall|x: int| 0 <= x < w implies runs(#[trigger] col_of(f, h, w, x)) == hint_view(self.hints.1@[x]@) by {
                    assert(hint_view(cs[x]) == hint_view(self.hints.1@[x]@));
                }
            }
            if self.solves(f) {
                assert forall|y: int| 0 <= y < h implies runs(#[trigger] row_of(f, w, y)) == hint_view(rs[y]) by {
                    assert(hint_view(rs[y]) == hint_view(self.hints.0@[y]@));
                }
                assert forall|x: int| 0 <= x < w implies runs(#[trigger] col_of(f, h, w, x)) == hint_view(cs[x]) by {
                    assert(hint_view(cs[x]) == hint_view(self.hints.1@[x]@));
                }
            }
            assert(grid_consistent(self.grid@, h, w, rs, cs) == self.solves(f));
        }
        if self.decided() {
            if self.consistent() {
                proof {
                    self.lemma_decided_fit_is_grid(filled_of(self.grid@));
                }
                Outcome::Solved
            } else {
                proof {
                    assert forall|b: Seq<bool>| old(self).solves(b) implies !board_fits(b, old(self).grid@, old(self).h as int, old(self).w as int) by {
                        assert(self.solves(b));
                        if board_fits(b, g0, h, w) {
                            assert(board_fits(b, self.grid@, h, w));
                            self.lemma_decided_fit_is_grid(b);
                        }
                    }
                }
                Outcome::Infeasible
            }
        } else {
            Outcome::Stalled
        }
    }

    /// On a decided board, a board that fits it has the same rows and
    /// columns as its filled cells.
    proof fn lemma_decided_fit_is_grid(&self, b: Seq<bool>)
        requires
            self.wf(),
            board_decided(self.grid@, self.h as int, self.w as int),
            b.len() == self.h * self.w,
            board_fits(b, self.grid@, self.h as int, self.w as int) || b == filled_of(self.grid@),
        ensures
            self.solves(b) == self.solves(filled_of(self.grid@)),
            board_fits(filled_of(self.grid@), self.grid@, self.h as int, self.w as int),
    {
        let h = self.h as int;
        let w = self.w as int;
        let f = filled_of(self.grid@);
        assert forall|y: int, x: int| 0 <= y < h && 0 <= x < w implies #[trigger] b[at(w, y, x)] == f[at(w, y, x)] by {
            lemma_index(h, w, y, x);
            assert(self.grid@[at(w, y, x)] is Some);
        }
        assert forall|y: int| 0 <= y < h implies #[trigger] row_of(b, w, y) == row_of(f, w, y) by {
            assert forall|x: int| 0 <= x < w implies row_of(b, w, y)[x] == row_of(f, w, y)[x] by {
                assert(b[at(w, y, x)] == f[at(w, y, x)]);
            }
            assert(row_of(b, w, y) =~= row_of(f, w, y));
        }
        assert forall|x: int| 0 <= x < w implies #[trigger] col_of(b, h, w, x) == col_of(f, h, w, x) by {
            assert forall|y: int| 0 <= y < h implies col_of(b, h, w, x)[y] == col_of(f, h, w, x)[y] by {
                assert(b[at(w, y, x)] == f[at(w, y, x)]);
            }
            assert(col_of(b, h, w, x) =~= col_of(f, h, w, x));
        }
        assert(f.len() == h * w);
        if self.solves(b) {
            assert forall|y: int| 0 <= y < h implies runs(#[trigger] row_of(f, w, y)) == hint_view(self.hints.0@[y]@) by {
                assert(row_of(b, w, y) == row_of(f, w, y));
            }
            assert forall|x: int| 0 <= x < w implies runs(#[trigger] col_of(f, h, w, x)) == hint_view(self.hints.1@[x]@) by {
                assert(col_of(b, h, w, x) == col_of(f, h, w, x));
            }
        }
        if self.solves(f) {
            assert forall|y: int| 0 <= y < h implies runs(#[trigger] row_of(b, w, y)) == hint_view(self.hints.0@[y]@) by {
                assert(row_of(b, w, y) == row_of(f, w, y));
            }
            assert forall|x: int| 0 <= x < w implies runs(#[trigger] col_of(b, h, w, x)) == hint_view(self.hints.1@[x]@) by {
                assert(col_of(b, h, w, x) == col_of(f, h, w, x));
            }
        }
        assert forall|y: int, x: int| 0 <= y < h && 0 <= x < w && (#[trigger] self.grid@[at(w, y, x)]) is Some
            implies f[at(w, y, x)] == self.grid@[at(w, y, x)]->Some_0 by {
            lemma_index(h, w, y, x);
        }
    }

    /// Whether the filled cells of the grid match every row and column hint.
    fn consistent(&self) -> (r: bool)
        requires
            self.wf(),
        ensures
            r == self.solves(filled_of(self.grid@)),
    {
        let ghost f = filled_of(self.grid@);
        let ghost h = self.h as int;
        let ghost w = self.w as int;
        let mut i: usize = 0;
        while i < self.h
            invariant
                self.wf(),
                h == self.h,
                w == self.w,
                f == filled_of(self.grid@),
                i <= self.h,
                forall|y: int| 0 <= y < h && (true ==> y < i) ==> runs(#[trigger] row_of(f, w, y)) == hint_view(self.hints.0@[y]@),
                forall|x: int| 0 <= x < w && !true && x < i ==> runs(#[trigger] col_of(f, h, w, x)) == hint_view(self.hints.1@[x]@),
            decreases self.h - i,
        {
            let line = self.line(true, i);
            let bools = filled_line(&line);
            let rv = compress(&bools);
            let ok = same_hint(&rv, &self.hints.0[i]);
            proof {
                assert forall|k: int| 0 <= k < bools@.len() implies bools@[k] == row_of(f, w, i as int)[k] by {
                    lemma_index(h, w, i as int, k);
                }
                assert(bools@ =~= row_of(f, w, i as int));
            }
            if !ok {
                return false;
            }
            i += 1;
        }
        let mut i: usize = 0;
        while i < self.w
            invariant
                self.wf(),
                h == self.h,
                w == self.w,
                f == filled_of(self.grid@),
                i <= self.w,
                forall|y: int| 0 <= y < h && (false ==> y < i) ==> runs(#[trigger] row_of(f, w, y)) == hint_view(self.hints.0@[y]@),
                forall|x: int| 0 <= x < w && !false && x < i ==> runs(#[trigger] col_of(f, h, w, x)) == hint_view(self.hints.1@[x]@),
            decreases self.w - i,
        {
            let line = self.line(false, i);
            let bools = filled_line(&line);
            let rv = compress(&bools);
            let ok = same_hint(&rv, &self.hints.1[i]);
            proof {
                assert forall|k: int| 0 <= k < bools@.len() implies bools@[k] == col_of(f, h, w, i as int)[k] by {
                    lemma_index(h, w, k, i as int);
                }
                assert(bools@ =~= col_of(f, h, w, i as int));
            }
            if !ok {
                return false;
            }
            i += 1;
        }
        true
    }
}

/// The filled/empty pattern of a line, unknown cells read as empty.
fn filled_line(line: &Vec<Option<bool>>) -> (r: Vec<bool>)
    ensures
        r@ == filled_of(line@),
{
    let mut r: Vec<bool> = Vec::with_capacity(line.len());
    let mut k: usize = 0;
    while k < line.len()
        invariant
            k <= line@.len(),
            r@.len() == k,
            forall|j: int| 0 <= j < k ==> r@[j] == (line@[j] == Some(true)),
        decreases line@.len() - k,
    {
        r.push(line[k] == Some(true));
        k += 1;
    }
    proof {
        assert(r@ =~= filled_of(line@));
    }
    r
}

/// Whether every entry of `hint` is positive.
fn all_positive_vec(hint: &Vec<usize>) -> (r: bool)
    ensures
        r == positive(hint@),
{
    let mut k: usize = 0;
    while k < hint.len()
        invariant
            k <= hint@.len(),
            forall|j: int| 0 <= j < k ==> hint@[j] > 0,
        decreases hint@.len() - k,
    {
        if hint[k] == 0 {
            return false;
        }
        k += 1;
    }
    true
}

proof fn lemma_keeps_chain(a: Seq<Option<bool>>, b: Seq<Option<bool>>, c: Seq<Option<bool>>, h: int, w: int)
    requires
        board_keeps(a, b, h, w),
        board_keeps(b, c, h, w),
    ensures
        board_keeps(a, c, h, w),
{
    assert forall|y: int, x: int| 0 <= y < h && 0 <= x < w && (#[trigger] a[at(w, y, x)]) is Some implies c[at(w, y, x)] == a[at(w, y, x)] by {
        assert(b[at(w, y, x)] == a[at(w, y, x)]);
    }
}

} // verus!
