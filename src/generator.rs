//! The puzzle generator: draws seeded random boards until one yields hints
//! that the propagation scheduler resolves completely.
use vstd::prelude::*;
use rand::Rng;
use rand::SeedableRng;
use crate::line::{compress, hint_view, runs};
use crate::solver::{schedule, 
    at, board_decided, board_fits, col_of, is_solution, lemma_index, row_of, Hints, Outcome, Solver,
};

verus! {

/// The coin drawn from the ChaCha20 stream of `seed` at word position `pos`.
pub uninterp spec fn coin(seed: u64, pos: u128) -> bool;

/// Relies on rand_chacha's ChaCha20Rng: seeded by `seed_from_u64(seed)` and
/// moved by `set_word_pos(pos)`, its next `Rng::gen_ratio(1, 2)` reads one
/// `u64` from the stream, so the coin depends on the seed and the position
/// alone.
#[verifier::external_body]
fn coin_at(seed: u64, pos: u128) -> (r: bool)
    ensures
        r == coin(seed, pos),
{
    let mut rng = rand_chacha::ChaCha20Rng::seed_from_u64(seed);
    rng.set_word_pos(pos);
    rng.gen_ratio(1, 2)
}

/// The `n` coins of the stream of `seed` that follow the first `start`
/// draws; each draw takes two 32-bit words.
pub open spec fn drawn(seed: u64, start: int, n: int) -> Seq<bool> {
    Seq::new(n as nat, |k: int| coin(seed, (2 * (start + k)) as u128))
}

/// No row or column hint is empty or one run as long as its line.
pub open spec fn nondegenerate(hints: Hints, h: int, w: int) -> bool {
    &&& forall|y: int|
        0 <= y < h ==> (#[trigger] hints.0@[y])@.len() > 0 && !((hints.0@[y])@.len() == 1
            && (hints.0@[y])@[0] == w)
    &&& forall|x: int|
        0 <= x < w ==> (#[trigger] hints.1@[x])@.len() > 0 && !((hints.1@[x])@.len() == 1
            && (hints.1@[x])@[0] == h)
}

/// The row hints of an `h`×`w` filled/empty board.
pub open spec fn board_rows(b: Seq<bool>, h: int, w: int) -> Seq<Seq<usize>> {
    Seq::new(h as nat, |y: int| runs(row_of(b, w, y)).map_values(|v: int| v as usize))
}

/// The column hints of an `h`×`w` filled/empty board.
pub open spec fn board_cols(b: Seq<bool>, h: int, w: int) -> Seq<Seq<usize>> {
    Seq::new(w as nat, |x: int| runs(col_of(b, h, w, x)).map_values(|v: int| v as usize))
}

/// No hint is empty or one run as long as its line.
pub open spec fn nondegenerate_seqs(rows: Seq<Seq<usize>>, cols: Seq<Seq<usize>>, h: int, w: int) -> bool {
    &&& forall|y: int| 0 <= y < h ==> (#[trigger] rows[y]).len() > 0 && !(rows[y].len() == 1 && rows[y][0] == w)
    &&& forall|x: int| 0 <= x < w ==> (#[trigger] cols[x]).len() > 0 && !(cols[x].len() == 1 && cols[x][0] == h)
}

/// The generator accepts board `b`: no line is degenerate, and the
/// scheduler, started from an empty board on its hints, reaches `Solved`
/// with exactly `b`.
pub open spec fn accepted(b: Seq<bool>, h: int, w: int) -> bool {
    let rows = board_rows(b, h, w);
    let cols = board_cols(b, h, w);
    let res = schedule(Seq::new((h * w) as nat, |p: int| None::<bool>), h, w, rows, cols);
    &&& nondegenerate_seqs(rows, cols, h, w)
    &&& res.0 is Solved
    &&& forall|p: int| 0 <= p < h * w ==> res.1[p] == Some(b[p])
}

/// Draws `n` coins of the stream of `seed`, skipping the first `start` draws.
fn draw_board(seed: u64, start: u64, n: usize) -> (r: Vec<bool>)
    requires
        start + n <= u64::MAX,
    ensures
        r@ == drawn(seed, start as int, n as int),
{
    let mut r: Vec<bool> = Vec::with_capacity(n);
    let mut k: usize = 0;
    while k < n
        invariant
            start + n <= u64::MAX,
            k <= n,
            r@.len() == k,
            forall|j: int| 0 <= j < k ==> r@[j] == coin(seed, (2 * (start + j)) as u128),
        decreases n - k,
    {
        let pos: u128 = 2 * (start as u128 + k as u128);
        r.push(coin_at(seed, pos));
        k += 1;
    }
    proof {
        assert(r@ =~= drawn(seed, start as int, n as int));
    }
    r
}

/// Copies line `idx` (a row when `is_row`, else a column) of an `h`×`w`
/// filled/empty board.
fn board_line(b: &Vec<bool>, h: usize, w: usize, is_row: bool, idx: usize) -> (r: Vec<bool>)
    requires
        b@.len() == h * w,
        h * w <= usize::MAX,
        is_row ==> idx < h,
        !is_row ==> idx < w,
    ensures
        r@ == if is_row {
            row_of(b@, w as int, idx as int)
        } else {
            col_of(b@, h as int, w as int, idx as int)
        },
{
    let len = if is_row { w } else { h };
    let mut r: Vec<bool> = Vec::with_capacity(len);
    let mut k: usize = 0;
    while k < len
        invariant
            b@.len() == h * w,
            h * w <= usize::MAX,
            is_row ==> idx < h,
            !is_row ==> idx < w,
            len == if is_row { w } else { h },
            k <= len,
            r@.len() == k,
            forall|j: int|
                0 <= j < k ==> r@[j] == if is_row {
                    b@[at(w as int, idx as int, j)]
                } else {
                    b@[at(w as int, j, idx as int)]
                },
        decreases len - k,
    {
        let (y, x) = if is_row { (idx, k) } else { (k, idx) };
        proof {
            lemma_index(h as int, w as int, y as int, x as int);
        }
        r.push(b[y * w + x]);
        k += 1;
    }
    proof {
        if is_row {
            assert(r@ =~= row_of(b@, w as int, idx as int));
        } else {
            assert(r@ =~= col_of(b@, h as int, w as int, idx as int));
        }
    }
    r
}

/// The row and column hints of an `h`×`w` filled/empty board.
pub fn board_hints(b: &Vec<bool>, h: usize, w: usize) -> (r: Hints)
    requires
        b@.len() == h * w,
        h * w <= usize::MAX,
    ensures
        is_solution(b@, h as int, w as int, r.0@, r.1@),
        r.0@.len() == h,
        r.1@.len() == w,
{
    let mut rows: Vec<Vec<usize>> = Vec::with_capacity(h);
    let mut y: usize = 0;
    while y < h
        invariant
            b@.len() == h * w,
            h * w <= usize::MAX,
            y <= h,
            rows@.len() == y,
            forall|j: int| 0 <= j < y ==> runs(row_of(b@, w as int, j)) == hint_view(#[trigger] rows@[j]@),
        decreases h - y,
    {
        let line = board_line(b, h, w, true, y);
        rows.push(compress(&line));
        y += 1;
    }
    let mut cols: Vec<Vec<usize>> = Vec::with_capacity(w);
    let mut x: usize = 0;
    while x < w
        invariant
            b@.len() == h * w,
            h * w <= usize::MAX,
            x <= w,
            cols@.len() == x,
            forall|j: int| 0 <= j < x ==> runs(col_of(b@, h as int, w as int, j)) == hint_view(#[trigger] cols@[j]@),
        decreases w - x,
    {
        let line = board_line(b, h, w, false, x);
        cols.push(compress(&line));
        x += 1;
    }
    (rows, cols)
}

/// Whether one hint is empty or a single run of length `full`.
fn degenerate(hint: &Vec<usize>, full: usize) -> (r: bool)
    ensures
        r == (hint@.len() == 0 || (hint@.len() == 1 && hint@[0] == full)),
{
    hint.len() == 0 || (hint.len() == 1 && hint[0] == full)
}

/// Whether no row or column hint is degenerate.
fn check_nondegenerate(hints: &Hints, h: usize, w: usize) -> (r: bool)
    requires
        hints.0@.len() == h,
        hints.1@.len() == w,
    ensures
        r == nondegenerate(*hints, h as int, w as int),
{
    let mut y: usize = 0;
    while y < h
        invariant
            hints.0@.len() == h,
            y <= h,
            forall|j: int|
                0 <= j < y ==> (#[trigger] hints.0@[j])@.len() > 0 && !((hints.0@[j])@.len() == 1
                    && (hints.0@[j])@[0] == w),
        decreases h - y,
    {
        if degenerate(&hints.0[y], w) {
            return false;
        }
        y += 1;
    }
    let mut x: usize = 0;
    while x < w
        invariant
            hints.1@.len() == w,
            x <= w,
            forall|j: int|
                0 <= j < h ==> (#[trigger] hints.0@[j])@.len() > 0 && !((hints.0@[j])@.len() == 1
                    && (hints.0@[j])@[0] == w),
            forall|j: int|
                0 <= j < x ==> (#[trigger] hints.1@[j])@.len() > 0 && !((hints.1@[j])@.len() == 1
                    && (hints.1@[j])@[0] == h),
        decreases w - x,
    {
        if degenerate(&hints.1[x], h) {
            return false;
        }
        x += 1;
    }
    true
}

/// Whether the decided grid holds exactly the board `b`.
fn grid_matches(grid: &Vec<Option<bool>>, b: &Vec<bool>) -> (r: bool)
    requires
        grid@.len() == b@.len(),
    ensures
        r == forall|p: int| 0 <= p < b@.len() ==> grid@[p] == Some(b@[p]),
{
    let mut p: usize = 0;
    while p < b.len()
        invariant
            grid@.len() == b@.len(),
            p <= b@.len(),
            forall|j: int| 0 <= j < p ==> grid@[j] == Some(b@[j]),
        decreases b@.len() - p,
    {
        if grid[p] != Some(b[p]) {
            return false;
        }
        p += 1;
    }
    true
}

/// Generates an `h`×`w` puzzle from `seed`: draws boards from the seeded
/// stream, one after another, until one has no degenerate line and the
/// propagation scheduler, started from an empty board, decides every cell of
/// it from its hints. Returns that board (row-major) and its hints; the board
/// is then the only one that the hints describe. `None` only once the stream
/// positions that a `u64` counts are used up.
pub fn gen_inner(h: usize, w: usize, seed: u64) -> (r: Option<(Vec<bool>, Hints)>)
    requires
        h > 0,
        w > 0,
        h * w <= usize::MAX,
    ensures
        r is Some ==> {
            let (b, hints) = r->Some_0;
            &&& b@.len() == h * w
            &&& hints.0@.len() == h
            &&& hints.1@.len() == w
            &&& is_solution(b@, h as int, w as int, hints.0@, hints.1@)
            &&& nondegenerate(hints, h as int, w as int)
            &&& forall|b2: Seq<bool>| is_solution(b2, h as int, w as int, hints.0@, hints.1@) ==> b2 == b@
            &&& exists|k: int|
                0 <= k && b@ == #[trigger] drawn(seed, k * (h * w), (h * w) as int) && accepted(b@, h as int, w as int)
                    && forall|j: int| 0 <= j < k ==> !accepted(#[trigger] drawn(seed, j * (h * w), (h * w) as int), h as int, w as int)
        },
        r is None ==> forall|k: int|
            0 <= k && (k + 1) * (h * w) <= u64::MAX ==> !accepted(#[trigger] drawn(seed, k * (h * w), (h * w) as int), h as int, w as int),
{
    let n = h * w;
    proof {
        assert(n > 0) by (nonlinear_arith)
            requires
                h > 0,
                w > 0,
                n == h * w,
        ;
    }
    let mut start: u64 = 0;
    let ghost mut k: int = 0;
    while n as u64 <= u64::MAX - start
        invariant
            n == h * w,
            n > 0,
            h > 0,
            w > 0,
            h * w <= usize::MAX,
            0 <= k,
            start == k * n,
            forall|j: int| 0 <= j < k ==> !accepted(#[trigger] drawn(seed, j * n, n as int), h as int, w as int),
        decreases u64::MAX - start,
    {
        let b = draw_board(seed, start, n);
        let hints = board_hints(&b, h, w);
        let ghost rows = board_rows(b@, h as int, w as int);
        let ghost cols = board_cols(b@, h as int, w as int);
        proof {
            assert forall|y: int| 0 <= y < h implies #[trigger] hints.0@[y]@ == rows[y] by {
                assert(hint_view(hints.0@[y]@) == runs(row_of(b@, w as int, y)));
                assert(hints.0@[y]@ =~= rows[y]) by {
                    assert forall|j: int| 0 <= j < hints.0@[y]@.len() implies hints.0@[y]@[j] == rows[y][j] by {
                        assert(hint_view(hints.0@[y]@)[j] == hints.0@[y]@[j] as int);
                    }
                }
            }
            assert forall|x: int| 0 <= x < w implies #[trigger] hints.1@[x]@ == cols[x] by {
                assert(hint_view(hints.1@[x]@) == runs(col_of(b@, h as int, w as int, x)));
                assert(hints.1@[x]@ =~= cols[x]) by {
                    assert forall|j: int| 0 <= j < hints.1@[x]@.len() implies hints.1@[x]@[j] == cols[x][j] by {
                        assert(hint_view(hints.1@[x]@)[j] == hints.1@[x]@[j] as int);
                    }
                }
            }
            assert(nondegenerate(hints, h as int, w as int) == nondegenerate_seqs(rows, cols, h as int, w as int));
        }
        if check_nondegenerate(&hints, h, w) {
            let mut solver = Solver::new(h, w, hints);
            proof {
                assert(solver.rows_seq() =~= rows);
                assert(solver.cols_seq() =~= cols);
                assert(solver.grid@ =~= Seq::new((h * w) as nat, |p: int| None::<bool>));
            }
            let ghost g_init = solver.grid@;
            let ghost pre = solver;
            let outcome = solver.solve();
            if outcome == Outcome::Solved && grid_matches(&solver.grid, &b) {
                let hints = solver.hints;
                proof {
                    assert forall|b2: Seq<bool>| is_solution(b2, h as int, w as int, hints.0@, hints.1@)
                        implies b2 == b@ by {
                        assert forall|y: int, x: int| 0 <= y < h && 0 <= x < w && (#[trigger] g_init[at(w as int, y, x)]) is Some
                            implies b2[at(w as int, y, x)] == g_init[at(w as int, y, x)]->Some_0 by {
                            lemma_index(h as int, w as int, y, x);
                        }
                        assert(board_fits(b2, g_init, h as int, w as int));
                        assert(pre.solves(b2));
                        assert(board_fits(b2, solver.grid@, h as int, w as int));
                        assert forall|p: int| 0 <= p < b@.len() implies b2[p] == b@[p] by {
                            let y = p / (w as int);
                            let x = p % (w as int);
                            assert(p == at(w as int, y, x) && 0 <= y < h && 0 <= x < w) by (nonlinear_arith)
                                requires
                                    0 <= p < h * w,
                                    y == p / (w as int),
                                    x == p % (w as int),
                            ;
                            assert(solver.grid@[at(w as int, y, x)] == Some(b@[p]));
                        }
                        assert(b2 =~= b@);
                    }
                }
                proof {
                    assert(accepted(b@, h as int, w as int));
                }
                return Some((b, hints));
            }
            proof {
                assert(!accepted(b@, h as int, w as int));
            }
        }
        proof {
            assert(b@ == drawn(seed, k * n, n as int));
            assert(!accepted(b@, h as int, w as int));
        }
        start = start + n as u64;
        proof {
            k = k + 1;
            assert(start == k * n) by (nonlinear_arith)
                requires
                    start == (k - 1) * n + n,
            ;
        }
    }
    proof {
        assert forall|j: int| 0 <= j && (j + 1) * (h * w) <= u64::MAX implies !accepted(#[trigger] drawn(seed, j * (h * w), (h * w) as int), h as int, w as int) by {
            if j >= k {
                assert((j + 1) * n >= (k + 1) * n) by (nonlinear_arith)
                    requires
                        j >= k,
                        n > 0,
                ;
                assert((k + 1) * n == k * n + n) by (nonlinear_arith);
                assert(start + n > u64::MAX);
            } else {
                assert(drawn(seed, j * (h * w), (h * w) as int) == drawn(seed, j * n, n as int));
            }
        }
    }
    None
}

/// Generation is deterministic: in the stream of one seed, two draws that
/// are each the first accepted one are the same draw, so `gen_inner` returns
/// the same board for the same arguments.
pub proof fn law_first_accepted_is_unique(seed: u64, h: int, w: int, k1: int, k2: int)
    requires
        0 <= k1,
        0 <= k2,
        accepted(drawn(seed, k1 * (h * w), h * w), h, w),
        accepted(drawn(seed, k2 * (h * w), h * w), h, w),
        forall|j: int| 0 <= j < k1 ==> !accepted(#[trigger] drawn(seed, j * (h * w), h * w), h, w),
        forall|j: int| 0 <= j < k2 ==> !accepted(#[trigger] drawn(seed, j * (h * w), h * w), h, w),
    ensures
        k1 == k2,
        drawn(seed, k1 * (h * w), h * w) == drawn(seed, k2 * (h * w), h * w),
{
}

/// The hints that describe a board are determined by it: every hint pair
/// with one entry per row and per column that the board satisfies is the
/// board's own.
pub proof fn law_hints_follow_board(b: Seq<bool>, h: int, w: int, hints: Hints)
    requires
        hints.0@.len() == h,
        hints.1@.len() == w,
        is_solution(b, h, w, hints.0@, hints.1@),
    ensures
        forall|y: int| 0 <= y < h ==> (#[trigger] hints.0@[y])@ == board_rows(b, h, w)[y],
        forall|x: int| 0 <= x < w ==> (#[trigger] hints.1@[x])@ == board_cols(b, h, w)[x],
{
    assert forall|y: int| 0 <= y < h implies (#[trigger] hints.0@[y])@ == board_rows(b, h, w)[y] by {
        assert(hint_view(hints.0@[y]@) == runs(row_of(b, w, y)));
        assert(hints.0@[y]@ =~= board_rows(b, h, w)[y]) by {
            assert forall|j: int| 0 <= j < hints.0@[y]@.len() implies hints.0@[y]@[j] == board_rows(b, h, w)[y][j] by {
                assert(hint_view(hints.0@[y]@)[j] == hints.0@[y]@[j] as int);
            }
        }
    }
    assert forall|x: int| 0 <= x < w implies (#[trigger] hints.1@[x])@ == board_cols(b, h, w)[x] by {
        assert(hint_view(hints.1@[x]@) == runs(col_of(b, h, w, x)));
        assert(hints.1@[x]@ =~= board_cols(b, h, w)[x]) by {
            assert forall|j: int| 0 <= j < hints.1@[x]@.len() implies hints.1@[x]@[j] == board_cols(b, h, w)[x][j] by {
                assert(hint_view(hints.1@[x]@)[j] == hints.1@[x]@[j] as int);
            }
        }
    }
}

} // verus!
