//! Interactive assist: the weaker line rules (full match from either side,
//! confirmed runs from the front and from the back), applied after a player
//! sets one cell, and the mask of hint entries that the board already
//! confirms.
use vstd::prelude::*;
use crate::deduce::{reversed, Infeasible};
use crate::line::{
    agrees, compress, count_filled, filled_of, hint_view, keeps, known_filled, lemma_open_run,
    lemma_picked, lemma_runs_reverse, lemma_runs_split, lemma_total_runs, runs, runs_with, total,
    closed_runs, trailing_run,
};
use crate::solver::{lemma_unknowns_nonneg, lemma_unknowns_update, unknowns};
use std::collections::VecDeque;

verus! {

/// A hint of `i32` entries as integers.
pub open spec fn ints(h: Seq<i32>) -> Seq<int> {
    h.map_values(|v: i32| v as int)
}

/// The filled/empty pattern of `line` with every unknown cell read as `v`.
pub open spec fn read_unknown_as(line: Seq<Option<bool>>, v: bool) -> Seq<bool> {
    line.map_values(|c: Option<bool>| if c is Some { c->Some_0 } else { v })
}

/// `line` with every unknown cell decided as `v`.
pub open spec fn decide_unknown(line: Seq<Option<bool>>, v: bool) -> Seq<Option<bool>> {
    line.map_values(|c: Option<bool>| if c is Some { c } else { Some(v) })
}

/// Some cell of `line` is unknown.
pub open spec fn has_unknown(line: Seq<Option<bool>>) -> bool {
    exists|k: int| 0 <= k < line.len() && line[k] is None
}

/// Position of the first unknown cell, or the length when there is none.
pub open spec fn first_unknown(line: Seq<Option<bool>>) -> int
    decreases line.len(),
{
    if line.len() == 0 {
        0
    } else if line[0] is None {
        0
    } else {
        1 + first_unknown(line.drop_first())
    }
}

/// Runs of the decided cells before the first unknown cell.
pub open spec fn known_prefix_runs(line: Seq<Option<bool>>) -> Seq<int> {
    runs(filled_of(line.subrange(0, first_unknown(line))))
}

/// Entries `0..=i` of `r` and `h` exist and agree.
pub open spec fn agree_through(r: Seq<int>, h: Seq<int>, i: int) -> bool
    decreases i,
{
    &&& 0 <= i < r.len()
    &&& i < h.len()
    &&& r[i] == h[i]
    &&& (i == 0 || agree_through(r, h, i - 1))
}

/// The line has more filled cells than its hint allows.
pub open spec fn overfilled(line: Seq<Option<bool>>, h: Seq<int>) -> bool {
    total(h) < count_filled(filled_of(line))
}

/// Entry `i` is confirmed from the front: the runs before the first unknown
/// cell match the hint up to and including entry `i`.
pub open spec fn front_marks(line: Seq<Option<bool>>, h: Seq<int>) -> Seq<bool> {
    Seq::new(h.len(), |i: int| agree_through(known_prefix_runs(line), h, i))
}

/// Which hint entries the line confirms: none on an overfilled line; on a
/// decided line all of them if its runs match; all of them if reading every
/// unknown cell as filled, or every one as empty, matches; otherwise those
/// confirmed from the front or from the back.
pub open spec fn hint_mask(line: Seq<Option<bool>>, h: Seq<int>) -> Seq<bool> {
    if overfilled(line, h) {
        Seq::new(h.len(), |i: int| false)
    } else if !has_unknown(line) {
        Seq::new(h.len(), |i: int| runs(filled_of(line)) == h)
    } else if runs(read_unknown_as(line, true)) == h || runs(read_unknown_as(line, false)) == h {
        Seq::new(h.len(), |i: int| true)
    } else {
        let front = front_marks(line, h);
        let back = front_marks(line.reverse(), h.reverse()).reverse();
        Seq::new(h.len(), |i: int| front[i] || back[i])
    }
}

/// The front rule: when the runs before the first unknown cell are a proper
/// prefix of the hint and a filled cell stands just before it, that cell
/// closes a run, so the unknown cell is empty.
pub open spec fn front_rule(line: Seq<Option<bool>>, h: Seq<int>) -> Seq<Option<bool>> {
    let p = first_unknown(line);
    let r = known_prefix_runs(line);
    if 0 < p < line.len() && line[p - 1] == Some(true) && r.len() < h.len() && r == h.subrange(
        0,
        r.len() as int,
    ) {
        line.update(p, Some(false))
    } else {
        line
    }
}

/// One pass of the weak rules over a line: nothing on an overfilled or
/// decided line; else fill the unknown cells when reading them all as filled
/// matches, empty them when reading them all as empty matches, then the
/// front rule, then the front rule on the reversed line.
pub open spec fn weak_pass(line: Seq<Option<bool>>, h: Seq<int>) -> Seq<Option<bool>> {
    if overfilled(line, h) || !has_unknown(line) {
        line
    } else {
        let l1 = if runs(read_unknown_as(line, true)) == h {
            decide_unknown(line, true)
        } else {
            line
        };
        let l2 = if runs(read_unknown_as(l1, false)) == h {
            decide_unknown(l1, false)
        } else {
            l1
        };
        let l3 = front_rule(l2, h);
        front_rule(l3.reverse(), h.reverse()).reverse()
    }
}

proof fn lemma_first_unknown(line: Seq<Option<bool>>, p: int)
    requires
        0 <= p <= line.len(),
        forall|k: int| 0 <= k < p ==> line[k] is Some,
        p == line.len() || line[p] is None,
    ensures
        first_unknown(line) == p,
    decreases p,
{
    if p > 0 {
        lemma_first_unknown(line.drop_first(), p - 1);
    }
}

/// Position of the first unknown cell, or the length when there is none.
fn find_unknown(line: &Vec<Option<bool>>) -> (r: usize)
    ensures
        r == first_unknown(line@),
        r <= line@.len(),
        r < line@.len() <==> has_unknown(line@),
{
    let mut p: usize = 0;
    while p < line.len() && line[p].is_some()
        invariant
            p <= line@.len(),
            forall|k: int| 0 <= k < p ==> line@[k] is Some,
        decreases line@.len() - p,
    {
        p += 1;
    }
    proof {
        lemma_first_unknown(line@, p as int);
    }
    p
}

/// The filled/empty pattern of `line[0..len]`, unknown cells read as `v`.
fn read_as(line: &Vec<Option<bool>>, len: usize, v: bool) -> (r: Vec<bool>)
    requires
        len <= line@.len(),
    ensures
        r@ == read_unknown_as(line@.subrange(0, len as int), v),
{
    let mut r: Vec<bool> = Vec::with_capacity(len);
    let mut k: usize = 0;
    while k < len
        invariant
            len <= line@.len(),
            k <= len,
            r@.len() == k,
            forall|j: int| 0 <= j < k ==> r@[j] == match line@[j] {
                Some(b) => b,
                None => v,
            },
        decreases len - k,
    {
        let c = match line[k] {
            Some(b) => b,
            None => v,
        };
        r.push(c);
        k += 1;
    }
    proof {
        assert(r@ =~= read_unknown_as(line@.subrange(0, len as int), v));
    }
    r
}

/// Whether runs (as `usize`) equal a hint (as `i32`).
fn same_runs(r: &Vec<usize>, h: &Vec<i32>) -> (b: bool)
    ensures
        b == (hint_view(r@) == ints(h@)),
{
    if r.len() != h.len() {
        proof {
            assert(hint_view(r@).len() != ints(h@).len());
        }
        return false;
    }
    let mut k: usize = 0;
    while k < r.len()
        invariant
            r@.len() == h@.len(),
            k <= r@.len(),
            forall|j: int| 0 <= j < k ==> r@[j] as int == h@[j] as int,
        decreases r@.len() - k,
    {
        if h[k] < 0 || r[k] as u64 != h[k] as u64 {
            proof {
                assert(hint_view(r@)[k as int] != ints(h@)[k as int]);
            }
            return false;
        }
        k += 1;
    }
    proof {
        assert(hint_view(r@) =~= ints(h@));
    }
    true
}

/// Whether the first `len` runs of `r` equal the first `len` entries of `h`.
fn same_prefix(r: &Vec<usize>, h: &Vec<i32>, len: usize) -> (b: bool)
    requires
        len <= r@.len(),
        len <= h@.len(),
    ensures
        b == forall|j: int| 0 <= j < len ==> r@[j] as int == h@[j] as int,
{
    let mut k: usize = 0;
    while k < len
        invariant
            len <= r@.len(),
            len <= h@.len(),
            k <= len,
            forall|j: int| 0 <= j < k ==> r@[j] as int == h@[j] as int,
        decreases len - k,
    {
        if h[k] < 0 || r[k] as u64 != h[k] as u64 {
            return false;
        }
        k += 1;
    }
    true
}

/// Number of cells of `line` known to be filled.
fn count_known_filled(line: &Vec<Option<bool>>) -> (r: usize)
    ensures
        r == count_filled(filled_of(line@)),
{
    let mut c: usize = 0;
    let mut k: usize = 0;
    while k < line.len()
        invariant
            k <= line@.len(),
            c <= k,
            c == count_filled(filled_of(line@.subrange(0, k as int))),
        decreases line@.len() - k,
    {
        proof {
            assert(filled_of(line@.subrange(0, k + 1)).drop_last() =~= filled_of(line@.subrange(0, k as int)));
        }
        if line[k] == Some(true) {
            c += 1;
        }
        k += 1;
    }
    proof {
        assert(line@.subrange(0, k as int) =~= line@);
    }
    c
}

/// Whether the hint's entries add up to less than `bound`.
fn total_below(h: &Vec<i32>, bound: usize) -> (r: bool)
    ensures
        r == (total(ints(h@)) < bound),
{
    let mut acc: i128 = 0;
    let mut k: usize = h.len();
    proof {
        assert(ints(h@).subrange(h@.len() as int, h@.len() as int) =~= Seq::<int>::empty());
    }
    while k > 0
        invariant
            k <= h@.len(),
            acc == total(ints(h@).subrange(k as int, h@.len() as int)),
            -0x8000_0000 * (h@.len() - k) <= acc <= 0x7fff_ffff * (h@.len() - k),
            h@.len() <= usize::MAX,
        decreases k,
    {
        k -= 1;
        proof {
            assert(ints(h@).subrange(k as int, h@.len() as int).drop_first() =~= ints(h@).subrange(
                k + 1,
                h@.len() as int,
            ));
        }
        acc = acc + h[k] as i128;
    }
    proof {
        assert(ints(h@).subrange(0, h@.len() as int) =~= ints(h@));
    }
    acc < bound as i128
}

proof fn lemma_filled_is_read_empty(s: Seq<Option<bool>>)
    ensures
        filled_of(s) == read_unknown_as(s, false),
{
    assert(filled_of(s) =~= read_unknown_as(s, false));
}

proof fn lemma_ints_reverse(h: Seq<i32>)
    ensures
        ints(h.reverse()) == ints(h).reverse(),
{
    assert(ints(h.reverse()) =~= ints(h).reverse());
}

/// The runs before the first unknown cell of `line`.
fn prefix_runs(line: &Vec<Option<bool>>) -> (r: (Vec<usize>, usize))
    ensures
        hint_view(r.0@) == known_prefix_runs(line@),
        r.1 == first_unknown(line@),
        r.1 <= line@.len(),
        r.1 < line@.len() <==> has_unknown(line@),
{
    let p = find_unknown(line);
    let prefix = read_as(line, p, false);
    proof {
        lemma_filled_is_read_empty(line@.subrange(0, p as int));
    }
    (compress(&prefix), p)
}

/// Which hint entries are confirmed from the front of `line`.
fn front_marks_of(line: &Vec<Option<bool>>, h: &Vec<i32>) -> (m: Vec<bool>)
    ensures
        m@ == front_marks(line@, ints(h@)),
{
    let (r, _) = prefix_runs(line);
    let ghost rs = known_prefix_runs(line@);
    let mut m: Vec<bool> = Vec::with_capacity(h.len());
    let mut ok = true;
    let mut i: usize = 0;
    while i < h.len()
        invariant
            hint_view(r@) == rs,
            rs == known_prefix_runs(line@),
            i <= h@.len(),
            m@.len() == i,
            ok == (i == 0 || agree_through(rs, ints(h@), i - 1)),
            forall|j: int| 0 <= j < i ==> m@[j] == agree_through(rs, ints(h@), j),
        decreases h@.len() - i,
    {
        let here = i < r.len() && h[i] >= 0 && r[i] as u64 == h[i] as u64;
        proof {
            if i < r@.len() {
                assert(rs[i as int] == r@[i as int] as int);
            }
            assert(here == (i < rs.len() && rs[i as int] == ints(h@)[i as int]));
        }
        ok = ok && here;
        m.push(ok);
        i += 1;
    }
    proof {
        assert(m@ =~= front_marks(line@, ints(h@)));
    }
    m
}

/// Which hint entries the line confirms.
pub fn mask_line(line: &Vec<Option<bool>>, h: &Vec<i32>) -> (m: Vec<bool>)
    ensures
        m@ == hint_mask(line@, ints(h@)),
{
    let n = line.len();
    let k = h.len();
    if total_below(h, count_known_filled(line)) {
        let m = vec![false; k];
        proof {
            assert(m@ =~= hint_mask(line@, ints(h@)));
        }
        return m;
    }
    let p = find_unknown(line);
    if p == n {
        let all = read_as(line, n, false);
        proof {
            assert(line@.subrange(0, n as int) =~= line@);
            lemma_filled_is_read_empty(line@);
        }
        let ok = same_runs(&compress(&all), h);
        let m = vec![ok; k];
        proof {
            assert(m@ =~= hint_mask(line@, ints(h@)));
        }
        return m;
    }
    proof {
        assert(line@.subrange(0, n as int) =~= line@);
    }
    let as_filled = read_as(line, n, true);
    let as_empty = read_as(line, n, false);
    if same_runs(&compress(&as_filled), h) || same_runs(&compress(&as_empty), h) {
        let m = vec![true; k];
        proof {
            assert(m@ =~= hint_mask(line@, ints(h@)));
        }
        return m;
    }
    let front = front_marks_of(line, h);
    let rl = reversed(line);
    let rh = reversed(h);
    let back_rev = front_marks_of(&rl, &rh);
    let back = reversed(&back_rev);
    proof {
        lemma_ints_reverse(h@);
    }
    let mut m: Vec<bool> = Vec::with_capacity(k);
    let mut i: usize = 0;
    while i < k
        invariant
            k == h@.len(),
            front@.len() == k,
            back@.len() == k,
            i <= k,
            m@.len() == i,
            forall|j: int| 0 <= j < i ==> m@[j] == (front@[j] || back@[j]),
        decreases k - i,
    {
        m.push(front[i] || back[i]);
        i += 1;
    }
    proof {
        assert(m@ =~= hint_mask(line@, ints(h@)));
    }
    m
}

/// `line` with every unknown cell decided as `v`.
fn decide_all(line: &Vec<Option<bool>>, v: bool) -> (r: Vec<Option<bool>>)
    ensures
        r@ == decide_unknown(line@, v),
{
    let mut r: Vec<Option<bool>> = Vec::with_capacity(line.len());
    let mut k: usize = 0;
    while k < line.len()
        invariant
            k <= line@.len(),
            r@.len() == k,
            forall|j: int| 0 <= j < k ==> r@[j] == if line@[j] is Some { line@[j] } else { Some(v) },
        decreases line@.len() - k,
    {
        r.push(if line[k].is_some() { line[k] } else { Some(v) });
        k += 1;
    }
    proof {
        assert(r@ =~= decide_unknown(line@, v));
    }
    r
}

/// Applies the front rule.
fn apply_front_rule(line: &Vec<Option<bool>>, h: &Vec<i32>) -> (r: Vec<Option<bool>>)
    ensures
        r@ == front_rule(line@, ints(h@)),
{
    let (runs_v, p) = prefix_runs(line);
    let ghost rs = known_prefix_runs(line@);
    let mut r = copy_line(line);
    if 0 < p && p < line.len() && line[p - 1] == Some(true) && runs_v.len() < h.len() && same_prefix(
        &runs_v,
        h,
        runs_v.len(),
    ) {
        proof {
            assert(rs =~= ints(h@).subrange(0, rs.len() as int));
        }
        r[p] = Some(false);
        return r;
    }
    proof {
        if 0 < p < line@.len() && line@[p - 1] == Some(true) && rs.len() < ints(h@).len() && rs
            == ints(h@).subrange(0, rs.len() as int) {
            assert forall|j: int| 0 <= j < runs_v@.len() implies runs_v@[j] as int == h@[j] as int by {
                assert(rs[j] == ints(h@).subrange(0, rs.len() as int)[j]);
            }
        }
    }
    r
}

/// A copy of `line`.
fn copy_line(line: &Vec<Option<bool>>) -> (r: Vec<Option<bool>>)
    ensures
        r@ == line@,
{
    let mut r: Vec<Option<bool>> = Vec::with_capacity(line.len());
    let mut k: usize = 0;
    while k < line.len()
        invariant
            k <= line@.len(),
            r@.len() == k,
            forall|j: int| 0 <= j < k ==> r@[j] == line@[j],
        decreases line@.len() - k,
    {
        r.push(line[k]);
        k += 1;
    }
    proof {
        assert(r@ =~= line@);
    }
    r
}

/// One pass of the weak rules over `line`.
pub fn weak_pass_line(line: &Vec<Option<bool>>, h: &Vec<i32>) -> (r: Vec<Option<bool>>)
    ensures
        r@ == weak_pass(line@, ints(h@)),
{
    let n = line.len();
    let p = find_unknown(line);
    if total_below(h, count_known_filled(line)) || p == n {
        return copy_line(line);
    }
    proof {
        assert(line@.subrange(0, n as int) =~= line@);
    }
    let as_filled = read_as(line, n, true);
    let l1 = if same_runs(&compress(&as_filled), h) {
        decide_all(line, true)
    } else {
        copy_line(line)
    };
    proof {
        assert(l1@.subrange(0, n as int) =~= l1@);
    }
    let as_empty = read_as(&l1, n, false);
    let l2 = if same_runs(&compress(&as_empty), h) {
        decide_all(&l1, false)
    } else {
        l1
    };
    let l3 = apply_front_rule(&l2, h);
    let rl = reversed(&l3);
    let rh = reversed(h);
    let l4 = apply_front_rule(&rl, &rh);
    let r = reversed(&l4);
    proof {
        lemma_ints_reverse(h@);
    }
    r
}

/// Hint pairs with `i32` entries: one per row, then one per column.
pub type HintsI32 = (Vec<Vec<i32>>, Vec<Vec<i32>>);

/// `board` has `h` rows of `w` cells each.
pub open spec fn rect(board: Seq<Vec<Option<bool>>>, h: int, w: int) -> bool {
    &&& board.len() == h
    &&& forall|y: int| 0 <= y < h ==> (#[trigger] board[y])@.len() == w
}

/// Column `x` of a board.
pub open spec fn column(board: Seq<Vec<Option<bool>>>, x: int) -> Seq<Option<bool>> {
    Seq::new(board.len(), |y: int| board[y]@[x])
}

proof fn lemma_first_unknown_props(line: Seq<Option<bool>>)
    ensures
        0 <= first_unknown(line) <= line.len(),
        forall|k: int| 0 <= k < first_unknown(line) ==> line[k] is Some,
        first_unknown(line) < line.len() ==> line[first_unknown(line)] is None,
    decreases line.len(),
{
    if line.len() > 0 && line[0] is Some {
        let t = line.drop_first();
        lemma_first_unknown_props(t);
        assert forall|k: int| 0 <= k < first_unknown(line) implies line[k] is Some by {
            if k > 0 {
                assert(line[k] == t[k - 1]);
            }
        }
    }
}

proof fn lemma_front_rule_keeps(line: Seq<Option<bool>>, h: Seq<int>)
    ensures
        keeps(line, front_rule(line, h)),
{
    lemma_first_unknown_props(line);
}

/// The weak rules only decide unknown cells.
pub proof fn lemma_weak_pass_keeps(line: Seq<Option<bool>>, h: Seq<int>)
    ensures
        keeps(line, weak_pass(line, h)),
{
    if !(overfilled(line, h) || !has_unknown(line)) {
        let l1 = if runs(read_unknown_as(line, true)) == h {
            decide_unknown(line, true)
        } else {
            line
        };
        let l2 = if runs(read_unknown_as(l1, false)) == h {
            decide_unknown(l1, false)
        } else {
            l1
        };
        let l3 = front_rule(l2, h);
        lemma_front_rule_keeps(l2, h);
        lemma_front_rule_keeps(l3.reverse(), h.reverse());
        let l4 = front_rule(l3.reverse(), h.reverse());
        let n = line.len() as int;
        assert forall|k: int| 0 <= k < n && line[k] is Some implies weak_pass(line, h)[k] == line[k] by {
            assert(l1[k] == line[k]);
            assert(l2[k] == line[k]);
            assert(l3[k] == line[k]);
            assert(l3.reverse()[n - 1 - k] == l3[k]);
            assert(l4[n - 1 - k] == l3.reverse()[n - 1 - k]);
            assert(l4.reverse()[k] == l4[n - 1 - k]);
        }
    }
}

/// The hint-satisfied masks of every row and every column: a pure function
/// of the board and the hints.
pub fn get_hints_hidden(board: &Vec<Vec<Option<bool>>>, hints: &HintsI32) -> (r: (Vec<Vec<bool>>, Vec<Vec<bool>>))
    requires
        board@.len() > 0,
        rect(board@, board@.len() as int, board@[0]@.len() as int),
        hints.0@.len() == board@.len(),
        hints.1@.len() == board@[0]@.len(),
    ensures
        r.0@.len() == hints.0@.len(),
        r.1@.len() == hints.1@.len(),
        forall|y: int| 0 <= y < r.0@.len() ==> (#[trigger] r.0@[y])@ == hint_mask(board@[y]@, ints(hints.0@[y]@)),
        forall|x: int| 0 <= x < r.1@.len() ==> (#[trigger] r.1@[x])@ == hint_mask(column(board@, x), ints(hints.1@[x]@)),
{
    let h = board.len();
    let w = board[0].len();
    let mut rows: Vec<Vec<bool>> = Vec::with_capacity(h);
    let mut y: usize = 0;
    while y < h
        invariant
            h == board@.len(),
            hints.0@.len() == h,
            y <= h,
            rows@.len() == y,
            forall|j: int| 0 <= j < y ==> (#[trigger] rows@[j])@ == hint_mask(board@[j]@, ints(hints.0@[j]@)),
        decreases h - y,
    {
        rows.push(mask_line(&board[y], &hints.0[y]));
        y += 1;
    }
    let mut cols: Vec<Vec<bool>> = Vec::with_capacity(w);
    let mut x: usize = 0;
    while x < w
        invariant
            h == board@.len(),
            h > 0,
            w == board@[0]@.len(),
            rect(board@, h as int, w as int),
            hints.1@.len() == w,
            x <= w,
            cols@.len() == x,
            forall|j: int| 0 <= j < x ==> (#[trigger] cols@[j])@ == hint_mask(column(board@, j), ints(hints.1@[j]@)),
        decreases w - x,
    {
        let col = column_of(board, w, x);
        cols.push(mask_line(&col, &hints.1[x]));
        x += 1;
    }
    (rows, cols)
}

/// Copies column `x` out of a board with rows of `w` cells.
fn column_of(board: &Vec<Vec<Option<bool>>>, w: usize, x: usize) -> (r: Vec<Option<bool>>)
    requires
        rect(board@, board@.len() as int, w as int),
        x < w,
    ensures
        r@ == column(board@, x as int),
{
    let h = board.len();
    let mut r: Vec<Option<bool>> = Vec::with_capacity(h);
    let mut y: usize = 0;
    while y < h
        invariant
            h == board@.len(),
            rect(board@, h as int, w as int),
            x < w,
            y <= h,
            r@.len() == y,
            forall|j: int| 0 <= j < y ==> r@[j] == board@[j]@[x as int],
        decreases h - y,
    {
        r.push(board[y][x]);
        y += 1;
    }
    proof {
        assert(r@ =~= column(board@, x as int));
    }
    r
}

/// Row `y` is at a fixed point of the weak rules.
pub open spec fn fix_row(b: Seq<Vec<Option<bool>>>, hints: HintsI32, y: int) -> bool {
    weak_pass(b[y]@, ints(hints.0@[y]@)) == b[y]@
}

/// Column `x` is at a fixed point of the weak rules.
pub open spec fn fix_col(b: Seq<Vec<Option<bool>>>, hints: HintsI32, x: int) -> bool {
    weak_pass(column(b, x), ints(hints.1@[x]@)) == column(b, x)
}

/// Undecided cells of a board.
pub open spec fn board_unknowns(b: Seq<Vec<Option<bool>>>) -> int
    decreases b.len(),
{
    if b.len() == 0 {
        0
    } else {
        board_unknowns(b.drop_last()) + unknowns(b.last()@)
    }
}

proof fn lemma_board_unknowns_nonneg(b: Seq<Vec<Option<bool>>>)
    ensures
        board_unknowns(b) >= 0,
    decreases b.len(),
{
    if b.len() > 0 {
        lemma_board_unknowns_nonneg(b.drop_last());
        lemma_unknowns_nonneg(b.last()@);
    }
}

proof fn lemma_board_unknowns_update(b: Seq<Vec<Option<bool>>>, y: int, row: Vec<Option<bool>>)
    requires
        0 <= y < b.len(),
    ensures
        board_unknowns(b.update(y, row)) == board_unknowns(b) - unknowns(b[y]@) + unknowns(row@),
    decreases b.len(),
{
    let b2 = b.update(y, row);
    if y == b.len() - 1 {
        assert(b2.drop_last() =~= b.drop_last());
    } else {
        lemma_board_unknowns_update(b.drop_last(), y, row);
        assert(b2.drop_last() =~= b.drop_last().update(y, row));
    }
}

/// Cell `(y2, x2)` lies on line `idx` (a row when `is_row`, else a column).
pub open spec fn on_line(is_row: bool, idx: int, y2: int, x2: int) -> bool {
    if is_row {
        y2 == idx
    } else {
        x2 == idx
    }
}

/// The queue holds only lines of an `h`×`w` board, and every flagged line
/// is in it.
pub open spec fn queue_ok(q: Seq<(usize, bool)>, flags: (Vec<bool>, Vec<bool>), h: int, w: int) -> bool {
    &&& flags.0@.len() == h
    &&& flags.1@.len() == w
    &&& forall|j: int|
        0 <= j < q.len() ==> if (#[trigger] q[j]).1 {
            q[j].0 < h
        } else {
            q[j].0 < w
        }
    &&& forall|r: int| 0 <= r < h && (#[trigger] flags.0@[r]) ==> q.contains((r as usize, true))
    &&& forall|c: int| 0 <= c < w && (#[trigger] flags.1@[c]) ==> q.contains((c as usize, false))
}

/// Sets cell `(y, x)`; the row and the column are queued unless pending.
fn set_cell(
    board: &mut Vec<Vec<Option<bool>>>,
    y: usize,
    x: usize,
    val: Option<bool>,
    q: &mut VecDeque<(usize, bool)>,
    flags: &mut (Vec<bool>, Vec<bool>),
)
    requires
        rect(old(board)@, old(board)@.len() as int, old(flags).1@.len() as int),
        y < old(board)@.len(),
        x < old(flags).1@.len(),
        queue_ok(old(q)@, *old(flags), old(board)@.len() as int, old(flags).1@.len() as int),
    ensures
        rect(final(board)@, old(board)@.len() as int, old(flags).1@.len() as int),
        final(board)@.len() == old(board)@.len(),
        forall|y2: int, x2: int|
            0 <= y2 < old(board)@.len() && 0 <= x2 < old(flags).1@.len() ==> #[trigger] final(board)@[y2]@[x2]
                == if y2 == y && x2 == x {
                val
            } else {
                old(board)@[y2]@[x2]
            },
        final(board)@[y as int]@ == old(board)@[y as int]@.update(x as int, val),
        forall|y2: int| 0 <= y2 < old(board)@.len() && y2 != y ==> final(board)@[y2] == old(board)@[y2],
        queue_ok(final(q)@, *final(flags), old(board)@.len() as int, old(flags).1@.len() as int),
        final(flags).0@[y as int],
        final(flags).1@[x as int],
        forall|r: int| 0 <= r < old(board)@.len() && old(flags).0@[r] ==> final(flags).0@[r],
        forall|c: int| 0 <= c < old(flags).1@.len() && old(flags).1@[c] ==> final(flags).1@[c],
        forall|r: int| 0 <= r < old(board)@.len() && r != y ==> final(flags).0@[r] == old(flags).0@[r],
        forall|c: int| 0 <= c < old(flags).1@.len() && c != x ==> final(flags).1@[c] == old(flags).1@[c],
        final(q)@.len() <= old(q)@.len() + 2,
{
    let ghost h = board@.len() as int;
    let ghost w = flags.1@.len() as int;
    board[y].set(x, val);
    let ghost q0 = q@;
    if !flags.0[y] {
        q.push_back((y, true));
        flags.0.set(y, true);
    }
    let ghost q1 = q@;
    proof {
        assert forall|c: int| 0 <= c < w && (#[trigger] flags.1@[c]) implies q@.contains((c as usize, false)) by {
            let j = choose|j: int| 0 <= j < q0.len() && q0[j] == (c as usize, false);
            assert(q@[j] == q0[j]);
        }
        assert forall|r: int| 0 <= r < h && (#[trigger] flags.0@[r]) implies q@.contains((r as usize, true)) by {
            if r == y {
                assert(q@[q@.len() - 1] == (y, true) || q@ == q0);
                if q@ != q0 {
                    assert(q@[q@.len() - 1] == (r as usize, true));
                }
            } else {
                let j = choose|j: int| 0 <= j < q0.len() && q0[j] == (r as usize, true);
                assert(q@[j] == q0[j]);
            }
        }
    }
    if !flags.1[x] {
        q.push_back((x, false));
        flags.1.set(x, true);
    }
    proof {
        assert forall|r: int| 0 <= r < h && (#[trigger] flags.0@[r]) implies q@.contains((r as usize, true)) by {
            let j = choose|j: int| 0 <= j < q1.len() && q1[j] == (r as usize, true);
            assert(q@[j] == q1[j]);
        }
        assert forall|c: int| 0 <= c < w && (#[trigger] flags.1@[c]) implies q@.contains((c as usize, false)) by {
            if c == x && q@ != q1 {
                assert(q@[q@.len() - 1] == (c as usize, false));
            } else {
                let j = choose|j: int| 0 <= j < q1.len() && q1[j] == (c as usize, false);
                assert(q@[j] == q1[j]);
            }
        }
        assert forall|y2: int| 0 <= y2 < h implies (#[trigger] board@[y2])@.len() == w by {
            if y2 == y {
                assert(board@[y2]@ == old(board)@[y2]@.update(x as int, val));
            }
        }
    }
}

/// Column `x` of a filled/empty board.
pub open spec fn solution_col(g: Seq<Seq<bool>>, x: int) -> Seq<bool> {
    Seq::new(g.len(), |y: int| g[y][x])
}

/// `g` is an `h`×`w` filled/empty board whose rows and columns match the hints.
pub open spec fn board_solution(g: Seq<Seq<bool>>, hints: HintsI32, h: int, w: int) -> bool {
    &&& g.len() == h
    &&& forall|y: int| 0 <= y < h ==> (#[trigger] g[y]).len() == w
    &&& forall|y: int| 0 <= y < h ==> runs(#[trigger] g[y]) == ints(hints.0@[y]@)
    &&& forall|x: int| 0 <= x < w ==> runs(#[trigger] solution_col(g, x)) == ints(hints.1@[x]@)
}

/// `g` agrees with every decided cell of `b`.
pub open spec fn board_agrees(g: Seq<Seq<bool>>, b: Seq<Vec<Option<bool>>>, h: int, w: int) -> bool {
    forall|y: int, x: int|
        0 <= y < h && 0 <= x < w && (#[trigger] b[y]@[x]) is Some ==> g[y][x] == b[y]@[x]->Some_0
}

/// Line `idx` of a board: a row when `is_row`, else a column.
pub open spec fn line_of(b: Seq<Vec<Option<bool>>>, is_row: bool, idx: int) -> Seq<Option<bool>> {
    if is_row {
        b[idx]@
    } else {
        column(b, idx)
    }
}

/// Line `idx` is at a fixed point of the weak rules.
pub open spec fn fix_line(b: Seq<Vec<Option<bool>>>, hints: HintsI32, is_row: bool, idx: int) -> bool {
    if is_row {
        fix_row(b, hints, idx)
    } else {
        fix_col(b, hints, idx)
    }
}

/// Applies one weak pass to line `idx` and writes back the cells it decided.
fn update_line(
    board: &mut Vec<Vec<Option<bool>>>,
    hints: &HintsI32,
    is_row: bool,
    idx: usize,
    q: &mut VecDeque<(usize, bool)>,
    flags: &mut (Vec<bool>, Vec<bool>),
)
    requires
        rect(old(board)@, old(board)@.len() as int, old(flags).1@.len() as int),
        hints.0@.len() == old(board)@.len(),
        hints.1@.len() == old(flags).1@.len(),
        is_row ==> idx < old(board)@.len(),
        !is_row ==> idx < old(flags).1@.len(),
        queue_ok(old(q)@, *old(flags), old(board)@.len() as int, old(flags).1@.len() as int),
    ensures
        rect(final(board)@, old(board)@.len() as int, old(flags).1@.len() as int),
        queue_ok(final(q)@, *final(flags), old(board)@.len() as int, old(flags).1@.len() as int),
        forall|y2: int, x2: int|
            0 <= y2 < old(board)@.len() && 0 <= x2 < old(flags).1@.len() && #[trigger] final(board)@[y2]@[x2]
                != old(board)@[y2]@[x2] ==> old(board)@[y2]@[x2] is None && on_line(is_row, idx as int, y2, x2)
                && final(flags).0@[y2] && final(flags).1@[x2],
        forall|r: int| 0 <= r < old(board)@.len() && old(flags).0@[r] ==> final(flags).0@[r],
        forall|c: int| 0 <= c < old(flags).1@.len() && old(flags).1@[c] ==> final(flags).1@[c],
        if is_row {
            final(flags).0@[idx as int]
        } else {
            final(flags).1@[idx as int]
        } || fix_line(final(board)@, *hints, is_row, idx as int),
        3 * board_unknowns(final(board)@) + final(q)@.len() <= 3 * board_unknowns(old(board)@) + old(q)@.len(),
        forall|g: Seq<Seq<bool>>|
            board_solution(g, *hints, old(board)@.len() as int, old(flags).1@.len() as int) && board_agrees(
                g,
                old(board)@,
                old(board)@.len() as int,
                old(flags).1@.len() as int,
            ) ==> board_agrees(g, final(board)@, old(board)@.len() as int, old(flags).1@.len() as int),
{
    let ghost b0 = board@;
    let ghost f0 = *flags;
    let ghost q0 = q@;
    let h = board.len();
    let w = flags.1.len();
    let line = if is_row { copy_line(&board[idx]) } else { column_of(board, w, idx) };
    let next = if is_row { weak_pass_line(&line, &hints.0[idx]) } else { weak_pass_line(&line, &hints.1[idx]) };
    let ghost hint = if is_row { ints(hints.0@[idx as int]@) } else { ints(hints.1@[idx as int]@) };
    proof {
        lemma_weak_pass_keeps(line@, hint);
        lemma_board_unknowns_nonneg(b0);
    }
    let len = line.len();
    let mut k: usize = 0;
    while k < len
        invariant
            h == b0.len(),
            w == f0.1@.len(),
            rect(b0, h as int, w as int),
            rect(board@, h as int, w as int),
            len == line@.len(),
            len == next@.len(),
            len == if is_row { w } else { h },
            line@ == line_of(b0, is_row, idx as int),
            is_row ==> idx < h,
            !is_row ==> idx < w,
            next@ == weak_pass(line@, hint),
            keeps(line@, next@),
            k <= len,
            queue_ok(q@, *flags, h as int, w as int),
            forall|y2: int, x2: int|
                0 <= y2 < h && 0 <= x2 < w ==> #[trigger] board@[y2]@[x2] == if on_line(is_row, idx as int, y2, x2)
                    && (if is_row { x2 } else { y2 }) < k {
                    next@[if is_row { x2 } else { y2 }]
                } else {
                    b0[y2]@[x2]
                },
            forall|y2: int, x2: int|
                0 <= y2 < h && 0 <= x2 < w && #[trigger] board@[y2]@[x2] != b0[y2]@[x2] ==> flags.0@[y2]
                    && flags.1@[x2],
            forall|r: int| 0 <= r < h && f0.0@[r] ==> flags.0@[r],
            forall|c: int| 0 <= c < w && f0.1@[c] ==> flags.1@[c],
            3 * board_unknowns(board@) + q@.len() <= 3 * board_unknowns(b0) + q0.len(),
        decreases len - k,
    {
        if next[k] != line[k] {
            let (yy, xx) = if is_row { (idx, k) } else { (k, idx) };
            let ghost bb = board@;
            let ghost fb = *flags;
            proof {
                assert(line@[k as int] == b0[yy as int]@[xx as int]);
                assert(bb[yy as int]@[xx as int] == line@[k as int]);
                assert(line@[k as int] is None);
                lemma_unknowns_update(bb[yy as int]@, xx as int, next@[k as int]);
            }
            set_cell(board, yy, xx, next[k], q, flags);
            proof {
                assert(board@ =~= bb.update(yy as int, board@[yy as int]));
                lemma_board_unknowns_update(bb, yy as int, board@[yy as int]);
                assert forall|y2: int, x2: int|
                    0 <= y2 < h && 0 <= x2 < w && #[trigger] board@[y2]@[x2] != b0[y2]@[x2] implies flags.0@[y2]
                        && flags.1@[x2] by {
                    if y2 != yy || x2 != xx {
                        assert(bb[y2]@[x2] != b0[y2]@[x2]);
                        assert(fb.0@[y2] && fb.1@[x2]);
                    }
                }
            }
        }
        k += 1;
    }
    proof {
        assert forall|g: Seq<Seq<bool>>|
            board_solution(g, *hints, h as int, w as int) && board_agrees(g, b0, h as int, w as int)
            implies board_agrees(g, board@, h as int, w as int) by {
            let gl = if is_row { g[idx as int] } else { solution_col(g, idx as int) };
            assert(agrees(gl, line@)) by {
                assert forall|j: int| 0 <= j < line@.len() && line@[j] is Some implies gl[j] == line@[j]->Some_0 by {
                    if is_row {
                        assert(line@[j] == b0[idx as int]@[j]);
                    } else {
                        assert(line@[j] == b0[j]@[idx as int]);
                    }
                }
            }
            assert(runs(gl) == hint);
            lemma_weak_pass_sound(line@, hint, gl);
            assert forall|y2: int, x2: int| 0 <= y2 < h && 0 <= x2 < w && (#[trigger] board@[y2]@[x2]) is Some
                implies g[y2][x2] == board@[y2]@[x2]->Some_0 by {
                if on_line(is_row, idx as int, y2, x2) {
                    let j = if is_row { x2 } else { y2 };
                    assert(board@[y2]@[x2] == next@[j]);
                    assert(gl[j] == g[y2][x2]);
                }
            }
        }
        let changed = exists|y2: int, x2: int|
            0 <= y2 < h && 0 <= x2 < w && #[trigger] board@[y2]@[x2] != b0[y2]@[x2];
        if !changed {
            if is_row {
                assert(board@[idx as int]@ =~= next@) by {
                    assert forall|x2: int| 0 <= x2 < w implies board@[idx as int]@[x2] == next@[x2] by {
                        assert(board@[idx as int]@[x2] == b0[idx as int]@[x2]);
                    }
                }
                assert(line@ =~= next@) by {
                    assert forall|x2: int| 0 <= x2 < w implies line@[x2] == next@[x2] by {
                        assert(board@[idx as int]@[x2] == b0[idx as int]@[x2]);
                    }
                }
            } else {
                assert(column(board@, idx as int) =~= next@) by {
                    assert forall|y2: int| 0 <= y2 < h implies column(board@, idx as int)[y2] == next@[y2] by {
                        assert(board@[y2]@[idx as int] == b0[y2]@[idx as int]);
                    }
                }
                assert(line@ =~= next@) by {
                    assert forall|y2: int| 0 <= y2 < h implies line@[y2] == next@[y2] by {
                        assert(board@[y2]@[idx as int] == b0[y2]@[idx as int]);
                    }
                }
            }
        } else {
            let (y2, x2) = choose|y2: int, x2: int|
                0 <= y2 < h && 0 <= x2 < w && #[trigger] board@[y2]@[x2] != b0[y2]@[x2];
            assert(flags.0@[y2] && flags.1@[x2]);
        }
        assert forall|y2: int, x2: int|
            0 <= y2 < h && 0 <= x2 < w && #[trigger] board@[y2]@[x2] != b0[y2]@[x2] implies b0[y2]@[x2] is None
                && on_line(is_row, idx as int, y2, x2) by {
            let pos = if is_row { x2 } else { y2 };
            if is_row {
                assert(line@[pos] == b0[y2]@[x2]);
            } else {
                assert(line@[pos] == b0[y2]@[x2]);
            }
        }
    }
}

/// Cell `(y2, x2)` of `b` once cell `(y, x)` is set to `val`.
pub open spec fn after_set(
    b: Seq<Vec<Option<bool>>>,
    y: int,
    x: int,
    val: Option<bool>,
    y2: int,
    x2: int,
) -> Option<bool> {
    if y2 == y && x2 == x {
        val
    } else {
        b[y2]@[x2]
    }
}

/// Sets cell `(y, x)` to `val`, then propagates the weak rules through a
/// queue of lines, starting with row `y` and column `x`; every line with a
/// newly decided cell is queued again. Afterwards no decided cell of the
/// board with `(y, x)` set has changed, every new decision agrees with every
/// solution of the hints that agrees with that board, and row `y`, column `x`
/// and every line holding a newly decided cell are at a fixed point of the
/// weak rules. A line that is overfilled, or decided against its hint, ends
/// the propagation with `Infeasible`.
pub fn set_inner(
    y: usize,
    x: usize,
    val: Option<bool>,
    board: &mut Vec<Vec<Option<bool>>>,
    hints: &HintsI32,
) -> (r: Result<(), Infeasible>)
    requires
        old(board)@.len() > 0,
        rect(old(board)@, old(board)@.len() as int, old(board)@[0]@.len() as int),
        y < old(board)@.len(),
        x < old(board)@[0]@.len(),
        hints.0@.len() == old(board)@.len(),
        hints.1@.len() == old(board)@[0]@.len(),
    ensures
        rect(final(board)@, old(board)@.len() as int, old(board)@[0]@.len() as int),
        forall|y2: int, x2: int|
            0 <= y2 < old(board)@.len() && 0 <= x2 < old(board)@[0]@.len() && (#[trigger] after_set(
                old(board)@,
                y as int,
                x as int,
                val,
                y2,
                x2,
            )) is Some ==> final(board)@[y2]@[x2] == after_set(old(board)@, y as int, x as int, val, y2, x2),
        r is Ok ==> fix_row(final(board)@, *hints, y as int),
        r is Ok ==> fix_col(final(board)@, *hints, x as int),
        r is Ok ==> forall|y2: int, x2: int|
            0 <= y2 < old(board)@.len() && 0 <= x2 < old(board)@[0]@.len() && #[trigger] final(board)@[y2]@[x2]
                != after_set(old(board)@, y as int, x as int, val, y2, x2) ==> fix_row(final(board)@, *hints, y2)
                && fix_col(final(board)@, *hints, x2),
        forall|g: Seq<Seq<bool>>|
            board_solution(g, *hints, old(board)@.len() as int, old(board)@[0]@.len() as int) && (forall|
                y2: int,
                x2: int,
            |
                0 <= y2 < old(board)@.len() && 0 <= x2 < old(board)@[0]@.len() && (#[trigger] after_set(
                    old(board)@,
                    y as int,
                    x as int,
                    val,
                    y2,
                    x2,
                )) is Some ==> g[y2][x2] == after_set(old(board)@, y as int, x as int, val, y2, x2)->Some_0)
                ==> board_agrees(g, final(board)@, old(board)@.len() as int, old(board)@[0]@.len() as int),
        r is Err ==> exists|is_row: bool, idx: int|
            0 <= idx < (if is_row { old(board)@.len() } else { old(board)@[0]@.len() }) && #[trigger] no_completion(
                line_of(final(board)@, is_row, idx),
                ints(line_hint(*hints, is_row, idx)),
            ),
{
    let ghost b_old = board@;
    let h = board.len();
    let w = board[0].len();
    board[y].set(x, val);
    let ghost start = board@;
    proof {
        assert forall|y2: int| 0 <= y2 < h implies (#[trigger] board@[y2])@.len() == w by {}
        assert forall|y2: int, x2: int| 0 <= y2 < h && 0 <= x2 < w implies #[trigger] start[y2]@[x2]
            == after_set(b_old, y as int, x as int, val, y2, x2) by {}
    }
    let mut q: VecDeque<(usize, bool)> = VecDeque::new();
    let mut flags: (Vec<bool>, Vec<bool>) = (vec![false; h], vec![false; w]);
    q.push_back((y, true));
    flags.0.set(y, true);
    q.push_back((x, false));
    flags.1.set(x, true);
    proof {
        assert(q@[0] == (y, true));
        assert(q@[1] == (x, false));
        lemma_board_unknowns_nonneg(board@);
    }
    loop
        invariant
            forall|g: Seq<Seq<bool>>|
                board_solution(g, *hints, h as int, w as int) && board_agrees(g, start, h as int, w as int)
                    ==> board_agrees(g, board@, h as int, w as int),
            b_old == old(board)@,
            h == b_old.len(),
            w == b_old[0]@.len(),
            y < h,
            x < w,
            hints.0@.len() == h,
            hints.1@.len() == w,
            rect(start, h as int, w as int),
            rect(board@, h as int, w as int),
            forall|y2: int, x2: int|
                0 <= y2 < h && 0 <= x2 < w ==> #[trigger] start[y2]@[x2] == after_set(b_old, y as int, x as int, val, y2, x2),
            queue_ok(q@, flags, h as int, w as int),
            forall|y2: int, x2: int|
                0 <= y2 < h && 0 <= x2 < w && (#[trigger] start[y2]@[x2]) is Some ==> board@[y2]@[x2] == start[y2]@[x2],
            forall|y2: int, x2: int|
                0 <= y2 < h && 0 <= x2 < w && #[trigger] board@[y2]@[x2] != start[y2]@[x2] ==> (flags.0@[y2]
                    || fix_row(board@, *hints, y2)) && (flags.1@[x2] || fix_col(board@, *hints, x2)),
            flags.0@[y as int] || fix_row(board@, *hints, y as int),
            flags.1@[x as int] || fix_col(board@, *hints, x as int),
            board_unknowns(board@) >= 0,
        ensures
            forall|r: int| 0 <= r < h ==> !flags.0@[r],
            forall|c: int| 0 <= c < w ==> !flags.1@[c],
        decreases 3 * board_unknowns(board@) + q@.len(),
    {
        let ghost bb = board@;
        let ghost qb = q@;
        match q.pop_front() {
            None => {
                proof {
                    assert forall|r: int| 0 <= r < h implies !flags.0@[r] by {
                        if flags.0@[r] {
                            assert(q@.contains((r as usize, true)));
                        }
                    }
                    assert forall|c: int| 0 <= c < w implies !flags.1@[c] by {
                        if flags.1@[c] {
                            assert(q@.contains((c as usize, false)));
                        }
                    }
                }
                break ;
            },
            Some((idx, is_row)) => {
                if is_row {
                    flags.0.set(idx, false);
                } else {
                    flags.1.set(idx, false);
                }
                proof {
                    assert(qb[0] == (idx, is_row));
                    assert(q@ =~= qb.drop_first());
                    assert forall|r: int| 0 <= r < h && (#[trigger] flags.0@[r]) implies q@.contains((r as usize, true)) by {
                        let j = choose|j: int| 0 <= j < qb.len() && qb[j] == (r as usize, true);
                        assert(j > 0);
                        assert(q@[j - 1] == qb[j]);
                    }
                    assert forall|c: int| 0 <= c < w && (#[trigger] flags.1@[c]) implies q@.contains((c as usize, false)) by {
                        let j = choose|j: int| 0 <= j < qb.len() && qb[j] == (c as usize, false);
                        assert(j > 0);
                        assert(q@[j - 1] == qb[j]);
                    }
                    assert forall|j: int| 0 <= j < q@.len() implies if (#[trigger] q@[j]).1 {
                        q@[j].0 < h
                    } else {
                        q@[j].0 < w
                    } by {
                        assert(q@[j] == qb[j + 1]);
                    }
                }
                let line = if is_row { copy_line(&board[idx]) } else { column_of(board, w, idx) };
                let bad = if is_row { line_contradicts(&line, &hints.0[idx]) } else { line_contradicts(&line, &hints.1[idx]) };
                if bad {
                    proof {
                        let hi = ints(line_hint(*hints, is_row, idx as int));
                        lemma_contradiction(line@, hi);
                        assert(no_completion(line_of(board@, is_row, idx as int), hi));
                    }
                    proof {
                        assert forall|y2: int, x2: int|
                            0 <= y2 < h && 0 <= x2 < w && (#[trigger] after_set(b_old, y as int, x as int, val, y2, x2)) is Some
                            implies board@[y2]@[x2] == after_set(b_old, y as int, x as int, val, y2, x2) by {
                            assert(start[y2]@[x2] == after_set(b_old, y as int, x as int, val, y2, x2));
                        }
                    }
                    return Err(Infeasible);
                }
                let ghost fm = flags;
                update_line(board, hints, is_row, idx, &mut q, &mut flags);
                proof {
                    lemma_board_unknowns_nonneg(board@);
                    // lines without a newly decided cell keep their content
                    assert forall|r: int| 0 <= r < h && !flags.0@[r] implies board@[r]@ == bb[r]@ by {
                        assert forall|x2: int| 0 <= x2 < w implies board@[r]@[x2] == bb[r]@[x2] by {
                            if board@[r]@[x2] != bb[r]@[x2] {
                                assert(flags.0@[r]);
                            }
                        }
                        assert(board@[r]@ =~= bb[r]@);
                    }
                    assert forall|c: int| 0 <= c < w && !flags.1@[c] implies column(board@, c) == column(bb, c) by {
                        assert forall|y2: int| 0 <= y2 < h implies column(board@, c)[y2] == column(bb, c)[y2] by {
                            if board@[y2]@[c] != bb[y2]@[c] {
                                assert(flags.1@[c]);
                            }
                        }
                        assert(column(board@, c) =~= column(bb, c));
                    }
                    assert forall|y2: int, x2: int|
                        0 <= y2 < h && 0 <= x2 < w && (#[trigger] start[y2]@[x2]) is Some implies board@[y2]@[x2]
                            == start[y2]@[x2] by {
                        assert(bb[y2]@[x2] == start[y2]@[x2]);
                    }
                    assert forall|y2: int, x2: int|
                        0 <= y2 < h && 0 <= x2 < w && #[trigger] board@[y2]@[x2] != start[y2]@[x2] implies (flags.0@[y2]
                            || fix_row(board@, *hints, y2)) && (flags.1@[x2] || fix_col(board@, *hints, x2)) by {
                        if board@[y2]@[x2] == bb[y2]@[x2] {
                            assert(bb[y2]@[x2] != start[y2]@[x2]);
                            if !flags.0@[y2] {
                                if !(is_row && idx == y2) {
                                    assert(fm.0@[y2] == false || flags.0@[y2]);
                                    assert(fix_row(bb, *hints, y2));
                                }
                            }
                            if !flags.1@[x2] {
                                if !(!is_row && idx == x2) {
                                    assert(fix_col(bb, *hints, x2));
                                }
                            }
                        }
                    }
                    if !flags.0@[y as int] && !(is_row && idx == y) {
                        assert(fix_row(bb, *hints, y as int));
                    }
                    if !flags.1@[x as int] && !(!is_row && idx == x) {
                        assert(fix_col(bb, *hints, x as int));
                    }
                }
            },
        }
    }
    proof {
        assert forall|y2: int, x2: int|
            0 <= y2 < h && 0 <= x2 < w && (#[trigger] after_set(b_old, y as int, x as int, val, y2, x2)) is Some
            implies board@[y2]@[x2] == after_set(b_old, y as int, x as int, val, y2, x2) by {
            assert(start[y2]@[x2] == after_set(b_old, y as int, x as int, val, y2, x2));
        }
        assert forall|y2: int, x2: int|
            0 <= y2 < h && 0 <= x2 < w && #[trigger] board@[y2]@[x2] != after_set(b_old, y as int, x as int, val, y2, x2)
            implies fix_row(board@, *hints, y2) && fix_col(board@, *hints, x2) by {
            assert(start[y2]@[x2] == after_set(b_old, y as int, x as int, val, y2, x2));
            assert(!flags.0@[y2]);
            assert(!flags.1@[x2]);
        }
    }
    Ok(())
}

/// The hint of line `idx`: a row's when `is_row`, else a column's.
pub open spec fn line_hint(hints: HintsI32, is_row: bool, idx: int) -> Seq<i32> {
    if is_row {
        hints.0@[idx]@
    } else {
        hints.1@[idx]@
    }
}

/// The known cells of `line` exclude every assignment whose runs are `h`.
pub open spec fn no_completion(line: Seq<Option<bool>>, h: Seq<int>) -> bool {
    forall|c: Seq<bool>| agrees(c, line) ==> runs(c) != h
}

/// A line contradicts its hint when it has more filled cells than the hint
/// allows, or when it is decided and its runs differ from the hint.
pub open spec fn contradicts(line: Seq<Option<bool>>, h: Seq<int>) -> bool {
    overfilled(line, h) || (!has_unknown(line) && runs(filled_of(line)) != h)
}

proof fn lemma_known_filled(line: Seq<Option<bool>>)
    ensures
        known_filled(line) == count_filled(filled_of(line)),
    decreases line.len(),
{
    if line.len() > 0 {
        lemma_known_filled(line.drop_last());
        assert(filled_of(line).drop_last() =~= filled_of(line.drop_last()));
    }
}

/// A line that contradicts its hint has no completion matching it.
pub proof fn lemma_contradiction(line: Seq<Option<bool>>, h: Seq<int>)
    requires
        contradicts(line, h),
        line.len() <= usize::MAX,
    ensures
        no_completion(line, h),
{
    assert forall|c: Seq<bool>| agrees(c, line) implies runs(c) != h by {
        if overfilled(line, h) {
            lemma_picked(line, c);
            lemma_known_filled(line);
            lemma_total_runs(c, 0);
        } else {
            assert(c =~= filled_of(line)) by {
                assert forall|k: int| 0 <= k < c.len() implies c[k] == filled_of(line)[k] by {
                    if line[k] is None {
                        assert(has_unknown(line));
                    }
                }
            }
        }
    }
}

/// Whether `line` contradicts its hint.
fn line_contradicts(line: &Vec<Option<bool>>, h: &Vec<i32>) -> (r: bool)
    ensures
        r == contradicts(line@, ints(h@)),
{
    if total_below(h, count_known_filled(line)) {
        return true;
    }
    let n = line.len();
    let p = find_unknown(line);
    if p < n {
        return false;
    }
    let all = read_as(line, n, false);
    proof {
        assert(line@.subrange(0, n as int) =~= line@);
        lemma_filled_is_read_empty(line@);
    }
    !same_runs(&compress(&all), h)
}

proof fn lemma_count_squeeze(a: Seq<bool>, b: Seq<bool>)
    requires
        a.len() == b.len(),
        forall|k: int| 0 <= k < a.len() && a[k] ==> b[k],
    ensures
        count_filled(a) <= count_filled(b),
        count_filled(a) == count_filled(b) ==> a == b,
    decreases a.len(),
{
    if a.len() > 0 {
        lemma_count_squeeze(a.drop_last(), b.drop_last());
        if count_filled(a) == count_filled(b) {
            assert(a.drop_last() == b.drop_last());
            assert(a =~= b) by {
                assert forall|k: int| 0 <= k < a.len() implies a[k] == b[k] by {
                    if k < a.len() - 1 {
                        assert(a[k] == a.drop_last()[k]);
                        assert(b[k] == b.drop_last()[k]);
                    }
                }
            }
        }
    }
}

/// Reading the unknown cells one way gives a line whose runs match: every
/// completion reads them that way.
proof fn lemma_full_match(line: Seq<Option<bool>>, h: Seq<int>, c: Seq<bool>, v: bool)
    requires
        agrees(c, line),
        runs(c) == h,
        runs(read_unknown_as(line, v)) == h,
    ensures
        c == read_unknown_as(line, v),
        agrees(c, decide_unknown(line, v)),
{
    let r = read_unknown_as(line, v);
    lemma_total_runs(c, 0);
    lemma_total_runs(r, 0);
    if v {
        lemma_count_squeeze(c, r);
    } else {
        lemma_count_squeeze(r, c);
    }
}

/// The front rule never decides a cell against a completion.
proof fn lemma_front_rule_sound(line: Seq<Option<bool>>, h: Seq<int>, c: Seq<bool>)
    requires
        agrees(c, line),
        runs(c) == h,
    ensures
        agrees(c, front_rule(line, h)),
{
    lemma_first_unknown_props(line);
    let p = first_unknown(line);
    let rr = known_prefix_runs(line);
    let n = line.len() as int;
    if 0 < p < n && line[p - 1] == Some(true) && rr.len() < h.len() && rr == h.subrange(0, rr.len() as int) {
        let a = c.subrange(0, p);
        let b = c.subrange(p, n);
        assert(a =~= filled_of(line.subrange(0, p))) by {
            assert forall|k: int| 0 <= k < p implies a[k] == filled_of(line.subrange(0, p))[k] by {
                assert(line[k] is Some);
            }
        }
        assert(c =~= a + b);
        lemma_runs_split(a, b, 0);
        lemma_runs_split(a, Seq::<bool>::empty(), 0);
        assert(a + Seq::<bool>::empty() =~= a);
        let t = trailing_run(a, 0);
        let cl = closed_runs(a, 0);
        assert(a.last() == c[p - 1]);
        assert(runs_with(Seq::<bool>::empty(), t) =~= seq![t]);
        assert(rr == cl + seq![t]);
        if c[p] {
            let e = lemma_open_run(b, t);
            assert(b[0] == c[p]);
            assert(e > 0);
            let tail = runs_with(b.subrange(e, b.len() as int), 0);
            assert(runs(c) == cl + (seq![t + e] + tail));
            assert(runs(c)[cl.len() as int] == t + e);
            assert(h[cl.len() as int] == rr[cl.len() as int]);
            assert(rr[cl.len() as int] == t);
        }
    }
}

/// The weak rules never decide a cell against a completion.
pub proof fn lemma_weak_pass_sound(line: Seq<Option<bool>>, h: Seq<int>, c: Seq<bool>)
    requires
        agrees(c, line),
        runs(c) == h,
    ensures
        agrees(c, weak_pass(line, h)),
{
    if !(overfilled(line, h) || !has_unknown(line)) {
        let l1 = if runs(read_unknown_as(line, true)) == h {
            decide_unknown(line, true)
        } else {
            line
        };
        if runs(read_unknown_as(line, true)) == h {
            lemma_full_match(line, h, c, true);
        }
        let l2 = if runs(read_unknown_as(l1, false)) == h {
            decide_unknown(l1, false)
        } else {
            l1
        };
        if runs(read_unknown_as(l1, false)) == h {
            lemma_full_match(l1, h, c, false);
        }
        let l3 = front_rule(l2, h);
        lemma_front_rule_sound(l2, h, c);
        let n = line.len() as int;
        lemma_runs_reverse(c);
        assert(agrees(c.reverse(), l3.reverse())) by {
            assert forall|k: int| 0 <= k < n && l3.reverse()[k] is Some implies c.reverse()[k] == l3.reverse()[k]->Some_0 by {
                assert(l3.reverse()[k] == l3[n - 1 - k]);
            }
        }
        lemma_front_rule_sound(l3.reverse(), h.reverse(), c.reverse());
        let l4 = front_rule(l3.reverse(), h.reverse());
        assert forall|k: int| 0 <= k < n && l4.reverse()[k] is Some implies c[k] == l4.reverse()[k]->Some_0 by {
            assert(l4.reverse()[k] == l4[n - 1 - k]);
            assert(c.reverse()[n - 1 - k] == c[k]);
        }
    }
}

} // verus!
