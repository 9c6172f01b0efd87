//! The line solver's techniques: overlap fill, edge-scan confirmation and
//! bounded exhaustive enumeration. Each one only decides cells the way every
//! completion of the line that matches its hint has them.
use vstd::prelude::*;
use crate::line::{
    agrees, candidate, completes, compress, count_filled, hint_view, infeasible, is_subseq, keeps,
    known_filled, lemma_first_run, lemma_picked, lemma_runs_reverse, lemma_skip_empty,
    lemma_subseq_contains, lemma_total_runs, lemma_unknown_positions, picked, runs, runs_with,
    sound_step, total, unknown_positions,
};
use itertools::Itertools;

verus! {

/// The known cells of a line contradict its hint.
#[derive(Debug, Clone, Copy, PartialEq, Eq, Structural)]
pub struct Infeasible;

/// Every entry of the hint is positive.
pub open spec fn positive(hint: Seq<usize>) -> bool {
    forall|k: int| 0 <= k < hint.len() ==> hint[k] > 0
}

/// Whether a cell in `from..to` is known to be filled.
fn has_filled(line: &Vec<Option<bool>>, from: usize, to: usize) -> (r: bool)
    requires
        from <= to <= line.len(),
    ensures
        r == exists|k: int| from <= k < to && line@[k] == Some(true),
{
    let mut k: usize = from;
    while k < to
        invariant
            from <= k <= to <= line.len(),
            forall|j: int| from <= j < k ==> line@[j] != Some(true),
        decreases to - k,
    {
        if line[k] == Some(true) {
            return true;
        }
        k += 1;
    }
    false
}

/// Decides every unknown cell of `from..to` as `val`.
fn fill_unknown(line: &mut Vec<Option<bool>>, from: usize, to: usize, val: bool)
    requires
        from <= to <= old(line).len(),
    ensures
        final(line)@.len() == old(line)@.len(),
        forall|k: int|
            0 <= k < old(line)@.len() ==> final(line)@[k] == if from <= k < to && old(line)@[k]
                is None {
                Some(val)
            } else {
                old(line)@[k]
            },
{
    let ghost line0 = line@;
    let mut k: usize = from;
    while k < to
        invariant
            from <= k <= to <= line@.len(),
            line@.len() == line0.len(),
            forall|j: int|
                0 <= j < line0.len() ==> line@[j] == if from <= j < k && line0[j] is None {
                    Some(val)
                } else {
                    line0[j]
                },
        decreases to - k,
    {
        if line[k].is_none() {
            line[k] = Some(val);
        }
        k += 1;
    }
}

/// End (exclusive) of the block starting at `x` whose cells are all
/// known-empty or all not known-empty, scanning from `k`.
pub open spec fn block_end_from(line: Seq<Option<bool>>, x: int, k: int) -> int
    decreases line.len() - k,
{
    if k >= line.len() || k < 0 || (line[k] == Some(false)) != (line[x] == Some(false)) {
        k
    } else {
        block_end_from(line, x, k + 1)
    }
}

/// End (exclusive) of the block of cells starting at `x`.
pub open spec fn block_end(line: Seq<Option<bool>>, x: int) -> int {
    block_end_from(line, x, x + 1)
}

/// `line` with its unknown cells in `from..to` decided as `v`.
pub open spec fn fill_range(line: Seq<Option<bool>>, from: int, to: int, v: bool) -> Seq<Option<bool>> {
    Seq::new(line.len(), |k: int| if from <= k < to && line[k] is None { Some(v) } else { line[k] })
}

/// Some cell in `from..to` is known to be filled.
pub open spec fn any_filled(line: Seq<Option<bool>>, from: int, to: int) -> bool {
    exists|k: int| from <= k < to && line[k] == Some(true)
}

/// The edge scan from cell `x` and hint entry `i` onward: `None` when it
/// meets a block too short for its run that holds a filled cell.
pub open spec fn front_scan(line: Seq<Option<bool>>, hint: Seq<usize>, x: int, i: int) -> Option<
    Seq<Option<bool>>,
>
    decreases line.len() - x,
{
    if x < 0 || x >= line.len() || i < 0 || i >= hint.len() {
        Some(line)
    } else {
        let nx = block_end(line, x);
        let v = hint[i] as int;
        if nx <= x || nx > line.len() {
            Some(line)
        } else if line[x] == Some(false) {
            front_scan(line, hint, nx, i)
        } else if nx - x == v {
            if any_filled(line, x, nx) {
                front_scan(fill_range(line, x, nx, true), hint, nx, i + 1)
            } else {
                Some(line)
            }
        } else if nx - x > v {
            if line[x] == Some(true) && v > 0 {
                front_scan(fill_range(line, x, x + v, true), hint, x + v, i + 1)
            } else {
                Some(line)
            }
        } else if any_filled(line, x, nx) {
            None
        } else {
            front_scan(fill_range(line, x, nx, false), hint, nx, i)
        }
    }
}

proof fn lemma_block_end(line: Seq<Option<bool>>, x: int, k: int, nx: int)
    requires
        0 <= x < k <= nx <= line.len(),
        forall|j: int| x <= j < nx ==> (line[j] == Some(false)) == (line[x] == Some(false)),
        nx == line.len() || (line[nx] == Some(false)) != (line[x] == Some(false)),
    ensures
        block_end_from(line, x, k) == nx,
    decreases nx - k,
{
    if k < nx {
        lemma_block_end(line, x, k + 1, nx);
    }
}

/// Edge-scan confirmation from the first cell toward the last, consuming the
/// hint from its first entry.
pub fn scan_front(line: &mut Vec<Option<bool>>, hint: &Vec<usize>) -> (r: Result<(), Infeasible>)
    requires
        positive(hint@),
    ensures
        r is Ok <==> front_scan(old(line)@, hint@, 0, 0) is Some,
        r is Ok ==> final(line)@ == front_scan(old(line)@, hint@, 0, 0)->Some_0,
        r is Ok ==> sound_step(old(line)@, final(line)@, hint@),
        r is Err ==> infeasible(old(line)@, hint@),
{
    let ghost line0 = line@;
    let n = line.len();
    let m = hint.len();
    let mut x: usize = 0;
    let mut i: usize = 0;
    proof {
        assert forall|c: Seq<bool>| completes(c, line0, hint@) implies runs_with(
            c.subrange(0, n as int),
            0,
        ) == hint_view(hint@).subrange(0, m as int) by {
            assert(c.subrange(0, n as int) =~= c);
            assert(hint_view(hint@).subrange(0, m as int) =~= hint_view(hint@));
        }
    }
    while x < n && i < m
        invariant
            n == line@.len(),
            m == hint@.len(),
            x <= n,
            i <= m,
            positive(hint@),
            line0 == old(line)@,
            keeps(line0, line@),
            forall|c: Seq<bool>|
                completes(c, line0, hint@) ==> agrees(c, line@) && runs_with(
                    c.subrange(x as int, n as int),
                    0,
                ) == hint_view(hint@).subrange(i as int, m as int),
            front_scan(line0, hint@, 0, 0) == front_scan(line@, hint@, x as int, i as int),
        ensures
            front_scan(line0, hint@, 0, 0) == Some(line@),
            keeps(line0, line@),
            forall|c: Seq<bool>| completes(c, line0, hint@) ==> agrees(c, line@),
        decreases n - x,
    {
        let lead_empty = line[x] == Some(false);
        let mut nx: usize = x + 1;
        while nx < n && (line[nx] == Some(false)) == lead_empty
            invariant
                x < nx <= n,
                n == line@.len(),
                lead_empty == (line@[x as int] == Some(false)),
                forall|k: int| x <= k < nx ==> (line@[k] == Some(false)) == lead_empty,
            decreases n - nx,
        {
            nx += 1;
        }
        let ghost cur = line@;
        proof {
            lemma_block_end(cur, x as int, x + 1, nx as int);
            assert(block_end(cur, x as int) == nx);
        }
        let ghost rest = hint_view(hint@).subrange(i + 1, m as int);
        proof {
            assert(hint_view(hint@).subrange(i as int, m as int) =~= seq![hint@[i as int] as int]
                + rest);
        }
        if lead_empty {
            proof {
                assert forall|c: Seq<bool>| completes(c, line0, hint@) implies runs_with(
                    c.subrange(nx as int, n as int),
                    0,
                ) == hint_view(hint@).subrange(i as int, m as int) by {
                    let t = c.subrange(x as int, n as int);
                    assert forall|k: int| 0 <= k < nx - x implies !t[k] by {
                        assert(cur[x + k] == Some(false));
                    }
                    lemma_skip_empty(t, nx - x);
                    assert(t.subrange(nx - x, t.len() as int) =~= c.subrange(nx as int, n as int));
                }
            }
            x = nx;
        } else {
            let len = nx - x;
            let v = hint[i];
            if len == v {
                if has_filled(line, x, nx) {
                    proof {
                        let f = choose|f: int| x <= f < nx && cur[f] == Some(true);
                        assert forall|c: Seq<bool>| completes(c, line0, hint@) implies (forall|
                            k: int,
                        |
                            x <= k < nx ==> c[k]) && runs_with(c.subrange(nx as int, n as int), 0)
                            == rest by {
                            let t = c.subrange(x as int, n as int);
                            let s = lemma_first_run(t, v as int, rest);
                            assert(t[f - x] == c[f]);
                            if s > 0 {
                                if nx < n {
                                    assert(t[len as int] == c[nx as int]);
                                    assert(cur[nx as int] == Some(false));
                                }
                            }
                            assert forall|k: int| x <= k < nx implies c[k] by {
                                assert(t[k - x] == c[k]);
                            }
                            assert(t.subrange(v as int, t.len() as int) =~= c.subrange(
                                nx as int,
                                n as int,
                            ));
                        }
                    }
                    fill_unknown(line, x, nx, true);
                    proof {
                        assert(line@ =~= fill_range(cur, x as int, nx as int, true));
                    }
                    i += 1;
                    x = nx;
                } else {
                    proof {
                        assert(front_scan(cur, hint@, x as int, i as int) == Some(cur));
                    }
                    break ;
                }
            } else if len > v {
                if line[x] == Some(true) {
                    let end = x + v;
                    proof {
                        assert forall|c: Seq<bool>| completes(c, line0, hint@) implies (forall|
                            k: int,
                        |
                            x <= k < end ==> c[k]) && runs_with(
                            c.subrange(end as int, n as int),
                            0,
                        ) == rest by {
                            let t = c.subrange(x as int, n as int);
                            let s = lemma_first_run(t, v as int, rest);
                            assert(t[0] == c[x as int]);
                            assert forall|k: int| x <= k < end implies c[k] by {
                                assert(t[k - x] == c[k]);
                            }
                            assert(t.subrange(v as int, t.len() as int) =~= c.subrange(
                                end as int,
                                n as int,
                            ));
                        }
                    }
                    fill_unknown(line, x, end, true);
                    proof {
                        assert(line@ =~= fill_range(cur, x as int, end as int, true));
                    }
                    i += 1;
                    x = end;
                } else {
                    proof {
                        assert(front_scan(cur, hint@, x as int, i as int) == Some(cur));
                    }
                    break ;
                }
            } else {
                proof {
                    assert forall|c: Seq<bool>| completes(c, line0, hint@) implies (forall|k: int|
                        x <= k < nx ==> !c[k]) && runs_with(c.subrange(nx as int, n as int), 0)
                        == hint_view(hint@).subrange(i as int, m as int) by {
                        let t = c.subrange(x as int, n as int);
                        let s = lemma_first_run(t, v as int, rest);
                        if s < len {
                            if nx < n {
                                assert(t[len as int] == c[nx as int]);
                                assert(cur[nx as int] == Some(false));
                            }
                        }
                        assert forall|k: int| x <= k < nx implies !c[k] by {
                            assert(t[k - x] == c[k]);
                        }
                        lemma_skip_empty(t, len as int);
                        assert(t.subrange(len as int, t.len() as int) =~= c.subrange(
                            nx as int,
                            n as int,
                        ));
                    }
                }
                if has_filled(line, x, nx) {
                    proof {
                        let f = choose|f: int| x <= f < nx && cur[f] == Some(true);
                        assert forall|c: Seq<bool>| !completes(c, line0, hint@) by {
                            if completes(c, line0, hint@) {
                                assert(agrees(c, cur));
                                assert(cur[f] is Some);
                                assert(c[f]);
                                assert(x <= f < nx ==> !c[f]);
                            }
                        }
                    }
                    return Err(Infeasible);
                }
                fill_unknown(line, x, nx, false);
                proof {
                    assert(line@ =~= fill_range(cur, x as int, nx as int, false));
                }
                x = nx;
            }
        }
    }
    Ok(())
}

/// A copy of `v` in reverse order.
pub fn reversed<T: Copy>(v: &Vec<T>) -> (r: Vec<T>)
    ensures
        r@ == v@.reverse(),
{
    let n = v.len();
    let mut r: Vec<T> = Vec::with_capacity(n);
    let mut k: usize = n;
    while k > 0
        invariant
            k <= n == v@.len(),
            r@.len() == n - k,
            forall|j: int| 0 <= j < n - k ==> r@[j] == v@[n - 1 - j],
        decreases k,
    {
        k -= 1;
        r.push(v[k]);
    }
    proof {
        assert(r@ =~= v@.reverse());
    }
    r
}

/// A completion of a line, read backwards, completes the reversed line
/// against the reversed hint.
proof fn lemma_reverse_completes(c: Seq<bool>, line: Seq<Option<bool>>, hint: Seq<usize>)
    requires
        completes(c, line, hint),
    ensures
        completes(c.reverse(), line.reverse(), hint.reverse()),
{
    lemma_runs_reverse(c);
    assert(hint_view(hint.reverse()) =~= hint_view(hint).reverse());
    let n = line.len();
    assert forall|k: int| 0 <= k < n && line.reverse()[k] is Some implies c.reverse()[k]
        == line.reverse()[k]->Some_0 by {
        assert(line.reverse()[k] == line[n - 1 - k]);
        assert(c.reverse()[k] == c[n - 1 - k]);
    }
}

/// Edge-scan confirmation from the last cell toward the first, consuming the
/// hint from its last entry: the mirror image of `scan_front`.
pub fn scan_back(line: &mut Vec<Option<bool>>, hint: &Vec<usize>) -> (r: Result<(), Infeasible>)
    requires
        positive(hint@),
    ensures
        r is Ok <==> front_scan(old(line)@.reverse(), hint@.reverse(), 0, 0) is Some,
        r is Ok ==> final(line)@ == front_scan(old(line)@.reverse(), hint@.reverse(), 0, 0)->Some_0.reverse(),
        r is Ok ==> sound_step(old(line)@, final(line)@, hint@),
        r is Err ==> infeasible(old(line)@, hint@),
{
    let ghost line0 = line@;
    let mut rl = reversed(line);
    let rh = reversed(hint);
    let ghost rl0 = rl@;
    proof {
        assert forall|k: int| 0 <= k < rh@.len() implies rh@[k] > 0 by {
            assert(rh@[k] == hint@[hint@.len() - 1 - k]);
        }
    }
    let res = scan_front(&mut rl, &rh);
    if res.is_err() {
        proof {
            assert forall|c: Seq<bool>| !completes(c, line0, hint@) by {
                if completes(c, line0, hint@) {
                    lemma_reverse_completes(c, line0, hint@);
                }
            }
        }
        return Err(Infeasible);
    }
    let back = reversed(&rl);
    proof {
        let n = line0.len();
        assert(rl@.reverse() == back@);
        assert(rl0.reverse() =~= line0);
        assert forall|k: int| 0 <= k < n && line0[k] is Some implies back@[k] == line0[k] by {
            assert(back@[k] == rl@[n - 1 - k]);
            assert(rl0[n - 1 - k] == line0[k]);
        }
        assert forall|c: Seq<bool>| completes(c, line0, hint@) implies agrees(c, back@) by {
            lemma_reverse_completes(c, line0, hint@);
            assert(agrees(c.reverse(), rl@));
            assert forall|k: int| 0 <= k < n && back@[k] is Some implies c[k] == back@[k]->Some_0 by {
                assert(back@[k] == rl@[n - 1 - k]);
                assert(c.reverse()[n - 1 - k] == c[k]);
            }
        }
    }
    *line = back;
    Ok(())
}

/// Every cell that all completions of `line` matching `hint` agree on is
/// decided that way; the other cells stay as they are.
pub open spec fn consensus(line: Seq<Option<bool>>, hint: Seq<usize>) -> Seq<Option<bool>> {
    Seq::new(
        line.len(),
        |p: int|
            if line[p] is Some {
                line[p]
            } else if forall|c: Seq<bool>| completes(c, line, hint) ==> c[p] {
                Some(true)
            } else if forall|c: Seq<bool>| completes(c, line, hint) ==> !c[p] {
                Some(false)
            } else {
                None
            },
    )
}

/// Relies on itertools::Itertools::combinations: it yields, for every choice
/// of `k` positions of `items` in increasing order, the items at those
/// positions, and nothing else.
#[verifier::external_body]
fn combinations_of(items: &Vec<usize>, k: usize) -> (r: Vec<Vec<usize>>)
    ensures
        forall|j: int| 0 <= j < r@.len() ==> r@[j]@.len() == k && is_subseq(r@[j]@, items@),
        forall|a: Seq<usize>|
            a.len() == k && is_subseq(a, items@) ==> exists|j: int| 0 <= j < r@.len() && r@[j]@ == a,
{
    items.iter().copied().combinations(k).collect()
}

proof fn lemma_total_push(q: Seq<int>, x: int)
    ensures
        total(q.push(x)) == total(q) + x,
    decreases q.len(),
{
    if q.len() == 0 {
        assert(q.push(x).drop_first() =~= q);
    } else {
        lemma_total_push(q.drop_first(), x);
        assert(q.push(x).drop_first() =~= q.drop_first().push(x));
    }
}

proof fn lemma_count_bound(s: Seq<bool>)
    ensures
        0 <= count_filled(s) <= s.len(),
    decreases s.len(),
{
    if s.len() > 0 {
        lemma_count_bound(s.drop_last());
    }
}

/// The sum of the hint, or `None` when it exceeds `cap`.
fn hint_total(hint: &Vec<usize>, cap: usize) -> (r: Option<usize>)
    ensures
        r is Some ==> r->Some_0 == total(hint_view(hint@)) && r->Some_0 <= cap,
        r is None ==> total(hint_view(hint@)) > cap,
{
    let m = hint.len();
    let mut acc: usize = 0;
    let mut k: usize = 0;
    proof {
        assert(hint_view(hint@).subrange(0, 0) =~= Seq::<int>::empty());
    }
    while k < m
        invariant
            m == hint@.len(),
            k <= m,
            acc <= cap,
            acc == total(hint_view(hint@).subrange(0, k as int)),
            forall|j: int| 0 <= j < m ==> hint@[j] >= 0,
        decreases m - k,
    {
        proof {
            assert(hint_view(hint@).subrange(0, k + 1) =~= hint_view(hint@).subrange(
                0,
                k as int,
            ).push(hint@[k as int] as int));
            lemma_total_push(hint_view(hint@).subrange(0, k as int), hint@[k as int] as int);
        }
        if hint[k] > cap - acc {
            proof {
                lemma_total_prefix_bound(hint_view(hint@), k + 1);
            }
            return None;
        }
        acc = acc + hint[k];
        k += 1;
    }
    proof {
        assert(hint_view(hint@).subrange(0, m as int) =~= hint_view(hint@));
    }
    Some(acc)
}

/// With nonnegative entries, a prefix sums to no more than the whole.
proof fn lemma_total_prefix_bound(q: Seq<int>, k: int)
    requires
        0 <= k <= q.len(),
        forall|j: int| 0 <= j < q.len() ==> q[j] >= 0,
    ensures
        total(q.subrange(0, k)) <= total(q),
    decreases q.len() - k,
{
    if k < q.len() {
        lemma_total_prefix_bound(q, k + 1);
        assert(q.subrange(0, k + 1) =~= q.subrange(0, k).push(q[k]));
        lemma_total_push(q.subrange(0, k), q[k]);
    } else {
        assert(q.subrange(0, k) =~= q);
    }
}

/// Positions of the unknown cells and the number of known-filled cells.
fn survey(line: &Vec<Option<bool>>) -> (r: (Vec<usize>, usize))
    ensures
        r.0@ == unknown_positions(line@),
        r.1 == known_filled(line@),
{
    let n = line.len();
    let mut idx: Vec<usize> = Vec::new();
    let mut filled: usize = 0;
    let mut k: usize = 0;
    while k < n
        invariant
            n == line@.len(),
            k <= n,
            idx@ == unknown_positions(line@.subrange(0, k as int)),
            filled == known_filled(line@.subrange(0, k as int)),
            filled <= k,
        decreases n - k,
    {
        proof {
            assert(line@.subrange(0, k + 1).drop_last() =~= line@.subrange(0, k as int));
        }
        if line[k].is_none() {
            idx.push(k);
        } else if line[k] == Some(true) {
            filled += 1;
        }
        k += 1;
    }
    proof {
        assert(line@.subrange(0, n as int) =~= line@);
    }
    (idx, filled)
}

/// The filled/empty line that fills the known-filled cells and the positions
/// in `a`.
fn candidate_line(line: &Vec<Option<bool>>, a: &Vec<usize>) -> (r: Vec<bool>)
    requires
        forall|j: int| 0 <= j < a@.len() ==> a@[j] < line@.len(),
    ensures
        r@ == candidate(line@, a@),
{
    let n = line.len();
    let mut r: Vec<bool> = Vec::with_capacity(n);
    let mut p: usize = 0;
    while p < n
        invariant
            n == line@.len(),
            p <= n,
            r@.len() == p,
            forall|q: int| 0 <= q < p ==> r@[q] == (line@[q] == Some(true)),
        decreases n - p,
    {
        r.push(line[p] == Some(true));
        p += 1;
    }
    let mut k: usize = 0;
    while k < a.len()
        invariant
            n == line@.len(),
            k <= a@.len(),
            r@.len() == n,
            forall|j: int| 0 <= j < a@.len() ==> a@[j] < n,
            forall|q: int|
                0 <= q < n ==> r@[q] == (line@[q] == Some(true) || a@.subrange(0, k as int).contains(
                    q as usize,
                )),
        decreases a@.len() - k,
    {
        let q0 = a[k];
        r[q0] = true;
        proof {
            assert forall|q: int| 0 <= q < n implies r@[q] == (line@[q] == Some(true) || a@.subrange(
                0,
                k + 1,
            ).contains(q as usize)) by {
                let s0 = a@.subrange(0, k as int);
                let s1 = a@.subrange(0, k + 1);
                if s0.contains(q as usize) {
                    let j = choose|j: int| 0 <= j < s0.len() && s0[j] == q as usize;
                    assert(s1[j] == q as usize);
                }
                if s1.contains(q as usize) && q != q0 {
                    let j = choose|j: int| 0 <= j < s1.len() && s1[j] == q as usize;
                    assert(s0[j] == q as usize);
                }
                if q == q0 {
                    assert(s1[k as int] == q0);
                }
            }
        }
        k += 1;
    }
    proof {
        assert(a@.subrange(0, a@.len() as int) =~= a@);
        assert(r@ =~= candidate(line@, a@));
    }
    r
}

/// Whether two hints are equal.
pub(crate) fn same_hint(a: &Vec<usize>, b: &Vec<usize>) -> (r: bool)
    ensures
        r == (hint_view(a@) == hint_view(b@)),
{
    if a.len() != b.len() {
        proof {
            assert(hint_view(a@).len() != hint_view(b@).len());
        }
        return false;
    }
    let mut k: usize = 0;
    while k < a.len()
        invariant
            a@.len() == b@.len(),
            k <= a@.len(),
            forall|j: int| 0 <= j < k ==> a@[j] == b@[j],
        decreases a@.len() - k,
    {
        if a[k] != b[k] {
            proof {
                assert(hint_view(a@)[k as int] != hint_view(b@)[k as int]);
            }
            return false;
        }
        k += 1;
    }
    proof {
        assert(hint_view(a@) =~= hint_view(b@));
    }
    true
}

/// A candidate built from unknown positions agrees with the line.
proof fn lemma_candidate_agrees(line: Seq<Option<bool>>, a: Seq<usize>)
    requires
        line.len() <= usize::MAX,
        is_subseq(a, unknown_positions(line)),
    ensures
        agrees(candidate(line, a), line),
{
    lemma_unknown_positions(line);
    assert forall|k: int| 0 <= k < line.len() && line[k] is Some implies candidate(line, a)[k]
        == line[k]->Some_0 by {
        if a.contains(k as usize) {
            lemma_subseq_contains(a, unknown_positions(line), k as usize);
        }
    }
}

/// Every completion is the candidate of the unknown positions it fills, and
/// those are as many as the hint's total less the known-filled cells.
proof fn lemma_completion_is_candidate(line: Seq<Option<bool>>, hint: Seq<usize>, c: Seq<bool>)
    requires
        line.len() <= usize::MAX,
        completes(c, line, hint),
    ensures
        is_subseq(picked(line, c), unknown_positions(line)),
        picked(line, c).len() == total(hint_view(hint)) - known_filled(line),
        candidate(line, picked(line, c)) == c,
{
    lemma_picked(line, c);
    lemma_total_runs(c, 0);
    assert forall|p: int| 0 <= p < line.len() implies candidate(line, picked(line, c))[p]
        == c[p] by {
        if line[p] is Some {
            assert(c[p] == line[p]->Some_0);
            assert(!picked(line, c).contains(p as usize));
        } else {
            assert(picked(line, c).contains(p as usize) == c[p]);
        }
    }
    assert(candidate(line, picked(line, c)) =~= c);
}

spec fn cand_at(line: Seq<Option<bool>>, combos: Seq<Vec<usize>>, i: int) -> Seq<bool> {
    candidate(line, combos[i]@)
}

spec fn valid_at(
    line: Seq<Option<bool>>,
    combos: Seq<Vec<usize>>,
    hint: Seq<usize>,
    i: int,
) -> bool {
    runs(candidate(line, combos[i]@)) == hint_view(hint)
}

/// Bounded exhaustive enumeration: tries every way to fill as many unknown
/// cells as the hint still needs, keeps the assignments whose runs match the
/// hint, and decides each cell they all agree on.
pub fn enumerate(line: &mut Vec<Option<bool>>, hint: &Vec<usize>) -> (r: Result<(), Infeasible>)
    ensures
        r is Err <==> infeasible(old(line)@, hint@),
        r is Ok ==> final(line)@ == consensus(old(line)@, hint@),
{
    let ghost line0 = line@;
    let n = line.len();
    let (idx, filled) = survey(line);
    let ghost tot_spec = total(hint_view(hint@));
    let tot = match hint_total(hint, n) {
        Some(t) => t,
        None => {
            proof {
                assert forall|c: Seq<bool>| !completes(c, line0, hint@) by {
                    if completes(c, line0, hint@) {
                        lemma_total_runs(c, 0);
                        lemma_count_bound(c);
                    }
                }
            }
            return Err(Infeasible);
        },
    };
    if tot < filled {
        proof {
            assert forall|c: Seq<bool>| !completes(c, line0, hint@) by {
                if completes(c, line0, hint@) {
                    lemma_completion_is_candidate(line0, hint@, c);
                }
            }
        }
        return Err(Infeasible);
    }
    let need = tot - filled;
    let combos = combinations_of(&idx, need);
    let mut can_true: Vec<bool> = vec![false; n];
    let mut can_false: Vec<bool> = vec![false; n];
    let mut any = false;
    let mut j: usize = 0;
    while j < combos.len()
        invariant
            n == line@.len(),
            line@ == line0,
            idx@ == unknown_positions(line0),
            need == tot_spec - known_filled(line0),
            can_true@.len() == n,
            can_false@.len() == n,
            j <= combos@.len(),
            forall|i: int|
                0 <= i < combos@.len() ==> combos@[i]@.len() == need && is_subseq(
                    combos@[i]@,
                    idx@,
                ),
            any == exists|i: int| 0 <= i < j && valid_at(line0, combos@, hint@, i),
            forall|p: int|
                0 <= p < n ==> (can_true@[p] == exists|i: int|
                    0 <= i < j && valid_at(line0, combos@, hint@, i) && cand_at(line0, combos@, i)[p]),
            forall|p: int|
                0 <= p < n ==> (can_false@[p] == exists|i: int|
                    0 <= i < j && valid_at(line0, combos@, hint@, i) && !cand_at(line0, combos@, i)[p]),
        decreases combos@.len() - j,
    {
        proof {
            lemma_unknown_positions(line0);
            assert forall|k: int| 0 <= k < combos@[j as int]@.len() implies combos@[j as int]@[k]
                < n by {
                assert(combos@[j as int]@.contains(combos@[j as int]@[k]));
                lemma_subseq_contains(combos@[j as int]@, idx@, combos@[j as int]@[k]);
            }
        }
        let cl = candidate_line(line, &combos[j]);
        let rv = compress(&cl);
        let ok = same_hint(&rv, hint);
        let ghost ct = can_true@;
        let ghost cf = can_false@;
        if ok {
            let mut p: usize = 0;
            while p < n
                invariant
                    n == line@.len(),
                    cl@.len() == n,
                    p <= n,
                    can_true@.len() == n,
                    can_false@.len() == n,
                    forall|q: int|
                        0 <= q < n ==> can_true@[q] == if q < p && cl@[q] {
                            true
                        } else {
                            ct[q]
                        },
                    forall|q: int|
                        0 <= q < n ==> can_false@[q] == if q < p && !cl@[q] {
                            true
                        } else {
                            cf[q]
                        },
                decreases n - p,
            {
                if cl[p] {
                    can_true[p] = true;
                } else {
                    can_false[p] = true;
                }
                p += 1;
            }
            any = true;
        }
        proof {
            assert(cl@ == cand_at(line0, combos@, j as int));
            assert(ok == valid_at(line0, combos@, hint@, j as int));
            assert forall|p: int| 0 <= p < n implies (can_true@[p] == exists|i: int|
                0 <= i < j + 1 && valid_at(line0, combos@, hint@, i) && cand_at(line0, combos@, i)[p]) by {
                if can_true@[p] && !ct[p] {
                    assert(valid_at(line0, combos@, hint@, j as int) && cand_at(line0, combos@, j as int)[p]);
                }
                if exists|i: int| 0 <= i < j + 1 && valid_at(line0, combos@, hint@, i) && cand_at(line0, combos@, i)[p] {
                    let i = choose|i: int| 0 <= i < j + 1 && valid_at(line0, combos@, hint@, i) && cand_at(line0, combos@, i)[p];
                    if i < j {
                        assert(ct[p]);
                    }
                }
            }
            assert forall|p: int| 0 <= p < n implies (can_false@[p] == exists|i: int|
                0 <= i < j + 1 && valid_at(line0, combos@, hint@, i) && !cand_at(line0, combos@, i)[p]) by {
                if can_false@[p] && !cf[p] {
                    assert(valid_at(line0, combos@, hint@, j as int) && !cand_at(line0, combos@, j as int)[p]);
                }
                if exists|i: int| 0 <= i < j + 1 && valid_at(line0, combos@, hint@, i) && !cand_at(line0, combos@, i)[p] {
                    let i = choose|i: int| 0 <= i < j + 1 && valid_at(line0, combos@, hint@, i) && !cand_at(line0, combos@, i)[p];
                    if i < j {
                        assert(cf[p]);
                    }
                }
            }
            if any && !(exists|i: int| 0 <= i < j && valid_at(line0, combos@, hint@, i)) {
                assert(valid_at(line0, combos@, hint@, j as int));
            }
        }
        j += 1;
    }
    proof {
        // every completion shows up among the valid candidates
        assert forall|c: Seq<bool>| completes(c, line0, hint@) implies exists|i: int|
            0 <= i < combos@.len() && valid_at(line0, combos@, hint@, i) && cand_at(line0, combos@, i) == c by {
            lemma_completion_is_candidate(line0, hint@, c);
            let i = choose|i: int| 0 <= i < combos@.len() && combos@[i]@ == picked(line0, c);
            assert(cand_at(line0, combos@, i) == c);
        }
        // and every valid candidate is a completion
        assert forall|i: int| 0 <= i < combos@.len() && valid_at(line0, combos@, hint@, i) implies completes(
            cand_at(line0, combos@, i),
            line0,
            hint@,
        ) by {
            lemma_candidate_agrees(line0, combos@[i]@);
        }
    }
    if !any {
        proof {
            assert forall|c: Seq<bool>| !completes(c, line0, hint@) by {
                if completes(c, line0, hint@) {
                    let i = choose|i: int| 0 <= i < combos@.len() && valid_at(line0, combos@, hint@, i) && cand_at(line0, combos@, i) == c;
                }
            }
        }
        return Err(Infeasible);
    }
    let mut p: usize = 0;
    while p < n
        invariant
            n == line@.len(),
            n == line0.len(),
            p <= n,
            can_true@.len() == n,
            can_false@.len() == n,
            any,
            exists|i: int| 0 <= i < combos@.len() && valid_at(line0, combos@, hint@, i),
            forall|q: int|
                0 <= q < n ==> (can_true@[q] == exists|i: int|
                    0 <= i < combos@.len() && valid_at(line0, combos@, hint@, i) && cand_at(line0, combos@, i)[q]),
            forall|q: int|
                0 <= q < n ==> (can_false@[q] == exists|i: int|
                    0 <= i < combos@.len() && valid_at(line0, combos@, hint@, i) && !cand_at(line0, combos@, i)[q]),
            forall|c: Seq<bool>|
                completes(c, line0, hint@) ==> exists|i: int|
                    0 <= i < combos@.len() && valid_at(line0, combos@, hint@, i) && cand_at(line0, combos@, i) == c,
            forall|i: int|
                0 <= i < combos@.len() && valid_at(line0, combos@, hint@, i) ==> completes(cand_at(line0, combos@, i), line0, hint@),
            forall|q: int| 0 <= q < p ==> line@[q] == consensus(line0, hint@)[q],
            forall|q: int| p <= q < n ==> line@[q] == line0[q],
        decreases n - p,
    {
        let ghost want = consensus(line0, hint@)[p as int];
        if line[p].is_none() {
            if can_true[p] && !can_false[p] {
                line[p] = Some(true);
            } else if !can_true[p] && can_false[p] {
                line[p] = Some(false);
            }
        }
        proof {
            let q = p as int;
            let cq = consensus(line0, hint@)[q];
            if line0[q] is Some {
                assert(cq == line0[q]);
            }
            if line0[q] is None {
                let t_all = forall|c: Seq<bool>| completes(c, line0, hint@) ==> c[q];
                let f_all = forall|c: Seq<bool>| completes(c, line0, hint@) ==> !c[q];
                if t_all {
                    assert(!can_false@[q]) by {
                        if can_false@[q] {
                            let i = choose|i: int|
                                0 <= i < combos@.len() && valid_at(line0, combos@, hint@, i) && !cand_at(line0, combos@, i)[q];
                        }
                    }
                    let i = choose|i: int| 0 <= i < combos@.len() && valid_at(line0, combos@, hint@, i);
                    assert(cand_at(line0, combos@, i)[q]);
                    assert(can_true@[q]);
                    assert(cq == Some(true));
                } else if f_all {
                    assert(!can_true@[q]) by {
                        if can_true@[q] {
                            let i = choose|i: int| 0 <= i < combos@.len() && valid_at(line0, combos@, hint@, i) && cand_at(line0, combos@, i)[q];
                        }
                    }
                    let i = choose|i: int| 0 <= i < combos@.len() && valid_at(line0, combos@, hint@, i);
                    assert(!cand_at(line0, combos@, i)[q]);
                    assert(can_false@[q]);
                    assert(cq == Some(false));
                } else {
                    let c1 = choose|c: Seq<bool>| completes(c, line0, hint@) && !c[q];
                    let c2 = choose|c: Seq<bool>| completes(c, line0, hint@) && c[q];
                    let i1 = choose|i: int| 0 <= i < combos@.len() && valid_at(line0, combos@, hint@, i) && cand_at(line0, combos@, i) == c1;
                    let i2 = choose|i: int| 0 <= i < combos@.len() && valid_at(line0, combos@, hint@, i) && cand_at(line0, combos@, i) == c2;
                    assert(can_false@[q]);
                    assert(can_true@[q]);
                    assert(cq == None::<bool>);
                }
            }
        }
        p += 1;
    }
    proof {
        assert(line@ =~= consensus(line0, hint@));
        let i = choose|i: int| 0 <= i < combos@.len() && valid_at(line0, combos@, hint@, i);
        assert(completes(cand_at(line0, combos@, i), line0, hint@));
        assert(!infeasible(line0, hint@));
    }
    Ok(())
}

/// Every entry of a run sequence is at least one.
pub open spec fn all_positive(h: Seq<int>) -> bool {
    forall|j: int| 0 <= j < h.len() ==> h[j] >= 1
}

/// Where run `i` of a line can lie: it starts no earlier than the runs
/// before it packed flush left allow, and ends no later than the runs after
/// it packed flush right allow.
pub proof fn lemma_run_bounds(t: Seq<bool>, h: Seq<int>, i: int) -> (s: int)
    requires
        runs_with(t, 0) == h,
        all_positive(h),
        0 <= i < h.len(),
    ensures
        s >= total(h.subrange(0, i)) + i,
        s + h[i] <= t.len() - total(h.subrange(i + 1, h.len() as int)) - (h.len() - 1 - i),
        forall|x: int| s <= x < s + h[i] ==> t[x],
    decreases t.len(),
{
    let v = h[0];
    assert(h =~= seq![v] + h.drop_first());
    let s0 = lemma_first_run(t, v, h.drop_first());
    assert(total(h.subrange(0, 0)) == 0);
    if h.len() == 1 {
        assert(h.subrange(1, 1).len() == 0);
        assert(total(h.subrange(1, 1)) == 0);
        s0
    } else {
        let t1 = t.subrange(s0 + v, t.len() as int);
        assert(t1.len() > 0) by {
            if t1.len() == 0 {
                assert(runs_with(t1, 0) =~= Seq::<int>::empty());
            }
        }
        assert(!t[s0 + v]);
        let t2 = t.subrange(s0 + v + 1, t.len() as int);
        assert(t1.drop_first() =~= t2);
        assert(runs_with(t2, 0) == h.drop_first());
        let g = h.drop_first();
        if i == 0 {
            let m = g.len() - 1;
            let sl = lemma_run_bounds(t2, g, m);
            assert(g.subrange(m + 1, g.len() as int).len() == 0);
            assert(total(g.subrange(m + 1, g.len() as int)) == 0);
            assert(g.subrange(0, m + 1) =~= g.subrange(0, m).push(g[m]));
            lemma_total_push(g.subrange(0, m), g[m]);
            assert(g.subrange(0, m + 1) =~= g);
            assert(h.subrange(1, h.len() as int) =~= g);
            s0
        } else {
            let s2 = lemma_run_bounds(t2, g, i - 1);
            lemma_total_nonneg(g.subrange(i, g.len() as int));
            lemma_total_nonneg(g.subrange(0, i - 1));
            assert(h.subrange(0, i).drop_first() =~= g.subrange(0, i - 1));
            assert(h.subrange(0, i)[0] == v);
            assert(g.subrange(i, g.len() as int) =~= h.subrange(i + 1, h.len() as int));
            assert(g[i - 1] == h[i]);
            let s = s0 + v + 1 + s2;
            assert(total(g.subrange(i, g.len() as int)) >= 0);
            assert(s2 + g[i - 1] <= t2.len());
            assert(t2.len() == t.len() - (s0 + v + 1));
            assert forall|x: int| s <= x < s + h[i] implies t[x] by {
                let y = x - (s0 + v + 1);
                assert(s2 <= y < s2 + g[i - 1]);
                assert(t2[y]);
                assert(0 <= x < t.len());
                assert(t2[y] == t[y + (s0 + v + 1)]);
            }
            s
        }
    }
}

/// Where run `i` starts when all runs are packed flush left.
pub open spec fn packed_left_start(h: Seq<int>, i: int) -> int {
    total(h.subrange(0, i)) + i
}

/// Where run `i` ends (exclusive) when all runs are packed flush right in a
/// line of `n` cells.
pub open spec fn packed_right_end(h: Seq<int>, n: int, i: int) -> int {
    n - total(h.subrange(i + 1, h.len() as int)) - (h.len() - 1 - i)
}

/// Run `i` covers cell `p` both when packed flush left and when packed flush
/// right.
pub open spec fn overlap_covers(h: Seq<int>, n: int, i: int, p: int) -> bool {
    &&& 0 <= i < h.len()
    &&& packed_right_end(h, n, i) - h[i] <= p < packed_left_start(h, i) + h[i]
}

/// Some run covers cell `p` both when packed flush left and when packed
/// flush right.
pub open spec fn covered(h: Seq<int>, n: int, p: int) -> bool {
    exists|i: int| #[trigger] overlap_covers(h, n, i, p)
}

/// What overlap fill makes of `line`: `None` when the runs with their
/// gaps are longer than the line, or when a cell it would fill is known to
/// be empty.
pub open spec fn overlap_result(line: Seq<Option<bool>>, hint: Seq<usize>) -> Option<Seq<Option<bool>>> {
    let h = hint_view(hint);
    let n = line.len() as int;
    if hint.len() == 0 {
        Some(line)
    } else if total(h) + hint.len() - 1 > n {
        None
    } else if exists|p: int| 0 <= p < n && covered(h, n, p) && line[p] == Some(false) {
        None
    } else {
        Some(Seq::new(line.len(), |p: int| if covered(h, n, p) { Some(true) } else { line[p] }))
    }
}

/// Overlap fill: for each hint entry, the cells covered both when all runs
/// are packed flush left and when all are packed flush right are filled.
pub fn overlap_fill(line: &mut Vec<Option<bool>>, hint: &Vec<usize>) -> (r: Result<(), Infeasible>)
    requires
        positive(hint@),
    ensures
        r is Ok ==> sound_step(old(line)@, final(line)@, hint@),
        r is Ok ==> forall|p: int|
            0 <= p < old(line)@.len() ==> final(line)@[p] == if covered(hint_view(hint@), old(line)@.len() as int, p) {
                Some(true)
            } else {
                old(line)@[p]
            },
        r is Err ==> infeasible(old(line)@, hint@),
        r is Ok <==> overlap_result(old(line)@, hint@) is Some,
        r is Ok ==> final(line)@ == overlap_result(old(line)@, hint@)->Some_0,
{
    let ghost line0 = line@;
    let ghost h = hint_view(hint@);
    let n = line.len();
    let k = hint.len();
    if k == 0 {
        proof {
            assert(keeps(line0, line@));
            assert(line@ =~= overlap_result(line0, hint@)->Some_0);
        }
        return Ok(());
    }
    let ghost nn = n as int;
    let tot = match hint_total(hint, n) {
        Some(t) => t,
        None => {
            proof {
                assert forall|c: Seq<bool>| !completes(c, line0, hint@) by {
                    if completes(c, line0, hint@) {
                        lemma_total_runs(c, 0);
                        lemma_count_bound(c);
                    }
                }
            }
            return Err(Infeasible);
        },
    };
    if k - 1 > n || tot > n - (k - 1) {
        proof {
            assert forall|c: Seq<bool>| !completes(c, line0, hint@) by {
                if completes(c, line0, hint@) {
                    let sl = lemma_run_bounds(c, h, k - 1);
                    lemma_total_nonneg(h.subrange(0, k - 1));
                    assert(h.subrange(0, k as int) =~= h.subrange(0, k - 1).push(h[k - 1]));
                    lemma_total_push(h.subrange(0, k - 1), h[k - 1]);
                    assert(h.subrange(0, k as int) =~= h);
                    assert(h.subrange(k as int, k as int).len() == 0);
                    assert(total(h.subrange(k as int, k as int)) == 0);
                }
            }
        }
        return Err(Infeasible);
    }
    let mut l_sum: usize = 0;
    let mut i: usize = 0;
    while i < k
        invariant
            n == line@.len(),
            k == hint@.len(),
            h == hint_view(hint@),
            tot == total(h),
            tot + (k - 1) <= n,
            line0 == old(line)@,
            i <= k,
            l_sum == total(h.subrange(0, i as int)),
            positive(hint@),
            keeps(line0, line@),
            forall|c: Seq<bool>| completes(c, line0, hint@) ==> agrees(c, line@),
            nn == n,
            forall|p: int|
                0 <= p < n && (exists|j: int| j < i && #[trigger] overlap_covers(h, nn, j, p)) ==> line0[p] != Some(false),
            forall|p: int|
                0 <= p < n ==> line@[p] == if exists|j: int| j < i && #[trigger] overlap_covers(h, nn, j, p) {
                    Some(true)
                } else {
                    line0[p]
                },
        decreases k - i,
    {
        let v = hint[i];
        proof {
            assert(h.subrange(0, i + 1) =~= h.subrange(0, i as int).push(h[i as int]));
            lemma_total_push(h.subrange(0, i as int), h[i as int]);
            assert(h =~= h.subrange(0, i + 1) + h.subrange(i + 1, k as int));
            lemma_total_concat(h.subrange(0, i + 1), h.subrange(i + 1, k as int));
            lemma_total_nonneg(h.subrange(i + 1, k as int));
        }
        let rest = tot - l_sum - v;
        let start_left = l_sum + i;
        let end_right = n - rest - (k - 1 - i);
        let start_right = end_right - v;
        let end_left = start_left + v;
        proof {
            assert(start_right == packed_right_end(h, nn, i as int) - h[i as int]);
            assert(end_left == packed_left_start(h, i as int) + h[i as int]);
        }
        let ghost lb = line@;
        if start_right < end_left {
            proof {
                assert forall|c: Seq<bool>| completes(c, line0, hint@) implies forall|x: int|
                    start_right <= x < end_left ==> c[x] by {
                    let s = lemma_run_bounds(c, h, i as int);
                    lemma_total_nonneg(h.subrange(i + 1, k as int));
                }
            }
            let mut x: usize = start_right;
            while x < end_left
                invariant
                    n == line@.len(),
                    line0 == old(line)@,
                    start_right <= x <= end_left <= n,
                    keeps(line0, line@),
                    forall|c: Seq<bool>| completes(c, line0, hint@) ==> agrees(c, line@),
                    forall|c: Seq<bool>|
                        completes(c, line0, hint@) ==> forall|y: int|
                            start_right <= y < end_left ==> c[y],
                    forall|p: int|
                        0 <= p < n ==> line@[p] == if start_right <= p < x {
                            Some(true)
                        } else {
                            lb[p]
                        },
                    forall|p: int| start_right <= p < x ==> line0[p] != Some(false),
                    forall|p: int|
                        0 <= p < n && (exists|j: int| j < i && #[trigger] overlap_covers(h, nn, j, p)) ==> line0[p] != Some(false),
                    forall|p: int|
                        0 <= p < n ==> lb[p] == if exists|j: int| j < i && #[trigger] overlap_covers(h, nn, j, p) {
                            Some(true)
                        } else {
                            line0[p]
                        },
                    forall|p: int| start_right <= p < end_left ==> #[trigger] overlap_covers(h, nn, i as int, p),
                    nn == n,
                    tot == total(h),
                    tot + (k - 1) <= n,
                    k == hint@.len(),
                    h == hint_view(hint@),
                decreases end_left - x,
            {
                if line[x] == Some(false) {
                    proof {
                        assert forall|c: Seq<bool>| !completes(c, line0, hint@) by {
                            if completes(c, line0, hint@) {
                                assert(agrees(c, line@));
                                assert(c[x as int]);
                            }
                        }
                        assert(lb[x as int] == Some(false));
                        assert(line0[x as int] == Some(false));
                        assert(overlap_covers(h, nn, i as int, x as int));
                        assert(covered(h, nn, x as int));
                        assert(0 <= x < nn && covered(h, nn, x as int) && line0[x as int] == Some(false));
                        assert(total(h) + k - 1 <= nn);
                        assert(overlap_result(line0, hint@) is None);
                    }
                    return Err(Infeasible);
                }
                let ghost before = line@;
                line[x] = Some(true);
                proof {
                    assert forall|y: int| 0 <= y < line0.len() && line0[y] is Some implies line@[y]
                        == line0[y] by {
                        if y == x {
                            assert(before[y] == line0[y]);
                        }
                    }
                }
                x += 1;
            }
        }
        proof {
            assert forall|p: int| 0 <= p < n implies line@[p] == if exists|j: int| j < i + 1
                && #[trigger] overlap_covers(h, nn, j, p) {
                Some(true)
            } else {
                line0[p]
            } by {
                if overlap_covers(h, nn, i as int, p) {
                    assert(start_right <= p < end_left);
                } else if exists|j: int| j < i + 1 && #[trigger] overlap_covers(h, nn, j, p) {
                    let j = choose|j: int| j < i + 1 && #[trigger] overlap_covers(h, nn, j, p);
                    assert(j < i);
                }
            }
        }
        l_sum = l_sum + v;
        i += 1;
    }
    Ok(())
}

proof fn lemma_total_concat(a: Seq<int>, b: Seq<int>)
    ensures
        total(a + b) == total(a) + total(b),
    decreases a.len(),
{
    if a.len() > 0 {
        lemma_total_concat(a.drop_first(), b);
        assert((a + b).drop_first() =~= a.drop_first() + b);
    } else {
        assert(a + b =~= b);
    }
}

proof fn lemma_total_nonneg(q: Seq<int>)
    requires
        forall|j: int| 0 <= j < q.len() ==> q[j] >= 0,
    ensures
        total(q) >= 0,
    decreases q.len(),
{
    if q.len() > 0 {
        lemma_total_nonneg(q.drop_first());
    }
}

/// Lines with at most this many unknown cells are solved by exhaustive
/// enumeration as well as by the edge scans.
pub const ENUMERATION_LIMIT: usize = 13;

proof fn lemma_steps_chain(a: Seq<Option<bool>>, b: Seq<Option<bool>>, c: Seq<Option<bool>>, hint: Seq<usize>)
    requires
        sound_step(a, b, hint),
        sound_step(b, c, hint),
    ensures
        sound_step(a, c, hint),
{
}

proof fn lemma_step_infeasible(a: Seq<Option<bool>>, b: Seq<Option<bool>>, hint: Seq<usize>)
    requires
        sound_step(a, b, hint),
        infeasible(b, hint),
    ensures
        infeasible(a, hint),
{
    assert forall|c: Seq<bool>| !completes(c, a, hint) by {
        if completes(c, a, hint) {
            assert(completes(c, b, hint));
        }
    }
}

/// The consensus of a line that has a completion only decides cells soundly.
proof fn lemma_consensus_sound(line: Seq<Option<bool>>, hint: Seq<usize>)
    requires
        !infeasible(line, hint),
    ensures
        sound_step(line, consensus(line, hint), hint),
{
    let cs = consensus(line, hint);
    assert forall|c: Seq<bool>| completes(c, line, hint) implies agrees(c, cs) by {
        assert forall|k: int| 0 <= k < cs.len() && cs[k] is Some implies c[k] == cs[k]->Some_0 by {
            if line[k] is None {
                if forall|d: Seq<bool>| completes(d, line, hint) ==> d[k] {
                    assert(c[k]);
                } else {
                    assert(forall|d: Seq<bool>| completes(d, line, hint) ==> !d[k]);
                    assert(!c[k]);
                }
            }
        }
    }
}

/// Once a line is its own consensus, sound steps decide nothing more.
proof fn lemma_consensus_stable(l0: Seq<Option<bool>>, l3: Seq<Option<bool>>, hint: Seq<usize>)
    requires
        !infeasible(l0, hint),
        sound_step(consensus(l0, hint), l3, hint),
    ensures
        l3 == consensus(l0, hint),
{
    let cs = consensus(l0, hint);
    lemma_consensus_sound(l0, hint);
    assert forall|p: int| 0 <= p < l3.len() implies l3[p] == cs[p] by {
        if cs[p] is None {
            assert(l0[p] is None);
            assert(!(forall|c: Seq<bool>| completes(c, l0, hint) ==> c[p]));
            assert(!(forall|c: Seq<bool>| completes(c, l0, hint) ==> !c[p]));
            assert(exists|c: Seq<bool>| completes(c, l0, hint) && !c[p]);
            assert(exists|c: Seq<bool>| completes(c, l0, hint) && c[p]);
            let c1 = choose|c: Seq<bool>| completes(c, l0, hint) && !c[p];
            let c2 = choose|c: Seq<bool>| completes(c, l0, hint) && c[p];
            assert(completes(c1, cs, hint));
            assert(completes(c2, cs, hint));
            assert(agrees(c1, l3));
            assert(agrees(c2, l3));
            if l3[p] is Some {
                assert(c1[p] == l3[p]->Some_0);
                assert(c2[p] == l3[p]->Some_0);
            }
        }
    }
    assert(l3 =~= cs);
}

/// What the line solver makes of `line`: the consensus of its completions
/// when at most `ENUMERATION_LIMIT` cells are unknown (`None` when there is
/// no completion), then the edge scan from the front, then the edge scan
/// from the back; `None` when a scan meets a contradiction.
pub open spec fn line_solver(line: Seq<Option<bool>>, hint: Seq<usize>) -> Option<Seq<Option<bool>>> {
    let l1 = if unknown_positions(line).len() <= ENUMERATION_LIMIT {
        if infeasible(line, hint) {
            None
        } else {
            Some(consensus(line, hint))
        }
    } else {
        Some(line)
    };
    match l1 {
        None => None,
        Some(a) => match front_scan(a, hint, 0, 0) {
            None => None,
            Some(b) => match front_scan(b.reverse(), hint.reverse(), 0, 0) {
                None => None,
                Some(c) => Some(c.reverse()),
            },
        },
    }
}

/// The line solver: exhaustive enumeration when few cells are unknown, then
/// edge-scan confirmation from the front and from the back. With at most
/// `ENUMERATION_LIMIT` unknown cells the result is exact: an error exactly
/// when no completion matches, else the consensus of all completions.
pub fn solve_line(line: &mut Vec<Option<bool>>, hint: &Vec<usize>) -> (r: Result<(), Infeasible>)
    requires
        positive(hint@),
    ensures
        r is Ok ==> sound_step(old(line)@, final(line)@, hint@),
        r is Err ==> infeasible(old(line)@, hint@),
        unknown_positions(old(line)@).len() <= ENUMERATION_LIMIT ==> (r is Err <==> infeasible(
            old(line)@,
            hint@,
        )),
        unknown_positions(old(line)@).len() <= ENUMERATION_LIMIT && r is Ok ==> final(line)@
            == consensus(old(line)@, hint@),
        r is Ok <==> line_solver(old(line)@, hint@) is Some,
        r is Ok ==> final(line)@ == line_solver(old(line)@, hint@)->Some_0,
{
    let ghost line0 = line@;
    let (idx, _) = survey(line);
    if idx.len() <= ENUMERATION_LIMIT {
        enumerate(line, hint)?;
        proof {
            lemma_consensus_sound(line0, hint@);
        }
    }
    let ghost line1 = line@;
    proof {
        assert(sound_step(line0, line1, hint@));
    }
    if scan_front(line, hint).is_err() {
        proof {
            lemma_step_infeasible(line0, line1, hint@);
        }
        return Err(Infeasible);
    }
    let ghost line2 = line@;
    proof {
        lemma_steps_chain(line0, line1, line2, hint@);
    }
    if scan_back(line, hint).is_err() {
        proof {
            lemma_step_infeasible(line0, line2, hint@);
        }
        return Err(Infeasible);
    }
    proof {
        lemma_steps_chain(line0, line2, line@, hint@);
        if unknown_positions(line0).len() <= ENUMERATION_LIMIT {
            lemma_steps_chain(line1, line2, line@, hint@);
            lemma_consensus_stable(line0, line@, hint@);
        }
    }
    Ok(())
}

/// Forcing is sound: after any sound forcing step (overlap fill, an edge
/// scan, enumeration, or the line solver), every completion of the earlier
/// line that matches the hint still completes the forced line. So
/// exhaustive enumeration over the forced line, with no threshold, still
/// finds a valid candidate and never sees a cell that is filled in every
/// valid candidate and empty in every valid candidate.
pub proof fn law_forcing_keeps_completions(
    before: Seq<Option<bool>>,
    after: Seq<Option<bool>>,
    hint: Seq<usize>,
    c: Seq<bool>,
)
    requires
        sound_step(before, after, hint),
        completes(c, before, hint),
    ensures
        completes(c, after, hint),
        !infeasible(after, hint),
        forall|p: int| 0 <= p < after.len() ==> !#[trigger] forced_both_ways(after, hint, p),
{
    assert(agrees(c, after));
    assert(completes(c, after, hint));
    assert forall|p: int| 0 <= p < after.len() implies !#[trigger] forced_both_ways(after, hint, p) by {
        if forced_both_ways(after, hint, p) {
            assert(c[p]);
            assert(!c[p]);
        }
    }
}

/// Cell `p` is filled in every completion of `line` matching `hint` and
/// empty in every one.
pub open spec fn forced_both_ways(line: Seq<Option<bool>>, hint: Seq<usize>, p: int) -> bool {
    &&& forall|d: Seq<bool>| completes(d, line, hint) ==> d[p]
    &&& forall|d: Seq<bool>| completes(d, line, hint) ==> !d[p]
}

} // verus!
