//! The run-length model of a line and the line compressor.
use vstd::prelude::*;

verus! {

/// Run lengths of `s`, where a run of `open` filled cells is already in
/// progress just before `s` starts.
pub open spec fn runs_with(s: Seq<bool>, open: int) -> Seq<int>
    decreases s.len(),
{
    if s.len() == 0 {
        if open > 0 { seq![open] } else { seq![] }
    } else if s[0] {
        runs_with(s.drop_first(), open + 1)
    } else if open > 0 {
        seq![open] + runs_with(s.drop_first(), 0)
    } else {
        runs_with(s.drop_first(), 0)
    }
}

/// Lengths of the maximal runs of filled cells of `s`, left to right.
pub open spec fn runs(s: Seq<bool>) -> Seq<int> {
    runs_with(s, 0)
}

/// A hint as a sequence of integers.
pub open spec fn hint_view(h: Seq<usize>) -> Seq<int> {
    h.map_values(|v: usize| v as int)
}

/// Filled/empty pattern of a tri-state line, reading Unknown as empty.
pub open spec fn filled_of(line: Seq<Option<bool>>) -> Seq<bool> {
    line.map_values(|c: Option<bool>| c == Some(true))
}

proof fn lemma_runs_with_skip(s: Seq<bool>, i: int, j: int, open: int)
    requires
        0 <= i <= j <= s.len(),
        forall|k: int| i <= k < j ==> s[k] == s[i],
    ensures
        i == j || s[i] ==> runs_with(s.subrange(i, s.len() as int), open) == runs_with(
            s.subrange(j, s.len() as int),
            open + (j - i),
        ),
        i < j && !s[i] && open == 0 ==> runs_with(s.subrange(i, s.len() as int), 0) == runs_with(
            s.subrange(j, s.len() as int),
            0,
        ),
    decreases j - i,
{
    if i < j {
        let t = s.subrange(i, s.len() as int);
        assert(t.drop_first() =~= s.subrange(i + 1, s.len() as int));
        if s[i] {
            lemma_runs_with_skip(s, i + 1, j, open + 1);
        } else {
            lemma_runs_with_skip(s, i + 1, j, 0);
        }
    }
}

proof fn lemma_runs_with_close(s: Seq<bool>, j: int, open: int)
    requires
        0 <= j <= s.len(),
        open > 0,
        j == s.len() || !s[j],
    ensures
        runs_with(s.subrange(j, s.len() as int), open) == seq![open] + runs_with(
            s.subrange(j, s.len() as int),
            0,
        ),
{
    let t = s.subrange(j, s.len() as int);
    if j < s.len() {
        assert(t.drop_first() =~= s.subrange(j + 1, s.len() as int));
    } else {
        assert(seq![open] + seq![] =~= seq![open]);
    }
}

/// Run-length encodes `line`: the lengths of its maximal runs of `true`, in
/// order; runs of `false` are skipped.
pub fn compress(line: &[bool]) -> (r: Vec<usize>)
    ensures
        hint_view(r@) == runs(line@),
{
    let n = line.len();
    let mut ret: Vec<usize> = Vec::new();
    let mut i: usize = 0;
    proof {
        assert(line@.subrange(0, n as int) =~= line@);
    }
    while i < n
        invariant
            n == line@.len(),
            i <= n,
            runs(line@) == hint_view(ret@) + runs_with(line@.subrange(i as int, n as int), 0),
        decreases n - i,
    {
        let mut j: usize = i;
        while j < n && line[j] == line[i]
            invariant
                n == line@.len(),
                i <= j <= n,
                i < n,
                forall|k: int| i <= k < j ==> line@[k] == line@[i as int],
            decreases n - j,
        {
            j += 1;
        }
        proof {
            if line@[i as int] {
                lemma_runs_with_skip(line@, i as int, j as int, 0);
                lemma_runs_with_close(line@, j as int, (j - i) as int);
            } else {
                lemma_runs_with_skip(line@, i as int, j as int, 0);
            }
        }
        if line[i] {
            let ghost before = ret@;
            ret.push(j - i);
            proof {
                assert(hint_view(ret@) =~= hint_view(before) + seq![(j - i) as int]);
                assert(hint_view(before) + (seq![(j - i) as int] + runs_with(
                    line@.subrange(j as int, n as int),
                    0,
                )) =~= hint_view(ret@) + runs_with(line@.subrange(j as int, n as int), 0));
            }
        }
        i = j;
    }
    proof {
        assert(line@.subrange(n as int, n as int) =~= Seq::<bool>::empty());
        assert(hint_view(ret@) + seq![] =~= hint_view(ret@));
    }
    ret
}

} // verus!

verus! {

/// `c` is a full filled/empty assignment that agrees with every known cell of `line`.
pub open spec fn agrees(c: Seq<bool>, line: Seq<Option<bool>>) -> bool {
    &&& c.len() == line.len()
    &&& forall|k: int| 0 <= k < line.len() && line[k] is Some ==> c[k] == line[k]->Some_0
}

/// `c` is a completion of `line` whose runs match `hint`.
pub open spec fn completes(c: Seq<bool>, line: Seq<Option<bool>>, hint: Seq<usize>) -> bool {
    agrees(c, line) && runs(c) == hint_view(hint)
}

/// `b` keeps every decided cell of `a` as it is.
pub open spec fn keeps(a: Seq<Option<bool>>, b: Seq<Option<bool>>) -> bool {
    &&& a.len() == b.len()
    &&& forall|k: int| 0 <= k < a.len() && a[k] is Some ==> b[k] == a[k]
}

/// Going from `a` to `b` only decides cells the way every completion of `a`
/// matching `hint` has them.
pub open spec fn sound_step(a: Seq<Option<bool>>, b: Seq<Option<bool>>, hint: Seq<usize>) -> bool {
    &&& keeps(a, b)
    &&& forall|c: Seq<bool>| completes(c, a, hint) ==> agrees(c, b)
}

/// No completion of `line` matches `hint`.
pub open spec fn infeasible(line: Seq<Option<bool>>, hint: Seq<usize>) -> bool {
    forall|c: Seq<bool>| !completes(c, line, hint)
}

/// A run already open before `u` extends over the leading filled cells of `u`.
pub proof fn lemma_open_run(u: Seq<bool>, open: int) -> (e: int)
    requires
        open >= 1,
    ensures
        0 <= e <= u.len(),
        forall|k: int| 0 <= k < e ==> u[k],
        e == u.len() || !u[e],
        runs_with(u, open) == seq![open + e] + runs_with(u.subrange(e, u.len() as int), 0),
    decreases u.len(),
{
    if u.len() == 0 {
        assert(u.subrange(0, 0) =~= u);
        assert(seq![open] + seq![] =~= seq![open]);
        0
    } else if u[0] {
        let e1 = lemma_open_run(u.drop_first(), open + 1);
        assert(u.drop_first().subrange(e1, u.len() - 1) =~= u.subrange(e1 + 1, u.len() as int));
        assert forall|k: int| 0 <= k < e1 + 1 implies u[k] by {
            if k > 0 {
                assert(u[k] == u.drop_first()[k - 1]);
            }
        }
        e1 + 1
    } else {
        assert(u.subrange(0, u.len() as int) =~= u);
        0
    }
}

/// Where the first run of `t` starts, when `t`'s runs begin with `v`.
pub proof fn lemma_first_run(t: Seq<bool>, v: int, rest: Seq<int>) -> (s: int)
    requires
        runs_with(t, 0) == seq![v] + rest,
    ensures
        0 <= s,
        v >= 1,
        s + v <= t.len(),
        forall|k: int| 0 <= k < s ==> !t[k],
        forall|k: int| s <= k < s + v ==> t[k],
        s + v == t.len() || !t[s + v],
        runs_with(t.subrange(s + v, t.len() as int), 0) == rest,
    decreases t.len(),
{
    if t.len() == 0 {
        assert((seq![v] + rest).len() >= 1);
        0
    } else if t[0] {
        let u = t.drop_first();
        let e = lemma_open_run(u, 1);
        let tail = runs_with(u.subrange(e, u.len() as int), 0);
        assert(runs_with(t, 0) == runs_with(u, 1));
        assert((seq![1 + e] + tail)[0] == 1 + e);
        assert((seq![v] + rest)[0] == v);
        assert(v == 1 + e);
        assert((seq![v] + rest).drop_first() =~= rest);
        assert((seq![1 + e] + tail).drop_first() =~= tail);
        assert(u.subrange(e, u.len() as int) =~= t.subrange(e + 1, t.len() as int));
        assert forall|k: int| 0 <= k < v implies t[k] by {
            if k > 0 {
                assert(t[k] == u[k - 1]);
            }
        }
        if e < u.len() {
            assert(t[v] == u[e]);
        }
        0
    } else {
        let u = t.drop_first();
        let s1 = lemma_first_run(u, v, rest);
        assert(u.subrange(s1 + v, u.len() as int) =~= t.subrange(s1 + 1 + v, t.len() as int));
        assert forall|k: int| 0 <= k < s1 + 1 implies !t[k] by {
            if k > 0 {
                assert(t[k] == u[k - 1]);
            }
        }
        assert forall|k: int| s1 + 1 <= k < s1 + 1 + v implies t[k] by {
            assert(t[k] == u[k - 1]);
        }
        if s1 + 1 + v < t.len() {
            assert(t[s1 + 1 + v] == u[s1 + v]);
        }
        s1 + 1
    }
}

/// Empty cells before the first filled one do not change the runs.
pub proof fn lemma_skip_empty(t: Seq<bool>, l: int)
    requires
        0 <= l <= t.len(),
        forall|k: int| 0 <= k < l ==> !t[k],
    ensures
        runs_with(t, 0) == runs_with(t.subrange(l, t.len() as int), 0),
    decreases l,
{
    if l == 0 {
        assert(t.subrange(0, t.len() as int) =~= t);
    } else {
        lemma_skip_empty(t.drop_first(), l - 1);
        assert(t.drop_first().subrange(l - 1, t.len() - 1) =~= t.subrange(l, t.len() as int));
    }
}

} // verus!

verus! {

/// Extending a run that is already open lengthens only the first run.
proof fn lemma_open_grow(s: Seq<bool>, open: int)
    requires
        open >= 1,
    ensures
        runs_with(s, open).len() > 0,
        runs_with(s, open + 1) == runs_with(s, open).update(0, runs_with(s, open)[0] + 1),
    decreases s.len(),
{
    let r = runs_with(s, open);
    if s.len() == 0 {
        assert(seq![open + 1] =~= r.update(0, r[0] + 1));
    } else if s[0] {
        lemma_open_grow(s.drop_first(), open + 1);
        lemma_open_grow(s.drop_first(), open);
    } else {
        let x = runs_with(s.drop_first(), 0);
        assert(seq![open + 1] + x =~= (seq![open] + x).update(0, open + 1));
    }
}

/// The last cell of a line is open when it is filled, or when nothing
/// follows an open run.
pub open spec fn ends_open(s: Seq<bool>, open: int) -> bool {
    if s.len() > 0 {
        s.last()
    } else {
        open > 0
    }
}

/// Runs after appending one cell at the end.
proof fn lemma_runs_push(s: Seq<bool>, b: bool, open: int)
    requires
        open >= 0,
    ensures
        ends_open(s, open) ==> runs_with(s, open).len() > 0,
        !b ==> runs_with(s.push(b), open) == runs_with(s, open),
        b && ends_open(s, open) ==> runs_with(s.push(b), open) == runs_with(s, open).update(
            runs_with(s, open).len() - 1,
            runs_with(s, open).last() + 1,
        ),
        b && !ends_open(s, open) ==> runs_with(s.push(b), open) == runs_with(s, open).push(1),
    decreases s.len(),
{
    let r = runs_with(s, open);
    let sb = s.push(b);
    assert(sb[0] == if s.len() == 0 { b } else { s[0] });
    if s.len() == 0 {
        assert(sb.drop_first() =~= s);
        if b {
            assert(runs_with(sb, open) == runs_with(s, open + 1));
            if open > 0 {
                assert(seq![open + 1] =~= r.update(0, open + 1));
            } else {
                assert(seq![1int] =~= r.push(1));
            }
        } else if open > 0 {
            assert(runs_with(sb, open) == seq![open] + runs_with(s, 0));
            assert(seq![open] + seq![] =~= seq![open]);
        } else {
            assert(runs_with(sb, open) == runs_with(s, 0));
        }
    } else {
        let t = s.drop_first();
        assert(sb.drop_first() =~= t.push(b));
        if t.len() > 0 {
            assert(t.last() == s.last());
        }
        if s[0] {
            lemma_runs_push(t, b, open + 1);
            assert(runs_with(sb, open) == runs_with(t.push(b), open + 1));
        } else if open > 0 {
            lemma_runs_push(t, b, 0);
            let rt = runs_with(t, 0);
            assert(runs_with(sb, open) == seq![open] + runs_with(t.push(b), 0));
            assert((seq![open] + rt.push(1)) =~= (seq![open] + rt).push(1));
            if rt.len() > 0 {
                assert(seq![open] + rt.update(rt.len() - 1, rt.last() + 1) =~= (seq![open]
                    + rt).update(rt.len() as int, rt.last() + 1));
            }
        } else {
            lemma_runs_push(t, b, 0);
            assert(runs_with(sb, open) == runs_with(t.push(b), 0));
        }
    }
}

/// The runs of a reversed line are the line's runs reversed.
pub proof fn lemma_runs_reverse(s: Seq<bool>)
    ensures
        runs(s.reverse()) == runs(s).reverse(),
    decreases s.len(),
{
    if s.len() == 0 {
        assert(s.reverse() =~= s);
        assert(runs(s).reverse() =~= runs(s));
    } else {
        let t = s.drop_first();
        lemma_runs_reverse(t);
        assert(s.reverse() =~= t.reverse().push(s[0]));
        lemma_runs_push(t.reverse(), s[0], 0);
        let rt = runs(t);
        if t.len() > 0 {
            assert(t.reverse().last() == t[0]);
        }
        if s[0] {
            if t.len() > 0 && t[0] {
                lemma_open_grow(t.drop_first(), 1);
                assert(runs_with(t, 1) == runs_with(t.drop_first(), 2));
                assert(rt == runs_with(t.drop_first(), 1));
                assert(runs(s) == runs_with(t, 1));
                assert(runs(s).reverse() =~= rt.reverse().update(
                    rt.len() - 1,
                    rt.reverse().last() + 1,
                ));
            } else {
                if t.len() == 0 {
                    assert(runs_with(t, 1) =~= seq![1int]);
                    assert(rt =~= seq![]);
                } else {
                    assert(runs_with(t, 1) == seq![1int] + runs_with(t.drop_first(), 0));
                    assert(rt == runs_with(t.drop_first(), 0));
                }
                assert((seq![1int] + rt).reverse() =~= rt.reverse().push(1));
            }
        }
    }
}

} // verus!

verus! {

/// Number of filled cells of `s`.
pub open spec fn count_filled(s: Seq<bool>) -> int
    decreases s.len(),
{
    if s.len() == 0 {
        0
    } else {
        count_filled(s.drop_last()) + if s.last() {
            1int
        } else {
            0
        }
    }
}

/// Sum of a sequence of integers.
pub open spec fn total(q: Seq<int>) -> int
    decreases q.len(),
{
    if q.len() == 0 {
        0
    } else {
        q[0] + total(q.drop_first())
    }
}

proof fn lemma_count_first(s: Seq<bool>)
    requires
        s.len() > 0,
    ensures
        count_filled(s) == count_filled(s.drop_first()) + if s[0] {
            1int
        } else {
            0
        },
    decreases s.len(),
{
    let h0: int = if s[0] { 1 } else { 0 };
    let hl: int = if s.last() { 1 } else { 0 };
    if s.len() > 1 {
        lemma_count_first(s.drop_last());
        assert(s.drop_last().drop_first() =~= s.drop_first().drop_last());
        assert(s.drop_last()[0] == s[0]);
        assert(s.drop_first().last() == s.last());
        assert(count_filled(s) == count_filled(s.drop_last()) + hl);
        assert(count_filled(s.drop_first()) == count_filled(s.drop_first().drop_last()) + hl);
    } else {
        assert(s.drop_first().len() == 0);
        assert(s.drop_last().len() == 0);
        assert(count_filled(s.drop_last()) == 0);
        assert(count_filled(s) == count_filled(s.drop_last()) + hl);
    }
}

/// The runs of a line add up to its number of filled cells.
pub proof fn lemma_total_runs(s: Seq<bool>, open: int)
    requires
        open >= 0,
    ensures
        total(runs_with(s, open)) == count_filled(s) + open,
    decreases s.len(),
{
    if s.len() == 0 {
        if open > 0 {
            assert(seq![open].drop_first() =~= Seq::<int>::empty());
            assert(total(seq![open]) == open + total(Seq::<int>::empty()));
        }
    } else {
        lemma_count_first(s);
        let t = s.drop_first();
        if s[0] {
            lemma_total_runs(t, open + 1);
            assert(runs_with(s, open) == runs_with(t, open + 1));
        } else if open > 0 {
            lemma_total_runs(t, 0);
            let x = seq![open] + runs_with(t, 0);
            assert(runs_with(s, open) == x);
            assert(x.drop_first() =~= runs_with(t, 0));
            assert(x[0] == open);
        } else {
            lemma_total_runs(t, 0);
            assert(runs_with(s, open) == runs_with(t, 0));
        }
    }
}

/// Positions of the unknown cells of `line`, in increasing order.
pub open spec fn unknown_positions(line: Seq<Option<bool>>) -> Seq<usize>
    decreases line.len(),
{
    if line.len() == 0 {
        seq![]
    } else if line.last() is None {
        unknown_positions(line.drop_last()).push((line.len() - 1) as usize)
    } else {
        unknown_positions(line.drop_last())
    }
}

/// Positions of the unknown cells of `line` that `c` fills, in increasing order.
pub open spec fn picked(line: Seq<Option<bool>>, c: Seq<bool>) -> Seq<usize>
    decreases line.len(),
{
    if line.len() == 0 {
        seq![]
    } else if line.last() is None && c[line.len() - 1] {
        picked(line.drop_last(), c).push((line.len() - 1) as usize)
    } else {
        picked(line.drop_last(), c)
    }
}

/// Number of cells of `line` known to be filled.
pub open spec fn known_filled(line: Seq<Option<bool>>) -> int
    decreases line.len(),
{
    if line.len() == 0 {
        0
    } else {
        known_filled(line.drop_last()) + if line.last() == Some(true) {
            1int
        } else {
            0
        }
    }
}

/// `a` is `b` with some elements left out.
pub open spec fn is_subseq(a: Seq<usize>, b: Seq<usize>) -> bool
    decreases b.len(),
{
    if a.len() == 0 {
        true
    } else if b.len() == 0 {
        false
    } else if a.last() == b.last() {
        is_subseq(a.drop_last(), b.drop_last())
    } else {
        is_subseq(a, b.drop_last())
    }
}

/// The assignment that fills the known-filled cells of `line` and the
/// positions in `a`, and leaves every other cell empty.
pub open spec fn candidate(line: Seq<Option<bool>>, a: Seq<usize>) -> Seq<bool> {
    Seq::new(line.len(), |p: int| line[p] == Some(true) || a.contains(p as usize))
}

/// What `picked` holds, and how the filled cells of a completion split.
pub proof fn lemma_picked(line: Seq<Option<bool>>, c: Seq<bool>)
    requires
        agrees(c, line),
        line.len() <= usize::MAX,
    ensures
        is_subseq(picked(line, c), unknown_positions(line)),
        forall|q: usize|
            #![trigger picked(line, c).contains(q)]
            picked(line, c).contains(q) <==> (q < line.len() && line[q as int] is None && c[q as int]),
        count_filled(c) == known_filled(line) + picked(line, c).len(),
    decreases line.len(),
{
    if line.len() > 0 {
        let n = line.len() as int;
        let l2 = line.drop_last();
        let c2 = c.drop_last();
        lemma_picked(l2, c2);
        lemma_picked_prefix(l2, c, c2);
        let prev_pick = picked(l2, c2);
        let prev_unknown = unknown_positions(l2);
        let pl = picked(line, c);
        let grow = line.last() is None && c[n - 1];
        assert(line.last() == line[n - 1]);
        assert(c.last() == c[n - 1]);
        assert(grow ==> pl == prev_pick.push((n - 1) as usize));
        assert(!grow ==> pl == prev_pick);
        assert(count_filled(c) == count_filled(c2) + if c.last() { 1int } else { 0 });
        if line[n - 1] is Some {
            assert(c[n - 1] == line[n - 1]->Some_0);
        }
        assert forall|q: usize| pl.contains(q) implies (q < line.len() && line[q as int] is None
            && c[q as int]) by {
            let j = choose|j: int| 0 <= j < pl.len() && pl[j] == q;
            if j < prev_pick.len() {
                assert(pl[j] == prev_pick[j]);
                assert(prev_pick[j] == q);
                assert(picked(l2, c2).contains(q));
                assert(q < l2.len());
                assert(l2[q as int] == line[q as int]);
                assert(c2[q as int] == c[q as int]);
            } else {
                assert(grow);
                assert(q == n - 1);
            }
        }
        assert forall|q: usize| (q < line.len() && line[q as int] is None && c[q as int])
            implies pl.contains(q) by {
            if q == n - 1 {
                assert(pl[pl.len() - 1] == q);
            } else {
                assert(l2[q as int] == line[q as int]);
                assert(c2[q as int] == c[q as int]);
                assert(prev_pick.contains(q));
                let j = choose|j: int| 0 <= j < prev_pick.len() && prev_pick[j] == q;
                assert(pl[j] == q);
            }
        }
        if grow {
            assert(prev_pick.push((n - 1) as usize).drop_last() =~= prev_pick);
            assert(prev_unknown.push((n - 1) as usize).drop_last() =~= prev_unknown);
        } else if line.last() is None {
            if prev_pick.len() > 0 {
                assert(prev_pick.contains(prev_pick.last()));
            }
            lemma_subseq_extend(prev_pick, prev_unknown, (n - 1) as usize);
        }
    }
}

proof fn lemma_picked_prefix(line: Seq<Option<bool>>, c: Seq<bool>, c2: Seq<bool>)
    requires
        c.len() >= line.len(),
        c2.len() >= line.len(),
        forall|k: int| 0 <= k < line.len() ==> c[k] == c2[k],
    ensures
        picked(line, c) == picked(line, c2),
    decreases line.len(),
{
    if line.len() > 0 {
        lemma_picked_prefix(line.drop_last(), c, c2);
    }
}

proof fn lemma_subseq_extend(a: Seq<usize>, b: Seq<usize>, e: usize)
    requires
        is_subseq(a, b),
        a.len() == 0 || a.last() != e,
    ensures
        is_subseq(a, b.push(e)),
{
    assert(b.push(e).drop_last() =~= b);
}

/// Every element of a subsequence is an element of the sequence.
pub proof fn lemma_subseq_contains(a: Seq<usize>, b: Seq<usize>, q: usize)
    requires
        is_subseq(a, b),
        a.contains(q),
    ensures
        b.contains(q),
    decreases b.len(),
{
    if b.len() > 0 {
        if a.last() == b.last() {
            if q == a.last() {
                assert(b[b.len() - 1] == q);
            } else {
                let j = choose|j: int| 0 <= j < a.len() && a[j] == q;
                assert(a.drop_last()[j] == q);
                lemma_subseq_contains(a.drop_last(), b.drop_last(), q);
                let i = choose|i: int| 0 <= i < b.len() - 1 && b.drop_last()[i] == q;
                assert(b[i] == q);
            }
        } else {
            lemma_subseq_contains(a, b.drop_last(), q);
            let i = choose|i: int| 0 <= i < b.len() - 1 && b.drop_last()[i] == q;
            assert(b[i] == q);
        }
    }
}

/// What `unknown_positions` holds.
pub proof fn lemma_unknown_positions(line: Seq<Option<bool>>)
    requires
        line.len() <= usize::MAX,
    ensures
        forall|q: usize|
            #![trigger unknown_positions(line).contains(q)]
            unknown_positions(line).contains(q) <==> (q < line.len() && line[q as int] is None),
    decreases line.len(),
{
    if line.len() > 0 {
        let n = line.len() as int;
        let l2 = line.drop_last();
        lemma_unknown_positions(l2);
        let prev_unknown = unknown_positions(l2);
        let u = unknown_positions(line);
        assert(line.last() == line[n - 1]);
        assert(line[n - 1] is None ==> u == prev_unknown.push((n - 1) as usize));
        assert(line[n - 1] is Some ==> u == prev_unknown);
        assert forall|q: usize| u.contains(q) <==> (q < line.len() && line[q as int] is None) by {
            if q < n - 1 {
                assert(l2[q as int] == line[q as int]);
            }
            if u.contains(q) {
                let j = choose|j: int| 0 <= j < u.len() && u[j] == q;
                if j < prev_unknown.len() {
                    assert(u[j] == prev_unknown[j]);
                    assert(prev_unknown.contains(q));
                }
            }
            if q < line.len() && line[q as int] is None {
                if q == n - 1 {
                    assert(u[u.len() - 1] == q);
                } else {
                    assert(prev_unknown.contains(q));
                    let j = choose|j: int| 0 <= j < prev_unknown.len() && prev_unknown[j] == q;
                    assert(u[j] == q);
                }
            }
        }
    }
}

} // verus!

verus! {

/// Runs that close inside `a`, when a run of `open` cells is open before it.
pub open spec fn closed_runs(a: Seq<bool>, open: int) -> Seq<int>
    decreases a.len(),
{
    if a.len() == 0 {
        seq![]
    } else if a[0] {
        closed_runs(a.drop_first(), open + 1)
    } else if open > 0 {
        seq![open] + closed_runs(a.drop_first(), 0)
    } else {
        closed_runs(a.drop_first(), 0)
    }
}

/// Length of the run still open at the end of `a`.
pub open spec fn trailing_run(a: Seq<bool>, open: int) -> int
    decreases a.len(),
{
    if a.len() == 0 {
        open
    } else if a[0] {
        trailing_run(a.drop_first(), open + 1)
    } else {
        trailing_run(a.drop_first(), 0)
    }
}

/// Runs of a concatenation: those closed inside the first part, then the
/// second part's runs continuing the run left open.
pub proof fn lemma_runs_split(a: Seq<bool>, b: Seq<bool>, open: int)
    requires
        open >= 0,
    ensures
        runs_with(a + b, open) == closed_runs(a, open) + runs_with(b, trailing_run(a, open)),
        a.len() > 0 && a.last() ==> trailing_run(a, open) > 0,
    decreases a.len(),
{
    if a.len() == 0 {
        assert(a + b =~= b);
        assert(seq![] + runs_with(b, open) =~= runs_with(b, open));
    } else {
        assert((a + b)[0] == a[0]);
        assert((a + b).drop_first() =~= a.drop_first() + b);
        if a.len() > 1 {
            assert(a.drop_first().last() == a.last());
        }
        if a[0] {
            lemma_runs_split(a.drop_first(), b, open + 1);
        } else {
            lemma_runs_split(a.drop_first(), b, 0);
            if open > 0 {
                let x = closed_runs(a.drop_first(), 0);
                let y = runs_with(b, trailing_run(a.drop_first(), 0));
                assert(seq![open] + (x + y) =~= (seq![open] + x) + y);
            }
        }
    }
}

/// `n` cells of value `v`.
pub open spec fn cells_of(v: bool, n: int) -> Seq<bool> {
    Seq::new(if n > 0 { n as nat } else { 0 }, |k: int| v)
}

/// The line with `gaps[0]` empty cells, then `r[0]` filled cells, then
/// `gaps[1]` empty cells, and so on, ending with `gaps[r.len()]` empty cells.
pub open spec fn expand(r: Seq<int>, gaps: Seq<int>) -> Seq<bool>
    decreases r.len(),
{
    if r.len() == 0 || gaps.len() == 0 {
        cells_of(false, if gaps.len() > 0 { gaps[0] } else { 0 })
    } else {
        cells_of(false, gaps[0]) + cells_of(true, r[0]) + expand(r.drop_first(), gaps.drop_first())
    }
}

proof fn lemma_filled_block(v: int, open: int)
    requires
        open >= 0,
    ensures
        closed_runs(cells_of(true, v), open) == Seq::<int>::empty(),
        trailing_run(cells_of(true, v), open) == open + if v > 0 { v } else { 0 },
    decreases if v > 0 { v } else { 0 },
{
    if v > 0 {
        assert(cells_of(true, v).drop_first() =~= cells_of(true, v - 1));
        lemma_filled_block(v - 1, open + 1);
    }
}

/// Compression inverts run-length expansion: expanding positive runs with
/// gaps that separate them (the two outer gaps may be empty) and taking the
/// runs gives the runs back.
pub proof fn law_compress_inverts_expansion(r: Seq<int>, gaps: Seq<int>)
    requires
        gaps.len() == r.len() + 1,
        forall|k: int| 0 <= k < r.len() ==> r[k] >= 1,
        gaps[0] >= 0,
        gaps[r.len() as int] >= 0,
        forall|k: int| 0 < k < r.len() ==> gaps[k] >= 1,
    ensures
        runs(expand(r, gaps)) == r,
    decreases r.len(),
{
    let g0 = gaps[0];
    let lead = cells_of(false, g0);
    if r.len() == 0 {
        lemma_skip_empty(lead, lead.len() as int);
        assert(lead.subrange(lead.len() as int, lead.len() as int) =~= Seq::<bool>::empty());
    } else {
        let rest = expand(r.drop_first(), gaps.drop_first());
        law_compress_inverts_expansion(r.drop_first(), gaps.drop_first());
        let body = cells_of(true, r[0]) + rest;
        let e = lead + body;
        assert(expand(r, gaps) == lead + cells_of(true, r[0]) + rest);
        assert(lead + cells_of(true, r[0]) + rest =~= e);
        lemma_skip_empty(e, lead.len() as int);
        assert(e.subrange(lead.len() as int, e.len() as int) =~= body);
        lemma_runs_split(cells_of(true, r[0]), rest, 0);
        lemma_filled_block(r[0], 0);
        assert(Seq::<int>::empty() + runs_with(rest, r[0]) =~= runs_with(rest, r[0]));
        // the rest starts with an empty cell, or is empty
        if r.len() > 1 {
            let g1 = gaps[1];
            assert(rest == cells_of(false, g1) + cells_of(true, r[1]) + expand(r.drop_first().drop_first(), gaps.drop_first().drop_first()));
            assert(rest[0] == false);
        } else {
            assert(rest == cells_of(false, gaps[1]));
        }
        if rest.len() > 0 && !rest[0] {
            assert(runs_with(rest, r[0]) == seq![r[0]] + runs_with(rest.drop_first(), 0));
            assert(runs_with(rest, 0) == runs_with(rest.drop_first(), 0));
        } else {
            assert(rest.len() == 0);
            assert(runs_with(rest, r[0]) =~= seq![r[0]]);
        }
        assert(r =~= seq![r[0]] + r.drop_first());
    }
}

} // verus!
