//! Column-width inference: deriving per-column widths, in tab-stop units,
//! from tab-delimited lines, and prefix sums over the width vector.
//!
//! A token's width in tab-stop units is its display width divided by the
//! tab size, plus one trailing stop. A run of empty tokens right after a
//! token widens that token by one unit each. Each line's token widths are
//! reconciled against the running width vector: a width that matches the
//! recorded column advances; one that exceeds the last recorded column
//! grows it; one that exceeds an inner column spans it and carries the
//! remainder; one that falls short of a column splits that column in two.

use vstd::prelude::*;

use crate::text::text_width;
use crate::text::display_width;

verus! {

/// Width of a cell's content in tab-stop units: display width divided by
/// the tab size, plus one trailing stop, capped at `usize::MAX` so that it
/// is always representable.
pub open spec fn unit_of(s: Seq<char>, tab: int) -> int
    recommends
        tab >= 1,
{
    if s.len() == 0 {
        1
    } else {
        vstd::math::min(text_width(s) as int / tab + 1, usize::MAX as int)
    }
}

/// Width of a cell's content in tab-stop units.
pub fn measure_width(content: &str, tab_size: usize) -> (u: usize)
    requires
        tab_size >= 1,
    ensures
        u as int == unit_of(content@, tab_size as int),
        u >= 1,
{
    let w = display_width(content);
    let q = w / tab_size;
    if q == usize::MAX {
        q
    } else {
        q + 1
    }
}

/// The number of consecutive empty tokens starting at position `j`.
pub open spec fn empty_run(toks: Seq<Seq<char>>, j: int) -> nat
    decreases toks.len() - j
        when 0 <= j <= toks.len()
{
    if j < toks.len() && toks[j].len() == 0 {
        1 + empty_run(toks, j + 1)
    } else {
        0
    }
}

/// The width, in tab-stop units, of the token group starting at `i`: the
/// token's own unit width plus one unit per empty token that follows it,
/// capped at `usize::MAX`.
pub open spec fn group_width(toks: Seq<Seq<char>>, i: int, tab: int) -> int
    recommends
        0 <= i < toks.len(),
        tab >= 1,
{
    vstd::math::min(unit_of(toks[i], tab) + empty_run(toks, i + 1), usize::MAX as int)
}

/// Reconciles one group width `w` against the running width vector `ws`,
/// starting at column `idx`. `more` says whether further token groups
/// follow on the same line. Returns the new width vector and the column
/// index where the line's next group is placed.
pub open spec fn reconcile(ws: Seq<usize>, idx: int, w: int, more: bool) -> (Seq<usize>, int)
    recommends
        1 <= w <= usize::MAX,
    decreases ws.len() - idx
        when 0 <= idx
{
    if idx >= ws.len() {
        (ws.push(w as usize), idx + 1)
    } else {
        let p = ws[idx] as int;
        if w == p {
            (ws, idx + 1)
        } else if w > p {
            if idx == ws.len() - 1 {
                (ws.update(idx, w as usize), idx + 1)
            } else {
                reconcile(ws, idx + 1, w - p, more)
            }
        } else {
            if more {
                (ws.update(idx, w as usize).insert(idx + 1, (p - w) as usize), idx + 1)
            } else {
                (ws, idx + 1)
            }
        }
    }
}

/// Folds one line's token groups, from token `i` and column `idx` on, into
/// the running width vector.
pub open spec fn line_infer(ws: Seq<usize>, toks: Seq<Seq<char>>, i: int, idx: int, tab: int) -> Seq<
    usize,
>
    decreases toks.len() - i
        when 0 <= i && tab >= 1
{
    if i >= toks.len() {
        ws
    } else {
        let run = empty_run(toks, i + 1);
        let g = group_width(toks, i, tab);
        let more = i + 1 + run < toks.len();
        let r = reconcile(ws, idx, g, more);
        let next = vstd::math::min(i + 1 + run, toks.len() as int);
        line_infer(r.0, toks, next, r.1, tab)
    }
}

/// Folds the lines from index `k` on into the running width vector.
pub open spec fn infer_lines(lines: Seq<Seq<Seq<char>>>, k: int, ws: Seq<usize>, tab: int) -> Seq<
    usize,
>
    decreases lines.len() - k
        when 0 <= k && tab >= 1
{
    if k >= lines.len() {
        ws
    } else {
        infer_lines(lines, k + 1, line_infer(ws, lines[k], 0, 0, tab), tab)
    }
}

/// The column widths inferred from tab-split lines.
pub open spec fn infer_widths(lines: Seq<Seq<Seq<char>>>, tab: int) -> Seq<usize>
    recommends
        tab >= 1,
{
    infer_lines(lines, 0, Seq::empty(), tab)
}

/// Derives the column widths of tab-split lines of tokens.
pub fn get_widths(lines: &Vec<Vec<String>>, tab_size: usize) -> (ws: Vec<usize>)
    requires
        tab_size >= 1,
    ensures
        ws@ == infer_widths(lines.deep_view(), tab_size as int),
{
    let ghost all: Seq<Seq<Seq<char>>> = lines.deep_view();
    let mut ws: Vec<usize> = Vec::new();
    let mut k: usize = 0;
    while k < lines.len()
        invariant
            k <= lines.len(),
            infer_widths(all, tab_size as int) == infer_lines(all, k as int, ws@, tab_size as int),
        decreases lines.len() - k,
    {
        let toks = &lines[k];
        let ghost tseq: Seq<Seq<char>> = all[k as int];
        proof {
            assert(toks.deep_view() == tseq);
        }
        let ghost ws0: Seq<usize> = ws@;
        let ghost goal: Seq<usize> = line_infer(ws0, tseq, 0, 0, tab_size as int);
        let mut i: usize = 0;
        let mut idx: usize = 0;
        while i < toks.len()
            invariant
                i <= toks.len(),
                idx <= ws.len(),
                goal == line_infer(ws@, tseq, i as int, idx as int, tab_size as int),
            decreases toks.len() - i,
        {
            // The group: the token at `i` and the empty tokens after it.
            let mut j: usize = i + 1;
            while j < toks.len() && toks[j].as_str().is_empty()
                invariant
                    i + 1 <= j <= toks.len(),
                    empty_run(tseq, i + 1) == (j - i - 1) + empty_run(tseq, j as int),
                decreases toks.len() - j,
            {
                proof {
                    assert(tseq[j as int] == toks@[j as int]@);
                }
                j = j + 1;
            }
            proof {
                assert(empty_run(tseq, j as int) == 0) by {
                    if j < toks.len() {
                        assert(tseq[j as int] == toks@[j as int]@);
                    }
                }
            }
            let ghost run: nat = empty_run(tseq, i + 1);
            proof {
                assert(run == j - i - 1);
            }
            let u = measure_width(toks[i].as_str(), tab_size);
            proof {
                assert(tseq[i as int] == toks@[i as int]@);
            }
            let g = match u.checked_add(j - i - 1) {
                Some(v) => v,
                None => usize::MAX,
            };
            proof {
                assert(g as int == group_width(tseq, i as int, tab_size as int));
            }
            let more = j < toks.len();
            proof {
                assert(more == (i + 1 + run < tseq.len()));
            }
            // Reconcile the group width against the running columns.
            let ghost rspec = reconcile(ws@, idx as int, g as int, more);
            let mut w = g;
            let mut done = false;
            while !done
                invariant
                    idx <= ws.len(),
                    1 <= w,
                    !done ==> rspec == reconcile(ws@, idx as int, w as int, more),
                    done ==> ws@ == rspec.0 && idx as int == rspec.1,
                decreases ws.len() - idx + (if done { 0int } else { 1int }),
            {
                if idx >= ws.len() {
                    ws.push(w);
                    idx = ws.len();
                    done = true;
                } else {
                    let p = ws[idx];
                    if w == p {
                        idx = idx + 1;
                        done = true;
                    } else if w > p {
                        if idx == ws.len() - 1 {
                            ws[idx] = w;
                            idx = idx + 1;
                            done = true;
                        } else {
                            w = w - p;
                            idx = idx + 1;
                        }
                    } else {
                        if more {
                            ws[idx] = w;
                            ws.insert(idx + 1, p - w);
                        }
                        idx = idx + 1;
                        done = true;
                    }
                }
            }
            proof {
                assert(goal == line_infer(ws@, tseq, i + 1 + run, idx as int, tab_size as int));
            }
            i = j;
        }
        proof {
            assert(ws@ == goal);
            assert(infer_lines(all, k as int, ws0, tab_size as int) == infer_lines(
                all,
                k + 1,
                goal,
                tab_size as int,
            ));
        }
        k = k + 1;
    }
    ws
}

/// Reconciling keeps every width at one unit or more, never shortens the
/// vector, and advances the column index.
pub proof fn lemma_reconcile_pos(ws: Seq<usize>, idx: int, w: int, more: bool)
    requires
        0 <= idx,
        1 <= w <= usize::MAX as int,
        forall|i: int| 0 <= i < ws.len() ==> ws[i] >= 1,
    ensures
        ({
            let r = reconcile(ws, idx, w, more);
            &&& r.0.len() >= ws.len()
            &&& r.0.len() >= 1
            &&& r.1 >= idx + 1
            &&& forall|i: int| 0 <= i < r.0.len() ==> r.0[i] >= 1
        }),
    decreases ws.len() - idx,
{
    if idx >= ws.len() {
    } else {
        let p = ws[idx] as int;
        if w == p {
        } else if w > p {
            if idx == ws.len() - 1 {
            } else {
                lemma_reconcile_pos(ws, idx + 1, w - p, more);
            }
        } else {
        }
    }
}

/// Folding a line's groups keeps widths at one unit or more and never
/// shortens the vector; once a group is placed, the vector is not empty.
pub proof fn lemma_line_infer_pos(ws: Seq<usize>, toks: Seq<Seq<char>>, i: int, idx: int, tab: int)
    requires
        0 <= i,
        0 <= idx,
        tab >= 1,
        forall|m: int| 0 <= m < ws.len() ==> ws[m] >= 1,
    ensures
        ({
            let r = line_infer(ws, toks, i, idx, tab);
            &&& r.len() >= ws.len()
            &&& (i < toks.len() ==> r.len() >= 1)
            &&& forall|m: int| 0 <= m < r.len() ==> r[m] >= 1
        }),
    decreases toks.len() - i,
{
    if i >= toks.len() {
    } else {
        let run = empty_run(toks, i + 1);
        let g = group_width(toks, i, tab);
        let more = i + 1 + run < toks.len();
        assert(1 <= g <= usize::MAX as int);
        lemma_reconcile_pos(ws, idx, g, more);
        let r = reconcile(ws, idx, g, more);
        let next = vstd::math::min(i + 1 + run, toks.len() as int);
        lemma_line_infer_pos(r.0, toks, next, r.1, tab);
    }
}

/// Folding lines keeps widths at one unit or more and never shortens the
/// vector; a processed line with at least one token leaves it non-empty.
pub proof fn lemma_infer_lines_pos(lines: Seq<Seq<Seq<char>>>, k: int, ws: Seq<usize>, tab: int)
    requires
        0 <= k,
        tab >= 1,
        forall|m: int| 0 <= m < ws.len() ==> ws[m] >= 1,
    ensures
        ({
            let r = infer_lines(lines, k, ws, tab);
            &&& r.len() >= ws.len()
            &&& ((exists|j: int| k <= j < lines.len() && lines[j].len() > 0) ==> r.len() >= 1)
            &&& forall|m: int| 0 <= m < r.len() ==> r[m] >= 1
        }),
    decreases lines.len() - k,
{
    if k >= lines.len() {
    } else {
        lemma_line_infer_pos(ws, lines[k], 0, 0, tab);
        let w1 = line_infer(ws, lines[k], 0, 0, tab);
        lemma_infer_lines_pos(lines, k + 1, w1, tab);
        if exists|j: int| k <= j < lines.len() && lines[j].len() > 0 {
            let j = choose|j: int| k <= j < lines.len() && lines[j].len() > 0;
            if j == k {
                assert(w1.len() >= 1);
            } else {
                assert(exists|j2: int| k + 1 <= j2 < lines.len() && lines[j2].len() > 0);
            }
        }
    }
}

/// The sum of a width vector.
pub open spec fn wsum(ws: Seq<usize>) -> int
    decreases ws.len(),
{
    if ws.len() == 0 {
        0
    } else {
        wsum(ws.drop_last()) + ws.last()
    }
}

pub proof fn lemma_wsum_take_succ(ws: Seq<usize>, i: int)
    requires
        0 <= i < ws.len(),
    ensures
        wsum(ws.take(i + 1)) == wsum(ws.take(i)) + ws[i],
{
    assert(ws.take(i + 1).drop_last() =~= ws.take(i));
    assert(ws.take(i + 1).last() == ws[i]);
}

pub proof fn lemma_wsum_nonneg(ws: Seq<usize>)
    ensures
        wsum(ws) >= 0,
    decreases ws.len(),
{
    if ws.len() > 0 {
        lemma_wsum_nonneg(ws.drop_last());
    }
}

/// The sum of a prefix never exceeds the sum of the whole vector.
pub proof fn lemma_wsum_take_le(ws: Seq<usize>, i: int)
    requires
        0 <= i <= ws.len(),
    ensures
        wsum(ws.take(i)) <= wsum(ws),
    decreases ws.len() - i,
{
    if i == ws.len() {
        assert(ws.take(i) =~= ws);
    } else {
        lemma_wsum_take_succ(ws, i);
        lemma_wsum_take_le(ws, i + 1);
    }
}

/// An empty-token run looks the same after dropping a prefix.
pub proof fn lemma_empty_run_shift(toks: Seq<Seq<char>>, n: int, j: int)
    requires
        0 <= n <= j <= toks.len(),
    ensures
        empty_run(toks, j) == empty_run(toks.skip(n), j - n),
    decreases toks.len() - j,
{
    if j < toks.len() {
        assert(toks.skip(n)[j - n] == toks[j]);
        if toks[j].len() == 0 {
            lemma_empty_run_shift(toks, n, j + 1);
        }
    }
}

/// A run of `n` empty tokens bounded by a non-empty one has length `n`.
pub proof fn lemma_empty_run_exact(toks: Seq<Seq<char>>, j: int, n: int)
    requires
        0 <= j,
        0 <= n,
        j + n < toks.len(),
        forall|i: int| j <= i < j + n ==> toks[i].len() == 0,
        toks[j + n].len() > 0,
    ensures
        empty_run(toks, j) == n,
    decreases n,
{
    if n > 0 {
        lemma_empty_run_exact(toks, j + 1, n - 1);
    }
}

/// Folding a line's groups ignores tokens before the starting index.
pub proof fn lemma_line_infer_shift(ws: Seq<usize>, toks: Seq<Seq<char>>, i: int, n: int, idx: int, tab: int)
    requires
        0 <= n <= i <= toks.len(),
        0 <= idx,
        tab >= 1,
    ensures
        line_infer(ws, toks, i, idx, tab) == line_infer(ws, toks.skip(n), i - n, idx, tab),
    decreases toks.len() - i,
{
    if i < toks.len() {
        assert(toks.skip(n)[i - n] == toks[i]);
        lemma_empty_run_shift(toks, n, i + 1);
        let run = empty_run(toks, i + 1);
        let g = group_width(toks, i, tab);
        assert(group_width(toks.skip(n), i - n, tab) == g);
        let more = i + 1 + run < toks.len();
        assert((i - n) + 1 + run < toks.skip(n).len() <==> more);
        let r = reconcile(ws, idx, g, more);
        lemma_reconcile_pos_idx(ws, idx, g, more);
        let next = vstd::math::min(i + 1 + run, toks.len() as int);
        lemma_line_infer_shift(r.0, toks, next, n, r.1, tab);
        assert(vstd::math::min((i - n) + 1 + run, toks.skip(n).len() as int) == next - n);
    }
}

/// Reconciling never returns a negative next column.
pub proof fn lemma_reconcile_pos_idx(ws: Seq<usize>, idx: int, w: int, more: bool)
    requires
        0 <= idx,
    ensures
        reconcile(ws, idx, w, more).1 >= idx + 1,
    decreases ws.len() - idx,
{
    if idx < ws.len() {
        let p = ws[idx] as int;
        if w != p && w > p && idx != ws.len() - 1 {
            lemma_reconcile_pos_idx(ws, idx + 1, w - p, more);
        }
    }
}

/// Peeling the first width off a subrange's sum.
pub proof fn lemma_wsum_front(ws: Seq<usize>, a: int, b: int)
    requires
        0 <= a < b <= ws.len(),
    ensures
        wsum(ws.subrange(a, b)) == ws[a] + wsum(ws.subrange(a + 1, b)),
    decreases b - a,
{
    if a + 1 == b {
        assert(ws.subrange(a, b) =~= seq![ws[a]]);
        assert(seq![ws[a]].drop_last() =~= Seq::<usize>::empty());
        assert(ws.subrange(a + 1, b) =~= Seq::<usize>::empty());
    } else {
        assert(ws.subrange(a, b).drop_last() =~= ws.subrange(a, b - 1));
        assert(ws.subrange(a, b).last() == ws[b - 1]);
        assert(ws.subrange(a + 1, b).drop_last() =~= ws.subrange(a + 1, b - 1));
        assert(ws.subrange(a + 1, b).last() == ws[b - 1]);
        lemma_wsum_front(ws, a, b - 1);
    }
}

/// Replacing one width changes the sum by exactly the difference.
pub proof fn lemma_wsum_update(ws: Seq<usize>, i: int, v: usize)
    requires
        0 <= i < ws.len(),
    ensures
        wsum(ws.update(i, v)) == wsum(ws) - ws[i] + v,
    decreases ws.len(),
{
    if i == ws.len() - 1 {
        assert(ws.update(i, v).drop_last() =~= ws.drop_last());
        assert(ws.update(i, v).last() == v);
    } else {
        assert(ws.update(i, v).drop_last() =~= ws.drop_last().update(i, v));
        assert(ws.update(i, v).last() == ws.last());
        lemma_wsum_update(ws.drop_last(), i, v);
    }
}

/// Removing one width lowers the sum by exactly that width.
pub proof fn lemma_wsum_remove(ws: Seq<usize>, i: int)
    requires
        0 <= i < ws.len(),
    ensures
        wsum(ws.remove(i)) == wsum(ws) - ws[i],
    decreases ws.len(),
{
    if i == ws.len() - 1 {
        assert(ws.remove(i) =~= ws.drop_last());
    } else {
        assert(ws.remove(i).drop_last() =~= ws.drop_last().remove(i));
        assert(ws.remove(i).last() == ws.last());
        lemma_wsum_remove(ws.drop_last(), i);
    }
}

/// The prefix sums of a width vector: `r[i]` is the sum of the first `i`
/// widths. Fails exactly when the total does not fit below `usize::MAX`.
pub fn prefix_sums(ws: &Vec<usize>) -> (r: Option<Vec<usize>>)
    ensures
        (r is Some) <==> wsum(ws@) < usize::MAX as int,
        r is Some ==> r->Some_0@.len() == ws@.len() + 1,
        r is Some ==> forall|i: int|
            0 <= i <= ws@.len() ==> #[trigger] r->Some_0@[i] == wsum(ws@.take(i)),
{
    let mut acc: Vec<usize> = Vec::new();
    acc.push(0);
    let mut s: usize = 0;
    let mut i: usize = 0;
    proof {
        assert(ws@.take(0) =~= Seq::<usize>::empty());
    }
    while i < ws.len()
        invariant
            i <= ws.len(),
            acc@.len() == i + 1,
            s as int == wsum(ws@.take(i as int)),
            forall|m: int| 0 <= m <= i ==> #[trigger] acc@[m] == wsum(ws@.take(m)),
        decreases ws.len() - i,
    {
        match s.checked_add(ws[i]) {
            Some(t) => {
                proof {
                    lemma_wsum_take_succ(ws@, i as int);
                }
                s = t;
                acc.push(t);
                i = i + 1;
            },
            None => {
                proof {
                    lemma_wsum_take_succ(ws@, i as int);
                    lemma_wsum_take_le(ws@, i + 1);
                }
                return None;
            },
        }
    }
    proof {
        assert(ws@.take(i as int) =~= ws@);
    }
    if s == usize::MAX {
        None
    } else {
        Some(acc)
    }
}

} // verus!
