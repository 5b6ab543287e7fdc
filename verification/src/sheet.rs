//! The sheet: a sparse grid of cells with a logical size, per-column
//! widths in tab-stop units, and their prefix sums.

use vstd::prelude::*;

use crate::editor::Config;
use crate::text::lemma_split_len;
use crate::text::lines_of;
use crate::text::chars_of;
use crate::text::token_lines_of;
use crate::text::tokenize;
use crate::widths::infer_widths;
use crate::widths::get_widths;
use crate::widths::lemma_infer_lines_pos;
use crate::widths::empty_run;
use crate::widths::group_width;
use crate::widths::line_infer;
use crate::widths::reconcile;
use crate::widths::infer_lines;
use crate::widths::measure_width;
use crate::widths::prefix_sums;
use crate::widths::unit_of;
use crate::widths::wsum;
use crate::widths::lemma_wsum_take_succ;
use crate::widths::lemma_wsum_remove;
use crate::widths::lemma_wsum_take_le;
use crate::widths::lemma_wsum_front;
use crate::text::push_chars;
use crate::text::string_of;
use crate::text::split_from;
use crate::text::split_at_sep;
use crate::text::lemma_split_seg;
use crate::text::lemma_split_seps;

verus! {

/// The content of one occupied cell.
pub struct Unit {
    pub content: String,
}

impl Unit {
    /// An empty cell content.
    pub fn new() -> (u: Unit)
        ensures
            u.content@ == Seq::<char>::empty(),
    {
        Unit { content: String::new() }
    }

    /// A cell content holding a copy of `value`.
    pub fn from(value: &str) -> (u: Unit)
        ensures
            u.content@ == value@,
    {
        Unit { content: value.to_owned() }
    }
}

/// One occupied cell: its coordinates and its content.
pub struct Entry {
    pub col: usize,
    pub row: usize,
    pub unit: Unit,
}

/// A sequence of entries as (column, row, content) triples.
pub open spec fn entries_view(es: Seq<Entry>) -> Seq<(int, int, Seq<char>)> {
    es.map_values(|e: Entry| (e.col as int, e.row as int, e.unit.content@))
}

/// The cells that one line's tokens occupy, as (column, content) pairs in
/// column order. A token is laid into the running column; the column's
/// width, less the token's own unit width, says how many following tokens
/// are padding and are consumed without occupying a column. Tokens landing
/// past the width vector are dropped.
pub open spec fn place_pts(toks: Seq<Seq<char>>, ws: Seq<usize>, col: int, tab: int) -> Seq<
    (int, Seq<char>),
>
    decreases toks.len()
    when tab >= 1
{
    if toks.len() == 0 {
        Seq::empty()
    } else {
        let t = toks[0];
        let inb = 0 <= col < ws.len();
        let skipn = if inb {
            vstd::math::max(ws[col] as int - unit_of(t, tab), 0)
        } else {
            0
        };
        let consumed = vstd::math::min(1 + skipn, toks.len() as int);
        let rest = place_pts(toks.skip(consumed), ws, col + 1, tab);
        if t.len() > 0 && inb {
            seq![(col, t)] + rest
        } else {
            rest
        }
    }
}

/// One line's cells with the row number attached.
pub open spec fn row_pts(toks: Seq<Seq<char>>, ws: Seq<usize>, r: int, tab: int) -> Seq<
    (int, int, Seq<char>),
> {
    place_pts(toks, ws, 0, tab).map_values(|p: (int, Seq<char>)| (p.0, r, p.1))
}

/// The cells of all lines from row `r` on, in row order.
pub open spec fn all_pts(tl: Seq<Seq<Seq<char>>>, ws: Seq<usize>, tab: int, r: int) -> Seq<
    (int, int, Seq<char>),
>
    decreases tl.len() - r
    when 0 <= r && tab >= 1
{
    if r >= tl.len() {
        Seq::empty()
    } else {
        row_pts(tl[r], ws, r, tab) + all_pts(tl, ws, tab, r + 1)
    }
}

/// The coordinates of an entry, as a mathematical pair.
pub open spec fn key_of(e: Entry) -> (int, int) {
    (e.col as int, e.row as int)
}

/// Whether some entry occupies column `c`, row `r`.
pub open spec fn has_key(es: Seq<Entry>, c: int, r: int) -> bool {
    exists|i: int| 0 <= i < es.len() && #[trigger] key_of(es[i]) == (c, r)
}

/// The content of the entry at column `c`, row `r`.
pub open spec fn val_at(es: Seq<Entry>, c: int, r: int) -> Seq<char> {
    let i = choose|i: int| 0 <= i < es.len() && #[trigger] key_of(es[i]) == (c, r);
    es[i].unit.content@
}

/// No two entries share a coordinate pair.
pub open spec fn entries_distinct(es: Seq<Entry>) -> bool {
    forall|i: int, j: int| 0 <= i < j < es.len() ==> key_of(es[i]) != key_of(es[j])
}

/// The largest unit width over `base` and the entries of column `c`, the
/// entry with key `skip` left aside.
pub open spec fn col_max_units(es: Seq<Entry>, c: int, skip: (int, int), tab: int, base: int) -> int
    decreases es.len(),
{
    if es.len() == 0 {
        base
    } else {
        let rest = col_max_units(es.drop_last(), c, skip, tab, base);
        let e = es.last();
        if e.col == c && key_of(e) != skip && unit_of(e.unit.content@, tab) > rest {
            unit_of(e.unit.content@, tab)
        } else {
            rest
        }
    }
}

/// Maps a coordinate of the compacted grid back to the one it had before
/// the removal of index `cut`.
pub open spec fn unshift(v: int, cut: int, removed: bool) -> int {
    if removed && v >= cut {
        v + 1
    } else {
        v
    }
}

/// The width vector after an upsert at `pos`: the column's width becomes
/// the largest unit width over the column's remaining cells and the new
/// content; columns created below `pos.0` get width one.
pub open spec fn upsert_widths(s: Sheet, pos: (usize, usize), content: Seq<char>) -> Seq<usize> {
    let oldw = s.widths@;
    let ncols = vstd::math::max(oldw.len() as int, pos.0 + 1);
    let m = col_max_units(
        s.units@,
        pos.0 as int,
        (pos.0 as int, pos.1 as int),
        s.tab_size as int,
        unit_of(content, s.tab_size as int),
    );
    Seq::new(
        ncols as nat,
        |i: int|
            if i == pos.0 {
                m as usize
            } else if i < oldw.len() {
                oldw[i]
            } else {
                1usize
            },
    )
}

/// How an edited sheet `n` relates to the sheet `o` it came from, after
/// `edit(pos, content)`: the full contract of `Sheet::edit`.
pub open spec fn edited(o: Sheet, n: Sheet, pos: (usize, usize), content: Seq<char>) -> bool {
    ({
        let buf_view = content;
        &&& (
            n.wf()
        )
        &&& (
            n.tab_size == o.tab_size
        )
        &&& (
            buf_view.len() > 0 ==> ({
                let nw = upsert_widths(o, pos, buf_view);
                if wsum(nw) < usize::MAX as int {
                    &&& n.widths@ == nw
                    &&& n.size.0 as int == vstd::math::max(
                        o.size.0 as int,
                        pos.0 + 1,
                    )
                    &&& n.size.1 as int == vstd::math::max(
                        o.size.1 as int,
                        pos.1 + 1,
                    )
                    &&& forall|c: int, r: int|
                        #[trigger] n.has_cell(c, r) <==> (o.has_cell(c, r) || (
                        c,
                        r,
                        ) == (pos.0 as int, pos.1 as int))
                    &&& n.cell_at(pos.0 as int, pos.1 as int) == buf_view
                    &&& forall|c: int, r: int|
                        o.has_cell(c, r) && (c, r) != (pos.0 as int, pos.1 as int)
                            ==> #[trigger] n.cell_at(c, r) == o.cell_at(c, r)
                } else {
                    n == o
                }
            })
        )
        &&& (
            buf_view.len() == 0 ==> ({
                let colrm = pos.0 < o.size.0 && o.size.0 > 1 && !(exists|rr: int|
                    #[trigger] has_key(o.units@, pos.0 as int, rr) && rr != pos.1 as int);
                let rowrm = pos.1 < o.size.1 && o.size.1 > 1 && !(exists|cc: int|
                    #[trigger] has_key(o.units@, cc, pos.1 as int) && cc != pos.0 as int);
                &&& n.size.0 as int == o.size.0 - (if colrm {
                    1int
                } else {
                    0int
                })
                &&& n.size.1 as int == o.size.1 - (if rowrm {
                    1int
                } else {
                    0int
                })
                &&& n.widths@ == (if colrm {
                    o.widths@.remove(pos.0 as int)
                } else {
                    o.widths@
                })
                &&& forall|c: int, r: int|
                    #[trigger] n.has_cell(c, r) <==> (o.has_cell(
                        unshift(c, pos.0 as int, colrm),
                        unshift(r, pos.1 as int, rowrm),
                    ) && (unshift(c, pos.0 as int, colrm), unshift(r, pos.1 as int, rowrm)) != (
                    pos.0 as int,
                    pos.1 as int,
                    ))
                &&& forall|c: int, r: int|
                    #[trigger] n.has_cell(c, r) ==> n.cell_at(c, r) == o.cell_at(
                        unshift(c, pos.0 as int, colrm),
                        unshift(r, pos.1 as int, rowrm),
                    )
            })
        )
        &&& true
    })
}

/// How a sheet loaded from `text` with tab size `tab` relates to the
/// text: the full contract of `Sheet::from_str`.
pub open spec fn loads(s: Sheet, text: Seq<char>, tab: int) -> bool {
    let tl = token_lines_of(text);
    let w = infer_widths(tl, tab);
    &&& s.wf()
    &&& s.tab_size as int == tab
    &&& if text.len() == 0 || wsum(w) >= usize::MAX as int {
        s.size == (1usize, 1usize) && s.units@.len() == 0 && s.widths@ =~= seq![1usize]
    } else {
        s.widths@ == w && s.size.0 == w.len() && s.size.1 == lines_of(text).len()
            && s.units_view() == all_pts(tl, w, tab, 0)
    }
}

/// A sheet whose serialized text loads back exactly: every cell's content
/// is non-empty, free of tab and newline characters, and fits within its
/// column's width.
pub open spec fn canonical(s: Sheet) -> bool {
    &&& s.wf()
    &&& forall|c: int, r: int|
        #[trigger] s.has_cell(c, r) ==> s.cell_at(c, r).len() > 0 && !s.cell_at(c, r).contains(
            '\t',
        ) && !s.cell_at(c, r).contains('\n') && unit_of(s.cell_at(c, r), s.tab_size as int)
            <= s.widths@[c]
}

/// The (column, content) pairs of row `r`, from column `c` on.
pub open spec fn rest_pts(s: Sheet, r: int, c: int) -> Seq<(int, Seq<char>)>
    decreases s.size.0 - c,
{
    if c >= s.size.0 {
        Seq::empty()
    } else if s.has_cell(c, r) {
        seq![(c, s.cell_at(c, r))] + rest_pts(s, r, c + 1)
    } else {
        rest_pts(s, r, c + 1)
    }
}

/// The tokens that splitting a serialized row on tab yields, read off the
/// sheet directly: `cur` is the token being accumulated, `p` the tab
/// bytes owed before the next cell.
pub open spec fn stream(s: Sheet, r: int, c: int, p: nat, cur: Seq<char>) -> Seq<Seq<char>>
    decreases s.size.0 - c
    when s.tab_size >= 1
{
    if c >= s.size.0 {
        seq![cur]
    } else if s.has_cell(c, r) && c < s.widths@.len() {
        let t = s.cell_at(c, r);
        let skipn = vstd::math::max(s.widths@[c] as int - unit_of(t, s.tab_size as int), 0);
        if p == 0 {
            stream(s, r, c + 1, (1 + skipn) as nat, cur + t)
        } else {
            seq![cur] + Seq::new((p - 1) as nat, |i: int| Seq::<char>::empty()) + stream(
                s,
                r,
                c + 1,
                (1 + skipn) as nat,
                t,
            )
        }
    } else {
        stream(
            s,
            r,
            c + 1,
            p + (if 0 <= c < s.widths@.len() {
                s.widths@[c] as nat
            } else {
                0nat
            }),
            cur,
        )
    }
}

/// A sequence free of the tab character.
pub open spec fn tab_free(t: Seq<char>) -> bool {
    forall|i: int| 0 <= i < t.len() ==> t[i] != '\t'
}

/// Splitting a serialized row on tab yields its token stream.
pub proof fn lemma_split_line(s: Sheet, r: int, c: int, p: nat, cur: Seq<char>)
    requires
        canonical(s),
        0 <= c,
        tab_free(cur),
    ensures
        split_from(s.line_chars(r, c, p), '\t', cur) == stream(s, r, c, p, cur),
    decreases s.size.0 - c,
{
    if c >= s.size.0 {
    } else if s.has_cell(c, r) && c < s.widths@.len() {
        let t = s.cell_at(c, r);
        let skipn = vstd::math::max(s.widths@[c] as int - unit_of(t, s.tab_size as int), 0);
        let rest = s.line_chars(r, c + 1, (1 + skipn) as nat);
        assert(tab_free(t)) by {
            assert forall|i: int| 0 <= i < t.len() implies t[i] != '\t' by {
                if t[i] == '\t' {
                    assert(t.contains('\t'));
                }
            }
        }
        if p == 0 {
            assert(Seq::new(p, |q: int| '\t') + t + rest =~= t + rest);
            lemma_split_seg(t, rest, '\t', cur);
            assert(tab_free(cur + t));
            lemma_split_line(s, r, c + 1, (1 + skipn) as nat, cur + t);
        } else {
            assert(Seq::new(p, |q: int| '\t') + t + rest =~= Seq::new(p, |i: int| '\t') + (t
                + rest));
            lemma_split_seps(p, t + rest, '\t', cur);
            lemma_split_seg(t, rest, '\t', Seq::empty());
            assert(Seq::<char>::empty() + t =~= t);
            lemma_split_line(s, r, c + 1, (1 + skipn) as nat, t);
        }
    } else {
        lemma_split_line(
            s,
            r,
            c + 1,
            p + (if 0 <= c < s.widths@.len() {
                s.widths@[c] as nat
            } else {
                0nat
            }),
            cur,
        );
    }
}

/// A token stream always holds at least the accumulating token.
pub proof fn lemma_stream_len(s: Sheet, r: int, c: int, p: nat, cur: Seq<char>)
    requires
        s.tab_size >= 1,
        0 <= c,
    ensures
        stream(s, r, c, p, cur).len() >= 1,
    decreases s.size.0 - c,
{
    if c >= s.size.0 {
    } else if s.has_cell(c, r) && c < s.widths@.len() {
        let t = s.cell_at(c, r);
        let skipn = vstd::math::max(s.widths@[c] as int - unit_of(t, s.tab_size as int), 0);
        if p == 0 {
            lemma_stream_len(s, r, c + 1, (1 + skipn) as nat, cur + t);
        } else {
            lemma_stream_len(s, r, c + 1, (1 + skipn) as nat, t);
        }
    } else {
        lemma_stream_len(
            s,
            r,
            c + 1,
            p + (if 0 <= c < s.widths@.len() {
                s.widths@[c] as nat
            } else {
                0nat
            }),
            cur,
        );
    }
}

/// A run of empty tokens whose count is the total width of the unoccupied
/// columns `[cp, c)` walks the placer from column `cp` to column `c`
/// without placing anything.
pub proof fn lemma_place_empties(s: Sheet, pws: Seq<usize>, r: int, cp: int, c: int, tail: Seq<
    Seq<char>,
>)
    requires
        s.wf(),
        0 <= cp <= c <= s.widths@.len(),
        pws.len() == s.widths@.len(),
        forall|i: int| cp <= i < c ==> #[trigger] pws[i] == s.widths@[i],
        forall|i: int| cp <= i < c ==> !s.has_cell(i, r),
        tail.len() >= 1,
    ensures
        place_pts(
            Seq::new(wsum(s.widths@.subrange(cp, c)) as nat, |i: int| Seq::<char>::empty()) + tail,
            pws,
            cp,
            s.tab_size as int,
        ) == place_pts(tail, pws, c, s.tab_size as int),
    decreases c - cp,
{
    let ws = s.widths@;
    let tab = s.tab_size as int;
    crate::widths::lemma_wsum_nonneg(ws.subrange(cp, c));
    let q = wsum(ws.subrange(cp, c)) as nat;
    let toks = Seq::new(q, |i: int| Seq::<char>::empty()) + tail;
    if cp == c {
        assert(ws.subrange(cp, c) =~= Seq::<usize>::empty());
        assert(toks =~= tail);
    } else {
        lemma_wsum_front(ws, cp, c);
        crate::widths::lemma_wsum_nonneg(ws.subrange(cp + 1, c));
        let q2 = wsum(ws.subrange(cp + 1, c)) as nat;
        assert(q == ws[cp] + q2);
        assert(pws[cp] == ws[cp]);
        assert(toks[0] =~= Seq::<char>::empty());
        assert(toks.len() == q + tail.len());
        let skipn = vstd::math::max(pws[cp] as int - unit_of(toks[0], tab), 0);
        assert(unit_of(toks[0], tab) == 1);
        assert(skipn == ws[cp] - 1);
        let consumed = vstd::math::min(1 + skipn, toks.len() as int);
        assert(consumed == ws[cp]);
        assert(toks.skip(consumed) =~= Seq::new(q2, |i: int| Seq::<char>::empty()) + tail);
        lemma_place_empties(s, pws, r, cp + 1, c, tail);
    }
}

/// Laying a row's token stream back into the grid restores exactly the
/// row's cells from column `c` on. `cp` is the column about to receive
/// the accumulated token `cur`.
pub proof fn lemma_place_stream(
    s: Sheet,
    pws: Seq<usize>,
    r: int,
    c: int,
    p: nat,
    cur: Seq<char>,
    cp: int,
)
    requires
        canonical(s),
        0 <= cp <= c <= s.size.0,
        pws.len() == s.size.0,
        forall|i: int| 0 <= i < s.size.0 - 1 ==> #[trigger] pws[i] == s.widths@[i],
        forall|i: int| cp < i < c ==> !s.has_cell(i, r),
        (c == cp && p == 0 && cur == Seq::<char>::empty() && c < s.size.0) || (c > cp && p as int
            == 1 + wsum(s.widths@.subrange(cp, c)) - unit_of(cur, s.tab_size as int) && (cur.len()
            > 0 ==> s.has_cell(cp, r) && cur == s.cell_at(cp, r)) && (cur.len() == 0
            ==> !s.has_cell(cp, r))),
    ensures
        place_pts(stream(s, r, c, p, cur), pws, cp, s.tab_size as int) == (if cur.len() > 0 {
            seq![(cp, cur)]
        } else {
            Seq::<(int, Seq<char>)>::empty()
        }) + rest_pts(s, r, c),
    decreases s.size.0 - c,
{
    let ws = s.widths@;
    let tab = s.tab_size as int;
    let head: Seq<(int, Seq<char>)> = if cur.len() > 0 {
        seq![(cp, cur)]
    } else {
        Seq::<(int, Seq<char>)>::empty()
    };
    if c >= s.size.0 {
        assert(c > cp);
        let toks = seq![cur];
        assert(toks[0] == cur);
        let skipn = vstd::math::max(pws[cp] as int - unit_of(cur, tab), 0);
        let consumed = vstd::math::min(1 + skipn, toks.len() as int);
        assert(consumed == 1);
        assert(toks.skip(1) =~= Seq::<Seq<char>>::empty());
        assert(place_pts(Seq::<Seq<char>>::empty(), pws, cp + 1, tab)
            =~= Seq::<(int, Seq<char>)>::empty());
        assert(head + Seq::<(int, Seq<char>)>::empty() =~= head);
        assert(rest_pts(s, r, c) =~= Seq::<(int, Seq<char>)>::empty());
        assert(head + rest_pts(s, r, c) =~= head);
    } else if s.has_cell(c, r) && c < ws.len() {
        let t = s.cell_at(c, r);
        let skc = vstd::math::max(ws[c] as int - unit_of(t, tab), 0);
        assert(t.len() > 0);
        assert(unit_of(t, tab) <= ws[c]);
        if c == cp {
            // The aligned start: the cell's content becomes the token.
            assert(p == 0);
            assert(Seq::<char>::empty() + t =~= t);
            assert(ws.subrange(c, c + 1) =~= seq![ws[c]]);
            assert(seq![ws[c]].drop_last() =~= Seq::<usize>::empty());
            assert(wsum(Seq::<usize>::empty()) == 0);
            assert(wsum(ws.subrange(c, c + 1)) == ws[c]);
            lemma_place_stream(s, pws, r, c + 1, (1 + skc) as nat, t, c);
            assert(rest_pts(s, r, c) =~= seq![(c, t)] + rest_pts(s, r, c + 1));
            assert(head + rest_pts(s, r, c) =~= rest_pts(s, r, c));
        } else {
            // The placer reads `cur`, skips its column's padding, crosses
            // the unoccupied columns, and continues at column `c`.
            assert(unit_of(cur, tab) <= ws[cp]) by {
                if cur.len() > 0 {
                    assert(s.has_cell(cp, r));
                }
            }
            lemma_wsum_front(ws, cp, c);
            crate::widths::lemma_wsum_nonneg(ws.subrange(cp + 1, c));
            let qq = wsum(ws.subrange(cp + 1, c)) as nat;
            assert(p as int == 1 + (ws[cp] - unit_of(cur, tab)) + qq);
            let sub = stream(s, r, c + 1, (1 + skc) as nat, t);
            lemma_stream_len(s, r, c + 1, (1 + skc) as nat, t);
            let toks = seq![cur] + Seq::new((p - 1) as nat, |i: int| Seq::<char>::empty()) + sub;
            assert(stream(s, r, c, p, cur) == toks);
            assert(toks[0] == cur);
            assert(pws[cp] == ws[cp]);
            let skipn = vstd::math::max(pws[cp] as int - unit_of(cur, tab), 0);
            assert(skipn == ws[cp] - unit_of(cur, tab));
            let consumed = vstd::math::min(1 + skipn, toks.len() as int);
            assert(toks.len() == p + sub.len());
            assert(1 + skipn <= p);
            assert(consumed == 1 + skipn);
            assert(toks.skip(consumed) =~= Seq::new(qq, |i: int| Seq::<char>::empty()) + sub);
            lemma_place_empties(s, pws, r, cp + 1, c, sub);
            assert(ws.subrange(c, c + 1) =~= seq![ws[c]]);
            assert(seq![ws[c]].drop_last() =~= Seq::<usize>::empty());
            assert(wsum(Seq::<usize>::empty()) == 0);
            assert(wsum(ws.subrange(c, c + 1)) == ws[c]);
            lemma_place_stream(s, pws, r, c + 1, (1 + skc) as nat, t, c);
            assert(place_pts(sub, pws, c, tab) == seq![(c, t)] + rest_pts(s, r, c + 1));
            assert(rest_pts(s, r, c) =~= seq![(c, t)] + rest_pts(s, r, c + 1));
            if cur.len() > 0 {
                assert(place_pts(toks, pws, cp, tab) =~= seq![(cp, cur)] + place_pts(
                    toks.skip(consumed),
                    pws,
                    cp + 1,
                    tab,
                ));
                assert(head + rest_pts(s, r, c) =~= seq![(cp, cur)] + rest_pts(s, r, c));
            } else {
                assert(head + rest_pts(s, r, c) =~= rest_pts(s, r, c));
            }
        }
    } else {
        assert(c < ws.len());
        assert(!s.has_cell(c, r));
        let pp = p + ws[c] as nat;
        assert(ws.subrange(cp, c + 1).drop_last() =~= ws.subrange(cp, c));
        assert(ws.subrange(cp, c + 1).last() == ws[c]);
        if c == cp {
            assert(ws.subrange(cp, cp) =~= Seq::<usize>::empty());
            assert(unit_of(cur, tab) == 1);
        }
        assert(wsum(ws.subrange(cp, c + 1)) == wsum(ws.subrange(cp, c)) + ws[c]);
        lemma_place_stream(s, pws, r, c + 1, pp, cur, cp);
        assert(rest_pts(s, r, c) =~= rest_pts(s, r, c + 1));
    }
}

/// A sequence free of the newline character.
pub open spec fn nl_free(t: Seq<char>) -> bool {
    forall|i: int| 0 <= i < t.len() ==> t[i] != '\n'
}

/// A serialized row holds no newline character.
pub proof fn lemma_line_no_newline(s: Sheet, r: int, c: int, p: nat)
    requires
        canonical(s),
        0 <= c,
    ensures
        nl_free(s.line_chars(r, c, p)),
    decreases s.size.0 - c,
{
    if c >= s.size.0 {
    } else if s.has_cell(c, r) && c < s.widths@.len() {
        let t = s.cell_at(c, r);
        let skipn = vstd::math::max(s.widths@[c] as int - unit_of(t, s.tab_size as int), 0);
        lemma_line_no_newline(s, r, c + 1, (1 + skipn) as nat);
        let tabs = Seq::new(p, |q: int| '\t');
        let rest = s.line_chars(r, c + 1, (1 + skipn) as nat);
        assert forall|i: int|
            0 <= i < (tabs + t + rest).len() implies (tabs + t + rest)[i] != '\n' by {
            if i < tabs.len() {
                assert((tabs + t + rest)[i] == '\t');
            } else if i < tabs.len() + t.len() {
                assert((tabs + t + rest)[i] == t[i - tabs.len()]);
                if t[i - tabs.len()] == '\n' {
                    assert(t.contains('\n'));
                }
            } else {
                assert((tabs + t + rest)[i] == rest[i - tabs.len() - t.len()]);
            }
        }
    } else {
        lemma_line_no_newline(
            s,
            r,
            c + 1,
            p + (if 0 <= c < s.widths@.len() {
                s.widths@[c] as nat
            } else {
                0nat
            }),
        );
    }
}

/// The serialized rows, one line each, from row `r` on.
pub open spec fn rows_chars(s: Sheet, r: int) -> Seq<Seq<char>>
    decreases s.size.1 - r
    when s.tab_size >= 1
{
    if r >= s.size.1 {
        Seq::empty()
    } else {
        seq![s.line_chars(r, 0, 0)] + rows_chars(s, r + 1)
    }
}

/// The serialized text of any row suffix ends with a newline.
pub proof fn lemma_sheet_chars_shape(s: Sheet, r: int)
    requires
        s.tab_size >= 1,
        0 <= r < s.size.1,
    ensures
        s.sheet_chars(r).len() >= 1,
        s.sheet_chars(r).last() == '\n',
    decreases s.size.1 - r,
{
    let line = s.line_chars(r, 0, 0);
    let rest = s.sheet_chars(r + 1);
    if r + 1 < s.size.1 {
        lemma_sheet_chars_shape(s, r + 1);
        assert((line + seq!['\n'] + rest).last() == rest.last());
    } else {
        assert(rest =~= Seq::<char>::empty());
        assert((line + seq!['\n'] + rest).last() == '\n');
    }
}

/// Splitting the serialized text on newlines, with the final newline
/// stripped, recovers the serialized rows.
pub proof fn lemma_split_rows(s: Sheet, r: int, cur: Seq<char>)
    requires
        canonical(s),
        0 <= r < s.size.1,
        nl_free(cur),
    ensures
        split_from(
            s.sheet_chars(r).take(s.sheet_chars(r).len() - 1),
            '\n',
            cur,
        ) == seq![cur + s.line_chars(r, 0, 0)] + rows_chars(s, r + 1),
    decreases s.size.1 - r,
{
    let line = s.line_chars(r, 0, 0);
    lemma_line_no_newline(s, r, 0, 0);
    let rest = s.sheet_chars(r + 1);
    let whole = s.sheet_chars(r);
    assert(whole == line + seq!['\n'] + rest);
    if r + 1 >= s.size.1 {
        assert(rest =~= Seq::<char>::empty());
        assert(whole.take(whole.len() - 1) =~= line);
        assert(line + Seq::<char>::empty() =~= line);
        lemma_split_seg(line, Seq::empty(), '\n', cur);
        assert(split_from(Seq::empty(), '\n', cur + line) == seq![cur + line]);
        assert(seq![cur + line] + rows_chars(s, r + 1) =~= seq![cur + line]);
    } else {
        lemma_sheet_chars_shape(s, r + 1);
        let stripped = rest.take(rest.len() - 1);
        assert(whole.take(whole.len() - 1) =~= line + (seq!['\n'] + stripped));
        lemma_split_seg(line, seq!['\n'] + stripped, '\n', cur);
        assert((seq!['\n'] + stripped)[0] == '\n');
        assert((seq!['\n'] + stripped).skip(1) =~= stripped);
        lemma_split_rows(s, r + 1, Seq::empty());
        assert(Seq::<char>::empty() + s.line_chars(r + 1, 0, 0) =~= s.line_chars(r + 1, 0, 0));
        assert(seq![cur + line] + (seq![s.line_chars(r + 1, 0, 0)] + rows_chars(s, r + 2))
            =~= seq![cur + line] + rows_chars(s, r + 1));
    }
}

/// `rows_chars` holds one line per row.
pub proof fn lemma_rows_chars_index(s: Sheet, a: int, r: int)
    requires
        s.tab_size >= 1,
        0 <= a <= r < s.size.1,
    ensures
        rows_chars(s, a).len() == s.size.1 - a,
        rows_chars(s, a)[r - a] == s.line_chars(r, 0, 0),
    decreases s.size.1 - a,
{
    if a < s.size.1 {
        if a + 1 <= r {
            lemma_rows_chars_index(s, a + 1, r);
        } else if a + 1 < s.size.1 {
            lemma_rows_chars_index(s, a + 1, a + 1);
        } else {
            assert(rows_chars(s, a + 1) =~= Seq::<Seq<char>>::empty());
        }
    }
}

/// The round-trip law, placement side: serialize a canonical sheet, split
/// the text back into lines and each line into its tab-separated tokens,
/// and lay each line's tokens against any column widths that agree with
/// the sheet's on all but possibly the last column; this yields one line
/// per row and restores exactly each row's cells, in column order.
pub proof fn lemma_place_rows(s: Sheet, pws: Seq<usize>)
    requires
        canonical(s),
        pws.len() == s.size.0,
        forall|i: int| 0 <= i < s.size.0 - 1 ==> #[trigger] pws[i] == s.widths@[i],
    ensures
        lines_of(s.sheet_chars(0)).len() == s.size.1,
        forall|r: int|
            0 <= r < s.size.1 ==> place_pts(
                #[trigger] token_lines_of(s.sheet_chars(0))[r],
                pws,
                0,
                s.tab_size as int,
            ) == rest_pts(s, r, 0),
{
    let text = s.sheet_chars(0);
    lemma_token_lines_are_streams(s);
    assert forall|r: int| 0 <= r < s.size.1 implies place_pts(
        #[trigger] token_lines_of(text)[r],
        pws,
        0,
        s.tab_size as int,
    ) == rest_pts(s, r, 0) by {
        assert(token_lines_of(text)[r] == stream(s, r, 0, 0, Seq::empty()));
        lemma_place_stream(s, pws, r, 0, 0, Seq::empty(), 0);
        assert(Seq::<(int, Seq<char>)>::empty() + rest_pts(s, r, 0) =~= rest_pts(s, r, 0));
    }
}

/// The placement-side round trip at the sheet's own widths.
pub proof fn lemma_round_trip_cells(s: Sheet)
    requires
        canonical(s),
    ensures
        lines_of(s.sheet_chars(0)).len() == s.size.1,
        forall|r: int|
            0 <= r < s.size.1 ==> place_pts(
                #[trigger] token_lines_of(s.sheet_chars(0))[r],
                s.widths@,
                0,
                s.tab_size as int,
            ) == rest_pts(s, r, 0),
{
    lemma_place_rows(s, s.widths@);
}

/// Every pair that the round trip lays back is an original cell, and
/// every original cell comes back: `rest_pts` lists exactly the occupied
/// cells of the row with their contents.
pub proof fn lemma_rest_pts_complete(s: Sheet, r: int, c: int)
    requires
        0 <= c,
    ensures
        forall|k: int|
            0 <= k < rest_pts(s, r, c).len() ==> ({
                let q = #[trigger] rest_pts(s, r, c)[k];
                s.has_cell(q.0, r) && q.1 == s.cell_at(q.0, r) && c <= q.0 < s.size.0
            }),
        forall|cc: int|
            c <= cc < s.size.0 && #[trigger] s.has_cell(cc, r) ==> exists|k: int|
                0 <= k < rest_pts(s, r, c).len() && rest_pts(s, r, c)[k] == (cc, s.cell_at(cc, r)),
    decreases s.size.0 - c,
{
    if c >= s.size.0 {
    } else {
        lemma_rest_pts_complete(s, r, c + 1);
        let tailp = rest_pts(s, r, c + 1);
        if s.has_cell(c, r) {
            let whole = seq![(c, s.cell_at(c, r))] + tailp;
            assert forall|cc: int|
                c <= cc < s.size.0 && #[trigger] s.has_cell(cc, r) implies exists|k: int|
                0 <= k < whole.len() && whole[k] == (cc, s.cell_at(cc, r)) by {
                if cc == c {
                    assert(whole[0] == (cc, s.cell_at(cc, r)));
                } else {
                    let k = choose|k: int|
                        0 <= k < tailp.len() && tailp[k] == (cc, s.cell_at(cc, r));
                    assert(whole[k + 1] == (cc, s.cell_at(cc, r)));
                }
            }
        } else {
            assert forall|cc: int|
                c <= cc < s.size.0 && #[trigger] s.has_cell(cc, r) implies exists|k: int|
                0 <= k < rest_pts(s, r, c).len() && rest_pts(s, r, c)[k] == (
                cc,
                s.cell_at(cc, r),
            ) by {
                assert(cc != c);
                let k = choose|k: int| 0 <= k < tailp.len() && tailp[k] == (cc, s.cell_at(cc, r));
                assert(rest_pts(s, r, c) == tailp);
                assert(rest_pts(s, r, c)[k] == (cc, s.cell_at(cc, r)));
            }
        }
    }
}

/// Every cell of the grid is occupied.
pub open spec fn fully_occupied(s: Sheet) -> bool {
    forall|c: int, r: int| 0 <= c < s.size.0 && 0 <= r < s.size.1 ==> s.has_cell(c, r)
}

/// The largest unit width in column `c` over the rows before `r`.
pub open spec fn umax_upto(s: Sheet, c: int, r: int) -> int
    decreases r,
{
    if r <= 0 {
        0
    } else {
        vstd::math::max(umax_upto(s, c, r - 1), unit_of(s.cell_at(c, r - 1), s.tab_size as int))
    }
}

/// A stream with at least one tab owed starts with its accumulator.
pub proof fn lemma_stream_head(s: Sheet, r: int, c: int, p: nat, cur: Seq<char>)
    requires
        s.tab_size >= 1,
        0 <= c,
        p >= 1,
    ensures
        stream(s, r, c, p, cur).len() >= 1,
        stream(s, r, c, p, cur)[0] == cur,
    decreases s.size.0 - c,
{
    if c >= s.size.0 {
    } else if s.has_cell(c, r) && c < s.widths@.len() {
        let t = s.cell_at(c, r);
        let skipn = vstd::math::max(s.widths@[c] as int - unit_of(t, s.tab_size as int), 0);
        lemma_stream_len(s, r, c + 1, (1 + skipn) as nat, t);
        let rest = stream(s, r, c + 1, (1 + skipn) as nat, t);
        assert((seq![cur] + Seq::new((p - 1) as nat, |i: int| Seq::<char>::empty()) + rest)[0]
            == cur);
    } else {
        lemma_stream_head(
            s,
            r,
            c + 1,
            p + (if 0 <= c < s.widths@.len() {
                s.widths@[c] as nat
            } else {
                0nat
            }),
            cur,
        );
    }
}

/// The widths that the groups of a fully occupied row contribute, from
/// the group of column `b` on: the full column width for every group but
/// the last, whose cell contributes only its own unit width.
pub open spec fn group_widths_from(s: Sheet, r: int, b: int) -> Seq<usize>
    decreases s.size.0 - b,
{
    if b >= s.size.0 {
        Seq::empty()
    } else if b == s.size.0 - 1 {
        seq![unit_of(s.cell_at(b, r), s.tab_size as int) as usize]
    } else {
        seq![s.widths@[b]] + group_widths_from(s, r, b + 1)
    }
}

/// Inferring over a fully occupied row's stream, with the width vector so
/// far exactly consumed, appends one width per remaining group.
pub proof fn lemma_infer_row_append(s: Sheet, r: int, b: int, ws: Seq<usize>)
    requires
        canonical(s),
        fully_occupied(s),
        0 <= r < s.size.1,
        0 <= b < s.size.0,
        s.has_cell(b, r),
    ensures
        ({
            let t = s.cell_at(b, r);
            let k = (s.widths@[b] as int - unit_of(t, s.tab_size as int)) as nat;
            line_infer(
                ws,
                stream(s, r, b + 1, (1 + k) as nat, t),
                0,
                ws.len() as int,
                s.tab_size as int,
            ) == ws + group_widths_from(s, r, b)
        }),
    decreases s.size.0 - b,
{
    let tab = s.tab_size as int;
    let t = s.cell_at(b, r);
    let u = unit_of(t, tab);
    assert(u <= s.widths@[b]);
    assert(t.len() > 0);
    let k = (s.widths@[b] as int - u) as nat;
    let toks = stream(s, r, b + 1, (1 + k) as nat, t);
    if b == s.size.0 - 1 {
        assert(toks == seq![t]);
        assert(empty_run(toks, 1) == 0);
        assert(1 <= u <= usize::MAX as int);
        assert(group_width(toks, 0, tab) == u);
        let rec = reconcile(ws, ws.len() as int, u, false);
        assert(rec == (ws.push(u as usize), ws.len() as int + 1));
        assert(line_infer(rec.0, toks, 1, ws.len() as int + 1, tab) == rec.0);
        assert(ws.push(u as usize) =~= ws + seq![u as usize]);
    } else {
        let tn = s.cell_at(b + 1, r);
        assert(s.has_cell(b + 1, r));
        let un = unit_of(tn, tab);
        let kn = (s.widths@[b + 1] as int - un) as nat;
        let rest = stream(s, r, b + 2, (1 + kn) as nat, tn);
        lemma_stream_head(s, r, b + 2, (1 + kn) as nat, tn);
        let mids = Seq::new(k, |i: int| Seq::<char>::empty());
        assert(toks == seq![t] + mids + rest);
        assert(toks.len() == 1 + k + rest.len());
        assert(rest[0] == tn);
        assert(tn.len() > 0);
        assert forall|i: int| 1 <= i < 1 + k implies toks[i].len() == 0 by {
            assert(toks[i] == mids[i - 1]);
        }
        assert(toks[1 + k as int] == rest[0]);
        crate::widths::lemma_empty_run_exact(toks, 1, k as int);
        assert(empty_run(toks, 1) == k);
        assert(group_width(toks, 0, tab) == vstd::math::min(u + k, usize::MAX as int));
        assert(u + k == s.widths@[b]);
        assert(group_width(toks, 0, tab) == s.widths@[b] as int);
        let more = 0 + 1 + k < toks.len();
        assert(more);
        let rec = reconcile(ws, ws.len() as int, s.widths@[b] as int, true);
        assert(rec == (ws.push(s.widths@[b]), ws.len() as int + 1));
        let next = vstd::math::min(1 + k as int, toks.len() as int);
        assert(next == 1 + k);
        crate::widths::lemma_line_infer_shift(rec.0, toks, 1 + k as int, 1 + k as int, ws.len() as int + 1, tab);
        assert(toks.skip(1 + k as int) =~= rest);
        lemma_infer_row_append(s, r, b + 1, rec.0);
        assert(ws.push(s.widths@[b]) + group_widths_from(s, r, b + 1) =~= ws + (seq![
            s.widths@[b],
        ] + group_widths_from(s, r, b + 1)));
    }
}

/// Inferring over a fully occupied row's stream against a width vector
/// that already matches every inner column leaves those columns alone and
/// raises the last column to cover the row's final cell.
pub proof fn lemma_infer_row_match(s: Sheet, r: int, b: int, ws: Seq<usize>)
    requires
        canonical(s),
        fully_occupied(s),
        0 <= r < s.size.1,
        0 <= b < s.size.0,
        ws.len() == s.size.0,
        forall|i: int| 0 <= i < s.size.0 - 1 ==> ws[i] == s.widths@[i],
    ensures
        ({
            let t = s.cell_at(b, r);
            let k = (s.widths@[b] as int - unit_of(t, s.tab_size as int)) as nat;
            let ul = unit_of(s.cell_at(s.size.0 - 1, r), s.tab_size as int);
            line_infer(ws, stream(s, r, b + 1, (1 + k) as nat, t), 0, b, s.tab_size as int)
                == ws.update(
                s.size.0 - 1,
                vstd::math::max(ws[s.size.0 - 1] as int, ul) as usize,
            )
        }),
    decreases s.size.0 - b,
{
    let tab = s.tab_size as int;
    let lastc = s.size.0 - 1;
    let t = s.cell_at(b, r);
    assert(s.has_cell(b, r));
    let u = unit_of(t, tab);
    assert(u <= s.widths@[b]);
    assert(t.len() > 0);
    let k = (s.widths@[b] as int - u) as nat;
    let toks = stream(s, r, b + 1, (1 + k) as nat, t);
    if b == lastc {
        assert(toks == seq![t]);
        assert(empty_run(toks, 1) == 0);
        assert(group_width(toks, 0, tab) == u);
        let rec = reconcile(ws, b, u, false);
        let p0 = ws[b] as int;
        if u == p0 {
            assert(rec == (ws, b + 1));
            assert(ws.update(lastc, vstd::math::max(p0, u) as usize) =~= ws);
        } else if u > p0 {
            assert(b == ws.len() - 1);
            assert(rec == (ws.update(b, u as usize), b + 1));
        } else {
            assert(rec == (ws, b + 1));
            assert(ws.update(lastc, vstd::math::max(p0, u) as usize) =~= ws);
        }
        assert(line_infer(rec.0, toks, 1, b + 1, tab) == rec.0);
    } else {
        let tn = s.cell_at(b + 1, r);
        assert(s.has_cell(b + 1, r));
        let un = unit_of(tn, tab);
        let kn = (s.widths@[b + 1] as int - un) as nat;
        let rest = stream(s, r, b + 2, (1 + kn) as nat, tn);
        lemma_stream_head(s, r, b + 2, (1 + kn) as nat, tn);
        let mids = Seq::new(k, |i: int| Seq::<char>::empty());
        assert(toks == seq![t] + mids + rest);
        assert(rest[0] == tn);
        assert(tn.len() > 0);
        assert forall|i: int| 1 <= i < 1 + k implies toks[i].len() == 0 by {
            assert(toks[i] == mids[i - 1]);
        }
        assert(toks[1 + k as int] == rest[0]);
        crate::widths::lemma_empty_run_exact(toks, 1, k as int);
        assert(group_width(toks, 0, tab) == vstd::math::min(u + k, usize::MAX as int));
        assert(u + k == s.widths@[b]);
        let more: bool = (1 + k as int) < toks.len();
        assert(more);
        let rec = reconcile(ws, b, s.widths@[b] as int, true);
        assert(ws[b] == s.widths@[b]);
        assert(rec == (ws, b + 1));
        crate::widths::lemma_line_infer_shift(ws, toks, 1 + k as int, 1 + k as int, b + 1, tab);
        assert(toks.skip(1 + k as int) =~= rest);
        lemma_infer_row_match(s, r, b + 1, ws);
    }
}

/// The first row's group widths: the sheet's widths with the last column
/// narrowed to that row's final cell.
pub proof fn lemma_group_widths_shape(s: Sheet, r: int, b: int)
    requires
        0 <= b < s.size.0,
    ensures
        group_widths_from(s, r, b).len() == s.size.0 - b,
        forall|j: int|
            b <= j < s.size.0 - 1 ==> #[trigger] group_widths_from(s, r, b)[j - b]
                == s.widths@[j],
        group_widths_from(s, r, b).last() == unit_of(
            s.cell_at(s.size.0 - 1, r),
            s.tab_size as int,
        ) as usize,
    decreases s.size.0 - b,
{
    if b < s.size.0 - 1 {
        lemma_group_widths_shape(s, r, b + 1);
        let g = group_widths_from(s, r, b);
        let gn = group_widths_from(s, r, b + 1);
        assert(g == seq![s.widths@[b]] + gn);
        assert forall|j: int| b <= j < s.size.0 - 1 implies #[trigger] g[j - b]
            == s.widths@[j] by {
            if j == b {
                assert(g[0] == s.widths@[b]);
            } else {
                assert(g[j - b] == gn[j - b - 1]);
                assert(gn[j - (b + 1)] == s.widths@[j]);
            }
        }
        assert(g.last() == gn.last());
    }
}

/// Folding the remaining lines of a fully occupied sheet's serialized
/// text only raises the last column to the widest remaining final cell.
pub proof fn lemma_infer_rows(s: Sheet, k: int, tl: Seq<Seq<Seq<char>>>)
    requires
        canonical(s),
        fully_occupied(s),
        1 <= k <= s.size.1,
        tl.len() == s.size.1,
        forall|r: int|
            0 <= r < s.size.1 ==> #[trigger] tl[r] == stream(s, r, 0, 0, Seq::empty()),
    ensures
        ({
            let lastc = s.size.0 - 1;
            infer_lines(
                tl,
                k,
                s.widths@.update(lastc, umax_upto(s, lastc, k) as usize),
                s.tab_size as int,
            ) == s.widths@.update(lastc, umax_upto(s, lastc, s.size.1 as int) as usize)
        }),
    decreases s.size.1 - k,
{
    let tab = s.tab_size as int;
    let lastc = s.size.0 - 1;
    let wsk = s.widths@.update(lastc, umax_upto(s, lastc, k) as usize);
    if k >= s.size.1 {
    } else {
        let t0 = s.cell_at(0, k);
        assert(s.has_cell(0, k));
        let u0 = unit_of(t0, tab);
        let k0 = (s.widths@[0] as int - u0) as nat;
        assert(t0.len() > 0);
        assert(u0 <= s.widths@[0]);
        assert(Seq::<char>::empty() + t0 =~= t0);
        assert(tl[k] == stream(s, k, 1, (1 + k0) as nat, t0));
        lemma_infer_row_match(s, k, 0, wsk);
        lemma_umax_pos(s, lastc, k);
        lemma_umax_pos(s, lastc, k + 1);
        assert(wsk[lastc] as int == umax_upto(s, lastc, k));
        assert(line_infer(wsk, tl[k], 0, 0, tab) == wsk.update(
            lastc,
            vstd::math::max(umax_upto(s, lastc, k), unit_of(s.cell_at(lastc, k), tab)) as usize,
        ));
        assert(umax_upto(s, lastc, k + 1) == vstd::math::max(
            umax_upto(s, lastc, k),
            unit_of(s.cell_at(lastc, k), tab),
        ));
        assert(wsk.update(
            lastc,
            vstd::math::max(umax_upto(s, lastc, k), unit_of(s.cell_at(lastc, k), tab)) as usize,
        ) =~= s.widths@.update(lastc, umax_upto(s, lastc, k + 1) as usize));
        lemma_infer_rows(s, k + 1, tl);
    }
}

/// The widest final cell over at least one row is at least one unit.
pub proof fn lemma_umax_pos(s: Sheet, c: int, r: int)
    requires
        canonical(s),
        fully_occupied(s),
        0 <= c < s.size.0,
        1 <= r <= s.size.1,
    ensures
        1 <= umax_upto(s, c, r) <= usize::MAX as int,
    decreases r,
{
    assert(s.has_cell(c, r - 1));
    assert(s.cell_at(c, r - 1).len() > 0);
    if r > 1 {
        lemma_umax_pos(s, c, r - 1);
    }
}

/// The serialized text splits into one token line per row, and each is
/// exactly the row's token stream.
pub proof fn lemma_token_lines_are_streams(s: Sheet)
    requires
        canonical(s),
    ensures
        lines_of(s.sheet_chars(0)).len() == s.size.1,
        token_lines_of(s.sheet_chars(0)).len() == s.size.1,
        forall|r: int|
            0 <= r < s.size.1 ==> #[trigger] token_lines_of(s.sheet_chars(0))[r] == stream(
                s,
                r,
                0,
                0,
                Seq::empty(),
            ),
{
    let text = s.sheet_chars(0);
    lemma_sheet_chars_shape(s, 0);
    lemma_split_rows(s, 0, Seq::empty());
    assert(lines_of(text) == split_from(text.take(text.len() - 1), '\n', Seq::empty()));
    assert(Seq::<char>::empty() + s.line_chars(0, 0, 0) =~= s.line_chars(0, 0, 0));
    assert(lines_of(text) =~= rows_chars(s, 0));
    if s.size.1 > 1 {
        lemma_rows_chars_index(s, 1, 1);
    } else {
        assert(rows_chars(s, 1) =~= Seq::<Seq<char>>::empty());
    }
    assert(lines_of(text).len() == s.size.1);
    assert forall|r: int| 0 <= r < s.size.1 implies #[trigger] token_lines_of(text)[r] == stream(
        s,
        r,
        0,
        0,
        Seq::empty(),
    ) by {
        lemma_rows_chars_index(s, 0, r);
        assert(lines_of(text)[r] == s.line_chars(r, 0, 0));
        assert(token_lines_of(text)[r] == split_at_sep(s.line_chars(r, 0, 0), '\t'));
        lemma_split_line(s, r, 0, 0, Seq::empty());
    }
}

/// The width-inference half of the round trip: from the serialized text
/// of a canonical, fully occupied sheet, the inference recovers every
/// column width except the last, which narrows to the column's widest
/// cell — the trailing padding is the one loss.
pub proof fn lemma_infer_serialized(s: Sheet)
    requires
        canonical(s),
        fully_occupied(s),
    ensures
        infer_widths(token_lines_of(s.sheet_chars(0)), s.tab_size as int) == s.widths@.update(
            s.size.0 - 1,
            umax_upto(s, s.size.0 - 1, s.size.1 as int) as usize,
        ),
{
    let tab = s.tab_size as int;
    let tl = token_lines_of(s.sheet_chars(0));
    let lastc = s.size.0 - 1;
    lemma_token_lines_are_streams(s);
    let t0 = s.cell_at(0, 0);
    assert(s.has_cell(0, 0));
    let u0 = unit_of(t0, tab);
    let k0 = (s.widths@[0] as int - u0) as nat;
    assert(t0.len() > 0);
    assert(u0 <= s.widths@[0]);
    assert(Seq::<char>::empty() + t0 =~= t0);
    assert(tl[0] == stream(s, 0, 1, (1 + k0) as nat, t0));
    lemma_infer_row_append(s, 0, 0, Seq::empty());
    assert(line_infer(Seq::empty(), tl[0], 0, 0, tab) == Seq::<usize>::empty()
        + group_widths_from(s, 0, 0));
    lemma_group_widths_shape(s, 0, 0);
    assert(s.has_cell(lastc, 0));
    assert(s.cell_at(lastc, 0).len() > 0);
    assert(umax_upto(s, lastc, 0) == 0);
    assert(umax_upto(s, lastc, 1) == vstd::math::max(0, unit_of(s.cell_at(lastc, 0), tab)));
    let gplus = Seq::<usize>::empty() + group_widths_from(s, 0, 0);
    let target = s.widths@.update(lastc, umax_upto(s, lastc, 1) as usize);
    assert forall|j: int| 0 <= j < s.size.0 implies gplus[j] == target[j] by {
        assert(gplus[j] == group_widths_from(s, 0, 0)[j]);
        if j < lastc {
            assert(group_widths_from(s, 0, 0)[j - 0] == s.widths@[j]);
        } else {
            assert(group_widths_from(s, 0, 0)[j] == group_widths_from(s, 0, 0).last());
        }
    }
    assert(gplus =~= target);
    assert(infer_widths(tl, tab) == infer_lines(tl, 0, Seq::empty(), tab));
    assert(infer_lines(tl, 0, Seq::empty(), tab) == infer_lines(
        tl,
        1,
        line_infer(Seq::empty(), tl[0], 0, 0, tab),
        tab,
    ));
    lemma_infer_rows(s, 1, tl);
}

/// When the last column is exactly as wide as its widest cell, the
/// inference recovers the widths exactly.
pub proof fn lemma_round_trip_widths(s: Sheet)
    requires
        canonical(s),
        fully_occupied(s),
        s.widths@[s.size.0 - 1] as int == umax_upto(s, s.size.0 - 1, s.size.1 as int),
    ensures
        infer_widths(token_lines_of(s.sheet_chars(0)), s.tab_size as int) == s.widths@,
{
    lemma_infer_serialized(s);
    assert(s.widths@.update(s.size.0 - 1, umax_upto(s, s.size.0 - 1, s.size.1 as int) as usize)
        =~= s.widths@);
}

/// The entry triples list exactly the occupied cells with their contents.
pub proof fn lemma_units_view_cells(z: Sheet)
    requires
        z.keys_distinct(),
    ensures
        forall|c: int, r: int|
            #[trigger] z.has_cell(c, r) <==> (exists|i: int|
                0 <= i < z.units_view().len() && (#[trigger] z.units_view()[i]).0 == c
                    && z.units_view()[i].1 == r),
        forall|i: int|
            0 <= i < z.units_view().len() ==> z.has_cell(
                (#[trigger] z.units_view()[i]).0,
                z.units_view()[i].1,
            ) && z.units_view()[i].2 == z.cell_at(z.units_view()[i].0, z.units_view()[i].1),
{
    let uv = z.units_view();
    assert(uv.len() == z.units@.len());
    assert forall|c: int, r: int| #[trigger] z.has_cell(c, r) implies (exists|i: int|
        0 <= i < uv.len() && (#[trigger] uv[i]).0 == c && uv[i].1 == r) by {
        let i = choose|i: int| 0 <= i < z.units@.len() && #[trigger] key_of(z.units@[i]) == (c, r);
        assert(uv[i].0 == c && uv[i].1 == r);
    }
    assert forall|c: int, r: int|
        (exists|i: int| 0 <= i < uv.len() && (#[trigger] uv[i]).0 == c && uv[i].1 == r) implies
        z.has_cell(c, r) by {
        let i = choose|i: int| 0 <= i < uv.len() && (#[trigger] uv[i]).0 == c && uv[i].1 == r;
        assert(key_of(z.units@[i]) == (c, r));
    }
    assert forall|i: int| 0 <= i < uv.len() implies z.has_cell(
        (#[trigger] uv[i]).0,
        uv[i].1,
    ) && uv[i].2 == z.cell_at(uv[i].0, uv[i].1) by {
        assert(key_of(z.units@[i]) == (uv[i].0, uv[i].1));
        let m = choose|m: int|
            0 <= m < z.units@.len() && #[trigger] key_of(z.units@[m]) == (uv[i].0, uv[i].1);
        assert(m == i);
    }
}

/// Whether a (column, row, content) triple occurs in a cell list.
pub open spec fn has_triple(ps: Seq<(int, int, Seq<char>)>, c: int, r: int, v: Seq<char>) -> bool {
    exists|k: int| 0 <= k < ps.len() && (#[trigger] ps[k]) == (c, r, v)
}

/// A triple lies in the laid-out cells of rows `a` and beyond exactly
/// when it is an occupied cell of such a row with its content.
pub proof fn lemma_all_pts_mem(s: Sheet, pws: Seq<usize>, tl: Seq<Seq<Seq<char>>>, a: int)
    requires
        canonical(s),
        0 <= a <= tl.len(),
        tl.len() == s.size.1,
        forall|r: int|
            a <= r < tl.len() ==> place_pts(#[trigger] tl[r], pws, 0, s.tab_size as int)
                == rest_pts(s, r, 0),
    ensures
        forall|c: int, r: int, v: Seq<char>|
            #[trigger] has_triple(all_pts(tl, pws, s.tab_size as int, a), c, r, v) <==> (a <= r
                < s.size.1 && s.has_cell(c, r) && v == s.cell_at(c, r)),
    decreases tl.len() - a,
{
    let ws = pws;
    let tab = s.tab_size as int;
    let whole = all_pts(tl, ws, tab, a);
    lemma_rest_pts_complete(s, a, 0);
    if a >= tl.len() {
        assert(whole =~= Seq::<(int, int, Seq<char>)>::empty());
    } else {
        lemma_all_pts_mem(s, pws, tl, a + 1);
        let row = row_pts(tl[a], ws, a, tab);
        let rp = rest_pts(s, a, 0);
        assert(place_pts(tl[a], ws, 0, tab) == rp);
        assert(row.len() == rp.len());
        let tail = all_pts(tl, ws, tab, a + 1);
        assert(whole == row + tail);
        assert forall|c: int, r: int, v: Seq<char>|
            #[trigger] has_triple(whole, c, r, v) implies (a <= r < s.size.1 && s.has_cell(c, r)
            && v == s.cell_at(c, r)) by {
            let k = choose|k: int| 0 <= k < whole.len() && (#[trigger] whole[k]) == (c, r, v);
            if k < row.len() {
                assert(whole[k] == row[k]);
                assert(row[k] == (rp[k].0, a, rp[k].1));
                assert(rp[k] == (c, v));
                assert(s.has_cell(rp[k].0, a) && rp[k].1 == s.cell_at(rp[k].0, a));
            } else {
                assert(whole[k] == tail[k - row.len()]);
                assert(has_triple(tail, c, r, v));
            }
        }
        assert forall|c: int, r: int, v: Seq<char>|
            (a <= r < s.size.1 && s.has_cell(c, r) && v == s.cell_at(c, r)) implies #[trigger] has_triple(
            whole,
            c,
            r,
            v,
        ) by {
            if r == a {
                let k2 = choose|k2: int| 0 <= k2 < rp.len() && rp[k2] == (c, s.cell_at(c, a));
                assert(row[k2] == (rp[k2].0, a, rp[k2].1));
                assert(whole[k2] == (c, r, v));
            } else {
                assert(has_triple(tail, c, r, v));
                let k2 = choose|k2: int|
                    0 <= k2 < tail.len() && (#[trigger] tail[k2]) == (c, r, v);
                assert(whole[row.len() + k2] == (c, r, v));
            }
        }
    }
}

/// In a fully occupied sheet, a column's widest cell never exceeds the
/// column's width.
pub proof fn lemma_umax_le(s: Sheet, c: int, r: int)
    requires
        canonical(s),
        fully_occupied(s),
        0 <= c < s.size.0,
        0 <= r <= s.size.1,
    ensures
        umax_upto(s, c, r) <= s.widths@[c],
    decreases r,
{
    if r > 0 {
        lemma_umax_le(s, c, r - 1);
        assert(s.has_cell(c, r - 1));
        assert(unit_of(s.cell_at(c, r - 1), s.tab_size as int) <= s.widths@[c]);
    }
}

/// The round-trip law: loading the serialized text of a canonical, fully
/// occupied sheet yields a sheet of the same size whose `cell_at` agrees
/// on every cell. The widths come back unchanged except the last column,
/// which narrows to its widest cell — trailing padding is the one
/// documented loss of the round trip.
pub proof fn lemma_round_trip(s: Sheet, s2: Sheet)
    requires
        canonical(s),
        fully_occupied(s),
        loads(s2, s.sheet_chars(0), s.tab_size as int),
    ensures
        s2.size == s.size,
        s2.widths@ == s.widths@.update(
            s.size.0 - 1,
            umax_upto(s, s.size.0 - 1, s.size.1 as int) as usize,
        ),
        forall|c: int, r: int| #[trigger] s2.has_cell(c, r) <==> s.has_cell(c, r),
        forall|c: int, r: int|
            #[trigger] s.has_cell(c, r) ==> s2.cell_at(c, r) == s.cell_at(c, r),
{
    let tab = s.tab_size as int;
    let lastc = s.size.0 - 1;
    let text = s.sheet_chars(0);
    let tl = token_lines_of(text);
    let pws = s.widths@.update(lastc, umax_upto(s, lastc, s.size.1 as int) as usize);
    lemma_sheet_chars_shape(s, 0);
    lemma_infer_serialized(s);
    lemma_umax_pos(s, lastc, s.size.1 as int);
    lemma_umax_le(s, lastc, s.size.1 as int);
    crate::widths::lemma_wsum_update(s.widths@, lastc, umax_upto(s, lastc, s.size.1 as int) as usize);
    assert(wsum(pws) < usize::MAX as int);
    lemma_place_rows(s, pws);
    lemma_token_lines_are_streams(s);
    assert(text.len() > 0);
    assert(s2.widths@ == pws);
    assert(s2.size.0 == s.size.0);
    assert(s2.size.1 == s.size.1);
    assert(s2.units_view() == all_pts(tl, pws, tab, 0));
    assert forall|r: int|
        0 <= r < tl.len() implies place_pts(#[trigger] tl[r], pws, 0, tab) == rest_pts(
        s,
        r,
        0,
    ) by {}
    lemma_all_pts_mem(s, pws, tl, 0);
    lemma_units_view_cells(s2);
    let uv = s2.units_view();
    assert forall|c: int, r: int| #[trigger] s2.has_cell(c, r) implies s.has_cell(c, r) by {
        let i = choose|i: int|
            0 <= i < uv.len() && (#[trigger] uv[i]).0 == c && uv[i].1 == r;
        assert(uv[i] == (c, r, uv[i].2));
        assert(has_triple(uv, c, r, uv[i].2));
    }
    assert forall|c: int, r: int| #[trigger] s.has_cell(c, r) implies s2.has_cell(c, r)
        && s2.cell_at(c, r) == s.cell_at(c, r) by {
        assert(0 <= r < s.size.1) by {
            let i = choose|i: int|
                0 <= i < s.units@.len() && #[trigger] key_of(s.units@[i]) == (c, r);
        }
        let v = s.cell_at(c, r);
        assert(has_triple(uv, c, r, v));
        let k = choose|k: int| 0 <= k < uv.len() && (#[trigger] uv[k]) == (c, r, v);
        assert(uv[k].0 == c && uv[k].1 == r);
        assert(uv[k].2 == s2.cell_at(c, r));
    }
}

/// Removing the entry at position `i` removes exactly its key from the
/// occupied set and keeps every other cell's content.
pub proof fn lemma_remove_entry(es: Seq<Entry>, i: int)
    requires
        0 <= i < es.len(),
        entries_distinct(es),
    ensures
        entries_distinct(es.remove(i)),
        forall|c: int, r: int|
            has_key(es.remove(i), c, r) <==> (#[trigger] has_key(es, c, r) && (c, r) != key_of(
                es[i],
            )),
        forall|c: int, r: int|
            has_key(es.remove(i), c, r) ==> #[trigger] val_at(es.remove(i), c, r) == val_at(
                es,
                c,
                r,
            ),
{
    let ns = es.remove(i);
    assert forall|a: int, b: int| 0 <= a < b < ns.len() implies key_of(ns[a]) != key_of(
        ns[b],
    ) by {
        let a0 = if a < i { a } else { a + 1 };
        let b0 = if b < i { b } else { b + 1 };
        assert(ns[a] == es[a0]);
        assert(ns[b] == es[b0]);
    }
    assert forall|c: int, r: int|
        has_key(ns, c, r) implies (has_key(es, c, r) && (c, r) != key_of(es[i])) by {
        let k = choose|k: int| 0 <= k < ns.len() && #[trigger] key_of(ns[k]) == (c, r);
        let k0 = if k < i { k } else { k + 1 };
        assert(ns[k] == es[k0]);
        assert(key_of(es[k0]) == (c, r));
    }
    assert forall|c: int, r: int|
        has_key(es, c, r) && (c, r) != key_of(es[i]) implies has_key(ns, c, r) by {
        let k = choose|k: int| 0 <= k < es.len() && #[trigger] key_of(es[k]) == (c, r);
        let k1 = if k < i { k } else { k - 1 };
        assert(ns[k1] == es[k]);
        assert(key_of(ns[k1]) == (c, r));
    }
    assert forall|c: int, r: int| has_key(ns, c, r) implies #[trigger] val_at(ns, c, r) == val_at(
        es,
        c,
        r,
    ) by {
        let k = choose|k: int| 0 <= k < ns.len() && #[trigger] key_of(ns[k]) == (c, r);
        let k0 = if k < i { k } else { k + 1 };
        assert(ns[k] == es[k0]);
        let m = choose|m: int| 0 <= m < es.len() && #[trigger] key_of(es[m]) == (c, r);
        assert(m == k0);
    }
}

/// Pushing an entry with a fresh key adds exactly that cell.
pub proof fn lemma_push_entry(es: Seq<Entry>, e: Entry)
    requires
        entries_distinct(es),
        !has_key(es, e.col as int, e.row as int),
    ensures
        entries_distinct(es.push(e)),
        forall|c: int, r: int|
            has_key(es.push(e), c, r) <==> (#[trigger] has_key(es, c, r) || (c, r) == key_of(e)),
        val_at(es.push(e), e.col as int, e.row as int) == e.unit.content@,
        forall|c: int, r: int|
            has_key(es, c, r) && (c, r) != key_of(e) ==> #[trigger] val_at(es.push(e), c, r)
                == val_at(es, c, r),
{
    let ns = es.push(e);
    assert(ns[es.len() as int] == e);
    assert forall|a: int, b: int| 0 <= a < b < ns.len() implies key_of(ns[a]) != key_of(
        ns[b],
    ) by {
        if b < es.len() {
            assert(ns[a] == es[a] && ns[b] == es[b]);
        } else {
            assert(ns[b] == e);
            assert(ns[a] == es[a]);
            assert(key_of(es[a]) != key_of(e)) by {
                if key_of(es[a]) == key_of(e) {
                    assert(has_key(es, e.col as int, e.row as int));
                }
            }
        }
    }
    assert forall|c: int, r: int|
        has_key(ns, c, r) implies (has_key(es, c, r) || (c, r) == key_of(e)) by {
        let k = choose|k: int| 0 <= k < ns.len() && #[trigger] key_of(ns[k]) == (c, r);
        if k < es.len() {
            assert(ns[k] == es[k]);
            assert(key_of(es[k]) == (c, r));
        }
    }
    assert forall|c: int, r: int|
        (has_key(es, c, r) || (c, r) == key_of(e)) implies has_key(ns, c, r) by {
        if has_key(es, c, r) {
            let k = choose|k: int| 0 <= k < es.len() && #[trigger] key_of(es[k]) == (c, r);
            assert(ns[k] == es[k]);
            assert(key_of(ns[k]) == (c, r));
        } else {
            assert(key_of(ns[es.len() as int]) == (c, r));
        }
    }
    assert forall|c: int, r: int|
        has_key(es, c, r) && (c, r) != key_of(e) implies #[trigger] val_at(ns, c, r) == val_at(
        es,
        c,
        r,
    ) by {
        let k = choose|k: int| 0 <= k < ns.len() && #[trigger] key_of(ns[k]) == (c, r);
        assert(k < es.len());
        assert(ns[k] == es[k]);
        let m = choose|m: int| 0 <= m < es.len() && #[trigger] key_of(es[m]) == (c, r);
        assert(m == k);
    }
    assert(val_at(ns, e.col as int, e.row as int) == e.unit.content@) by {
        let k = choose|k: int|
            0 <= k < ns.len() && #[trigger] key_of(ns[k]) == (e.col as int, e.row as int);
        if k < es.len() {
            assert(ns[k] == es[k]);
            assert(has_key(es, e.col as int, e.row as int));
        }
        assert(k == es.len());
    }
}

/// A sparse grid of text cells. `size` is one past the highest occupied
/// index on each axis (at least one on each). `widths` holds each column's
/// width in tab-stop units; `accum_widths` holds its prefix sums.
pub struct Sheet {
    pub units: Vec<Entry>,
    pub size: (usize, usize),
    pub tab_size: usize,
    pub widths: Vec<usize>,
    pub accum_widths: Vec<usize>,
}

impl Sheet {
    /// Whether the grid holds a cell at column `c`, row `r`.
    pub open spec fn has_cell(self, c: int, r: int) -> bool {
        has_key(self.units@, c, r)
    }

    /// The content of the cell at column `c`, row `r`.
    pub open spec fn cell_at(self, c: int, r: int) -> Seq<char> {
        val_at(self.units@, c, r)
    }

    /// The occupied cells as a sequence of (column, row, content) triples,
    /// in storage order.
    pub open spec fn units_view(self) -> Seq<(int, int, Seq<char>)> {
        entries_view(self.units@)
    }

    /// No two entries share a coordinate pair.
    pub open spec fn keys_distinct(self) -> bool {
        entries_distinct(self.units@)
    }

    /// The sheet's invariant: a tab size of at least one; a size of at
    /// least one on each axis; one width of at least one unit per column;
    /// `accum_widths[i]` equal to the sum of the first `i` widths, with the
    /// total below `usize::MAX`; distinct cell coordinates, all within
    /// `size`.
    pub open spec fn wf(self) -> bool {
        &&& self.tab_size >= 1
        &&& self.size.0 >= 1
        &&& self.size.1 >= 1
        &&& self.widths@.len() == self.size.0
        &&& self.accum_widths@.len() == self.widths@.len() + 1
        &&& forall|i: int|
            0 <= i <= self.widths@.len() ==> #[trigger] self.accum_widths@[i] as int == wsum(
                self.widths@.take(i),
            )
        &&& forall|i: int| 0 <= i < self.widths@.len() ==> #[trigger] self.widths@[i] >= 1
        &&& wsum(self.widths@) < usize::MAX as int
        &&& self.keys_distinct()
        &&& forall|i: int|
            0 <= i < self.units@.len() ==> (#[trigger] self.units@[i]).col < self.size.0
                && self.units@[i].row < self.size.1
    }

    /// A fresh sheet: one empty 1-by-1 grid, tab size eight.
    pub fn new() -> (s: Sheet)
        ensures
            s.wf(),
            s.size == (1usize, 1usize),
            s.tab_size == 8,
            s.units@.len() == 0,
            forall|c: int, r: int| !s.has_cell(c, r),
            s.widths@ =~= seq![1usize],
    {
        Sheet::from(Config::new())
    }

    /// A fresh empty sheet with the configured tab size.
    pub fn from(config: Config) -> (s: Sheet)
        requires
            config.tab_size >= 1,
        ensures
            s.wf(),
            s.size == (1usize, 1usize),
            s.tab_size == config.tab_size,
            s.units@.len() == 0,
            forall|c: int, r: int| !s.has_cell(c, r),
            s.widths@ =~= seq![1usize],
    {
        let mut widths: Vec<usize> = Vec::new();
        widths.push(1);
        let mut accum_widths: Vec<usize> = Vec::new();
        accum_widths.push(0);
        accum_widths.push(1);
        let s = Sheet { units: Vec::new(), size: (1, 1), tab_size: config.tab_size, widths, accum_widths };
        proof {
            assert(s.widths@ =~= seq![1usize]);
            assert(s.accum_widths@ =~= seq![0usize, 1usize]);
            lemma_fresh_wf(s);
        }
        s
    }

    /// The tab size.
    pub fn tab_size(&self) -> (t: usize)
        ensures
            t == self.tab_size,
    {
        self.tab_size
    }

    /// The logical size, as (columns, rows).
    pub fn size(&self) -> (sz: (usize, usize))
        ensures
            sz == self.size,
    {
        self.size
    }

    /// The width of column `index`, in tab-stop units, or none when
    /// `index` is out of range.
    pub fn width_at(&self, index: usize) -> (w: Option<&usize>)
        ensures
            index < self.widths@.len() ==> (w matches Some(v) && *v == self.widths@[index as int]),
            index >= self.widths@.len() ==> w is None,
    {
        if index < self.widths.len() {
            Some(&self.widths[index])
        } else {
            None
        }
    }

    /// The accumulated width before column `index`, in tab-stop units, or
    /// none when `index` is out of range.
    pub fn accum_width_at(&self, index: usize) -> (w: Option<&usize>)
        ensures
            index < self.accum_widths@.len() ==> (w matches Some(v) && *v
                == self.accum_widths@[index as int]),
            index >= self.accum_widths@.len() ==> w is None,
    {
        if index < self.accum_widths.len() {
            Some(&self.accum_widths[index])
        } else {
            None
        }
    }

    /// The index of the entry at `(c, r)`, if any.
    fn find_cell(&self, c: usize, r: usize) -> (found: Option<usize>)
        requires
            self.keys_distinct(),
        ensures
            match found {
                Some(i) => i < self.units@.len() && key_of(self.units@[i as int]) == (
                    c as int,
                    r as int,
                ) && self.has_cell(c as int, r as int) && self.units@[i as int].unit.content@
                    == self.cell_at(c as int, r as int),
                None => !self.has_cell(c as int, r as int),
            },
    {
        let mut i: usize = 0;
        while i < self.units.len()
            invariant
                i <= self.units@.len(),
                forall|k: int| 0 <= k < i ==> #[trigger] key_of(self.units@[k]) != (c as int, r as int),
            decreases self.units@.len() - i,
        {
            let e = &self.units[i];
            if e.col == c && e.row == r {
                proof {
                    let j = choose|j: int|
                        0 <= j < self.units@.len() && #[trigger] key_of(self.units@[j]) == (
                            c as int,
                            r as int,
                        );
                    assert(key_of(self.units@[i as int]) == (c as int, r as int));
                    assert(j == i);
                }
                return Some(i);
            }
            i = i + 1;
        }
        None
    }

    /// The content of the cell at `pos`, if one is present.
    pub fn content_at(&self, pos: (usize, usize)) -> (content: Option<&str>)
        requires
            self.keys_distinct(),
        ensures
            match content {
                Some(s) => self.has_cell(pos.0 as int, pos.1 as int) && s@ == self.cell_at(
                    pos.0 as int,
                    pos.1 as int,
                ),
                None => !self.has_cell(pos.0 as int, pos.1 as int),
            },
    {
        match self.find_cell(pos.0, pos.1) {
            Some(i) => Some(self.units[i].unit.content.as_str()),
            None => None,
        }
    }

    /// The screen position of `pos` relative to the viewport corner: the
    /// accumulated-width offset in terminal columns, and the row offset.
    pub fn get_display_pos(&self, pos: (usize, usize), corner: (usize, usize)) -> (d: (
        usize,
        usize,
    ))
        requires
            self.wf(),
            pos.0 < self.accum_widths@.len(),
            corner.0 < self.accum_widths@.len(),
            corner.0 <= pos.0,
            corner.1 <= pos.1,
            (self.accum_widths@[pos.0 as int] - self.accum_widths@[corner.0 as int])
                * self.tab_size <= usize::MAX,
        ensures
            d.0 == (self.accum_widths@[pos.0 as int] - self.accum_widths@[corner.0 as int])
                * self.tab_size,
            d.1 == pos.1 - corner.1,
    {
        proof {
            lemma_accum_monotone(*self, corner.0 as int, pos.0 as int);
        }
        ((self.accum_widths[pos.0] - self.accum_widths[corner.0]) * self.tab_size, pos.1 - corner.1)
    }

    /// Loads a sheet from tab-delimited text: infers the column widths
    /// from the tokenized lines, then lays each line's tokens into the
    /// grid. Empty text gives a fresh sheet, as does text whose inferred
    /// widths would not sum below `usize::MAX`.
    pub fn from_str(buf: &str, config: Config) -> (s: Sheet)
        requires
            config.tab_size >= 1,
        ensures
            loads(s, buf@, config.tab_size as int),
    {
        let chars = chars_of(buf);
        if chars.len() == 0 {
            return Sheet::from(config);
        }
        let token_lines = tokenize(&chars);
        let ghost tl: Seq<Seq<Seq<char>>> = token_lines_of(buf@);
        let ws = get_widths(&token_lines, config.tab_size);
        proof {
            lemma_split_len(buf@, '\n', Seq::empty());
            if buf@.last() == '\n' {
                lemma_split_len(buf@.take(buf@.len() - 1), '\n', Seq::empty());
            }
            assert(tl.len() >= 1);
            lemma_split_len(lines_of(buf@)[0], '\t', Seq::empty());
            assert(tl[0].len() >= 1);
            lemma_infer_lines_pos(tl, 0, Seq::empty(), config.tab_size as int);
        }
        let acc = match prefix_sums(&ws) {
            None => {
                return Sheet::from(config);
            },
            Some(acc) => acc,
        };
        let tab_size = config.tab_size;
        let ghost tab: int = tab_size as int;
        let ghost target: Seq<(int, int, Seq<char>)> = all_pts(tl, ws@, tab, 0);
        let mut units: Vec<Entry> = Vec::new();
        let mut r: usize = 0;
        while r < token_lines.len()
            invariant
                r <= token_lines@.len(),
                token_lines@.len() == tl.len(),
                token_lines.deep_view() == tl,
                tab == tab_size as int,
                tab >= 1,
                target == entries_view(units@) + all_pts(tl, ws@, tab, r as int),
                forall|k: int|
                    0 <= k < units@.len() ==> (#[trigger] units@[k]).row < r && units@[k].col
                        < ws@.len(),
                forall|i: int, j: int|
                    0 <= i < j < units@.len() ==> key_of(units@[i]) != key_of(units@[j]),
            decreases token_lines@.len() - r,
        {
            let toks = &token_lines[r];
            let ghost tseq: Seq<Seq<char>> = tl[r as int];
            proof {
                assert(toks.deep_view() == tseq);
            }
            let mut p: usize = 0;
            let mut col: usize = 0;
            proof {
                assert(tseq.skip(0) =~= tseq);
                assert(row_pts(tseq, ws@, r as int, tab) == place_pts(tseq, ws@, 0, tab)
                    .map_values(|q: (int, Seq<char>)| (q.0, r as int, q.1)));
            }
            while p < toks.len()
                invariant
                    p <= toks@.len(),
                    col <= p,
                    toks.deep_view() == tseq,
                    tab == tab_size as int,
                    tab >= 1,
                    r < tl.len(),
                    target == entries_view(units@) + place_pts(tseq.skip(p as int), ws@, col as int, tab)
                        .map_values(|q: (int, Seq<char>)| (q.0, r as int, q.1)) + all_pts(
                        tl,
                        ws@,
                        tab,
                        r + 1,
                    ),
                    forall|k: int|
                        0 <= k < units@.len() ==> ((#[trigger] units@[k]).row < r || (
                        units@[k].row == r && units@[k].col < col)) && units@[k].col < ws@.len(),
                    forall|i: int, j: int|
                        0 <= i < j < units@.len() ==> key_of(units@[i]) != key_of(units@[j]),
                decreases toks@.len() - p,
            {
                let ghost rem: Seq<Seq<char>> = tseq.skip(p as int);
                proof {
                    assert(toks@[p as int]@ =~= toks@[p as int].deep_view());
                    assert(toks@[p as int].deep_view() == tseq[p as int]);
                    assert(rem[0] == tseq[p as int]);
                }
                let t = &toks[p];
                if col < ws.len() {
                    let u = measure_width(t.as_str(), tab_size);
                    if !t.as_str().is_empty() {
                        let ghost units0 = units@;
                        units.push(Entry { col, row: r, unit: Unit { content: t.clone() } });
                        proof {
                            assert(entries_view(units@) =~= entries_view(units0).push(
                                (col as int, r as int, tseq[p as int]),
                            ));
                        }
                    }
                    let d: usize = if ws[col] > u {
                        ws[col] - u
                    } else {
                        0
                    };
                    let rem_n: usize = toks.len() - p;
                    let adv: usize = if d >= rem_n {
                        rem_n
                    } else {
                        d + 1
                    };
                    proof {
                        let skipn = vstd::math::max(ws@[col as int] as int - unit_of(tseq[p as int], tab), 0);
                        assert(d as int == skipn);
                        assert(adv as int == vstd::math::min(1 + skipn, rem.len() as int));
                        assert(rem.skip(adv as int) =~= tseq.skip(p + adv));
                        assert((seq![(col as int, tseq[p as int])] + place_pts(
                            rem.skip(adv as int),
                            ws@,
                            col + 1,
                            tab,
                        )).map_values(|q: (int, Seq<char>)| (q.0, r as int, q.1)) =~= seq![
                            (col as int, r as int, tseq[p as int]),
                        ] + place_pts(rem.skip(adv as int), ws@, col + 1, tab).map_values(
                            |q: (int, Seq<char>)| (q.0, r as int, q.1),
                        ));
                        assert(entries_view(units@) + seq![(col as int, r as int, tseq[p as int])]
                            =~= entries_view(units@).push((col as int, r as int, tseq[p as int])));
                    }
                    p = p + adv;
                } else {
                    proof {
                        assert(rem.skip(1) =~= tseq.skip(p + 1));
                    }
                    p = p + 1;
                }
                col = col + 1;
            }
            proof {
                assert(tseq.skip(p as int) =~= Seq::<Seq<char>>::empty());
                assert(place_pts(Seq::<Seq<char>>::empty(), ws@, col as int, tab).map_values(
                    |q: (int, Seq<char>)| (q.0, r as int, q.1),
                ) =~= Seq::<(int, int, Seq<char>)>::empty());
                assert(entries_view(units@) + Seq::<(int, int, Seq<char>)>::empty() + all_pts(
                    tl,
                    ws@,
                    tab,
                    r + 1,
                ) =~= entries_view(units@) + all_pts(tl, ws@, tab, r + 1));
            }
            r = r + 1;
        }
        proof {
            assert(all_pts(tl, ws@, tab, r as int) =~= Seq::<(int, int, Seq<char>)>::empty());
            assert(entries_view(units@) + Seq::<(int, int, Seq<char>)>::empty()
                =~= entries_view(units@));
        }
        let rows = token_lines.len();
        let cols = ws.len();
        let s = Sheet { units, size: (cols, rows), tab_size, widths: ws, accum_widths: acc };
        proof {
            assert(s.units_view() == target);
        }
        s
    }

    /// The largest unit width over `base` and the cells of column `c`,
    /// leaving aside a cell at row `skip_row`.
    fn col_max_with(&self, c: usize, skip_row: usize, base: usize) -> (m: usize)
        requires
            self.tab_size >= 1,
        ensures
            m as int == col_max_units(
                self.units@,
                c as int,
                (c as int, skip_row as int),
                self.tab_size as int,
                base as int,
            ),
            m >= base,
    {
        let mut m = base;
        let mut i: usize = 0;
        proof {
            assert(self.units@.take(0) =~= Seq::<Entry>::empty());
        }
        while i < self.units.len()
            invariant
                i <= self.units@.len(),
                m >= base,
                m as int == col_max_units(
                    self.units@.take(i as int),
                    c as int,
                    (c as int, skip_row as int),
                    self.tab_size as int,
                    base as int,
                ),
            decreases self.units@.len() - i,
        {
            let e = &self.units[i];
            proof {
                assert(self.units@.take(i + 1).drop_last() =~= self.units@.take(i as int));
                assert(self.units@.take(i + 1).last() == self.units@[i as int]);
            }
            if e.col == c && e.row != skip_row {
                let u = measure_width(e.unit.content.as_str(), self.tab_size);
                if u > m {
                    m = u;
                }
            }
            i = i + 1;
        }
        proof {
            assert(self.units@.take(i as int) =~= self.units@);
        }
        m
    }

    /// Removes column `index`, shifting every cell of a higher column down
    /// by one. The caller must have emptied the column first; the prefix
    /// sums are left stale and must be rebuilt afterwards.
    fn remove_col(&mut self, index: usize)
        requires
            old(self).widths@.len() == old(self).size.0,
            index < old(self).size.0,
            old(self).size.0 > 1,
            entries_distinct(old(self).units@),
            forall|k: int|
                0 <= k < old(self).units@.len() ==> (#[trigger] old(self).units@[k]).col != index
                    && old(self).units@[k].col < old(self).size.0,
        ensures
            final(self).size.0 == old(self).size.0 - 1,
            final(self).size.1 == old(self).size.1,
            final(self).tab_size == old(self).tab_size,
            final(self).accum_widths == old(self).accum_widths,
            final(self).widths@ == old(self).widths@.remove(index as int),
            entries_distinct(final(self).units@),
            final(self).units@.len() == old(self).units@.len(),
            forall|k: int|
                0 <= k < final(self).units@.len() ==> (#[trigger] final(self).units@[k]).row
                    == old(self).units@[k].row && final(self).units@[k].col < final(self).size.0,
            forall|c: int, r: int|
                #[trigger] has_key(final(self).units@, c, r) <==> has_key(
                    old(self).units@,
                    unshift(c, index as int, true),
                    r,
                ),
            forall|c: int, r: int|
                has_key(final(self).units@, c, r) ==> #[trigger] val_at(final(self).units@, c, r)
                    == val_at(old(self).units@, unshift(c, index as int, true), r),
    {
        let ghost oldu = self.units@;
        let mut nv: Vec<Entry> = Vec::new();
        let mut i: usize = 0;
        while i < self.units.len()
            invariant
                i <= self.units@.len(),
                self.units@ == oldu,
                nv@.len() == i,
                forall|k: int|
                    0 <= k < i ==> (#[trigger] nv@[k]).row == oldu[k].row
                        && nv@[k].unit.content@ == oldu[k].unit.content@ && nv@[k].col as int == (
                    if oldu[k].col > index {
                        oldu[k].col - 1
                    } else {
                        oldu[k].col as int
                    }),
            decreases self.units@.len() - i,
        {
            let e = &self.units[i];
            let nc: usize = if e.col > index {
                e.col - 1
            } else {
                e.col
            };
            nv.push(Entry { col: nc, row: e.row, unit: Unit { content: e.unit.content.clone() } });
            i = i + 1;
        }
        self.units = nv;
        self.widths.remove(index);
        self.size = (self.size.0 - 1, self.size.1);
        proof {
            let ns = self.units@;
            let cut = index as int;
            assert forall|a: int, b: int| 0 <= a < b < ns.len() implies key_of(ns[a]) != key_of(
                ns[b],
            ) by {
                if key_of(ns[a]) == key_of(ns[b]) {
                    assert(oldu[a].col != index && oldu[b].col != index);
                    assert(key_of(oldu[a]) == key_of(oldu[b]));
                }
            }
            assert forall|c: int, r: int| #[trigger]
                has_key(ns, c, r) implies has_key(oldu, unshift(c, cut, true), r) by {
                let k = choose|k: int| 0 <= k < ns.len() && #[trigger] key_of(ns[k]) == (c, r);
                assert(key_of(oldu[k]) == (unshift(c, cut, true), r));
            }
            assert forall|c: int, r: int|
                has_key(oldu, unshift(c, cut, true), r) implies #[trigger] has_key(ns, c, r) by {
                let k = choose|k: int|
                    0 <= k < oldu.len() && #[trigger] key_of(oldu[k]) == (unshift(c, cut, true), r);
                assert(key_of(ns[k]) == (c, r));
            }
            assert forall|c: int, r: int|
                has_key(ns, c, r) implies #[trigger] val_at(ns, c, r) == val_at(
                oldu,
                unshift(c, cut, true),
                r,
            ) by {
                let k = choose|k: int| 0 <= k < ns.len() && #[trigger] key_of(ns[k]) == (c, r);
                let m = choose|m: int|
                    0 <= m < oldu.len() && #[trigger] key_of(oldu[m]) == (unshift(c, cut, true), r);
                assert(key_of(oldu[k]) == (unshift(c, cut, true), r));
                assert(m == k);
            }
        }
    }

    /// Removes row `index`, shifting every cell of a higher row up by one.
    /// The caller must have emptied the row first. Widths and prefix sums
    /// are untouched.
    fn remove_row(&mut self, index: usize)
        requires
            index < old(self).size.1,
            old(self).size.1 > 1,
            entries_distinct(old(self).units@),
            forall|k: int|
                0 <= k < old(self).units@.len() ==> (#[trigger] old(self).units@[k]).row != index
                    && old(self).units@[k].row < old(self).size.1,
        ensures
            final(self).size.0 == old(self).size.0,
            final(self).size.1 == old(self).size.1 - 1,
            final(self).tab_size == old(self).tab_size,
            final(self).accum_widths == old(self).accum_widths,
            final(self).widths == old(self).widths,
            entries_distinct(final(self).units@),
            final(self).units@.len() == old(self).units@.len(),
            forall|k: int|
                0 <= k < final(self).units@.len() ==> (#[trigger] final(self).units@[k]).col
                    == old(self).units@[k].col && final(self).units@[k].row < final(self).size.1,
            forall|c: int, r: int|
                #[trigger] has_key(final(self).units@, c, r) <==> has_key(
                    old(self).units@,
                    c,
                    unshift(r, index as int, true),
                ),
            forall|c: int, r: int|
                has_key(final(self).units@, c, r) ==> #[trigger] val_at(final(self).units@, c, r)
                    == val_at(old(self).units@, c, unshift(r, index as int, true)),
    {
        let ghost oldu = self.units@;
        let mut nv: Vec<Entry> = Vec::new();
        let mut i: usize = 0;
        while i < self.units.len()
            invariant
                i <= self.units@.len(),
                self.units@ == oldu,
                nv@.len() == i,
                forall|k: int|
                    0 <= k < i ==> (#[trigger] nv@[k]).col == oldu[k].col
                        && nv@[k].unit.content@ == oldu[k].unit.content@ && nv@[k].row as int == (
                    if oldu[k].row > index {
                        oldu[k].row - 1
                    } else {
                        oldu[k].row as int
                    }),
            decreases self.units@.len() - i,
        {
            let e = &self.units[i];
            let nr: usize = if e.row > index {
                e.row - 1
            } else {
                e.row
            };
            nv.push(Entry { col: e.col, row: nr, unit: Unit { content: e.unit.content.clone() } });
            i = i + 1;
        }
        self.units = nv;
        self.size = (self.size.0, self.size.1 - 1);
        proof {
            let ns = self.units@;
            let cut = index as int;
            assert forall|a: int, b: int| 0 <= a < b < ns.len() implies key_of(ns[a]) != key_of(
                ns[b],
            ) by {
                if key_of(ns[a]) == key_of(ns[b]) {
                    assert(oldu[a].row != index && oldu[b].row != index);
                    assert(key_of(oldu[a]) == key_of(oldu[b]));
                }
            }
            assert forall|c: int, r: int| #[trigger]
                has_key(ns, c, r) implies has_key(oldu, c, unshift(r, cut, true)) by {
                let k = choose|k: int| 0 <= k < ns.len() && #[trigger] key_of(ns[k]) == (c, r);
                assert(key_of(oldu[k]) == (c, unshift(r, cut, true)));
            }
            assert forall|c: int, r: int|
                has_key(oldu, c, unshift(r, cut, true)) implies #[trigger] has_key(ns, c, r) by {
                let k = choose|k: int|
                    0 <= k < oldu.len() && #[trigger] key_of(oldu[k]) == (c, unshift(r, cut, true));
                assert(key_of(ns[k]) == (c, r));
            }
            assert forall|c: int, r: int|
                has_key(ns, c, r) implies #[trigger] val_at(ns, c, r) == val_at(
                oldu,
                c,
                unshift(r, cut, true),
            ) by {
                let k = choose|k: int| 0 <= k < ns.len() && #[trigger] key_of(ns[k]) == (c, r);
                let m = choose|m: int|
                    0 <= m < oldu.len() && #[trigger] key_of(oldu[m]) == (c, unshift(r, cut, true));
                assert(key_of(oldu[k]) == (c, unshift(r, cut, true)));
                assert(m == k);
            }
        }
    }

    /// Edits the cell at `pos`. Empty text removes the cell; a column or
    /// row that this leaves entirely empty is compacted away, the cells
    /// beyond it shifting down by one, so long as more than one column or
    /// row remains on that axis. Non-empty text is written into the cell,
    /// the grid grows to cover `pos`, and the column's width becomes the
    /// largest unit width over its cells. In the one case where the new
    /// widths would not sum below `usize::MAX`, the sheet is unchanged.
    #[verifier::rlimit(80)]
    pub fn edit(&mut self, pos: (usize, usize), buf: &str)
        requires
            old(self).wf(),
            pos.0 < usize::MAX,
            pos.1 < usize::MAX,
        ensures
            edited(*old(self), *final(self), pos, buf@),
    {
        let ghost pk: (int, int) = (pos.0 as int, pos.1 as int);
        if !buf.is_empty() {
            let u = measure_width(buf, self.tab_size);
            let m = self.col_max_with(pos.0, pos.1, u);
            let ghost nw_spec: Seq<usize> = upsert_widths(*self, pos, buf@);
            let ncols: usize = if pos.0 + 1 > self.widths.len() {
                pos.0 + 1
            } else {
                self.widths.len()
            };
            let mut nw: Vec<usize> = Vec::new();
            let mut i: usize = 0;
            while i < ncols
                invariant
                    i <= ncols,
                    nw@.len() == i,
                    ncols as int == nw_spec.len(),
                    forall|k: int| 0 <= k < i ==> nw@[k] == nw_spec[k],
                decreases ncols - i,
            {
                let v: usize = if i == pos.0 {
                    m
                } else if i < self.widths.len() {
                    self.widths[i]
                } else {
                    1
                };
                nw.push(v);
                i = i + 1;
            }
            proof {
                assert(nw@ =~= nw_spec);
            }
            match prefix_sums(&nw) {
                None => {
                },
                Some(acc) => {
                    let ghost u0 = self.units@;
                    match self.find_cell(pos.0, pos.1) {
                        Some(idx) => {
                            proof {
                                lemma_remove_entry(u0, idx as int);
                            }
                            self.units.remove(idx);
                        },
                        None => {
                        },
                    }
                    let ghost u1 = self.units@;
                    proof {
                        assert forall|k: int| 0 <= k < u1.len() implies (#[trigger] u1[k]).col
                            < old(self).size.0 && u1[k].row < old(self).size.1 by {
                            if u1.len() < u0.len() {
                                let idx = choose|idx: int|
                                    0 <= idx < u0.len() && u1 == u0.remove(idx);
                                assert(u1[k] == if k < idx {
                                    u0[k]
                                } else {
                                    u0[k + 1]
                                });
                            }
                        }
                        assert(!has_key(u1, pk.0, pk.1));
                    }
                    let e = Entry { col: pos.0, row: pos.1, unit: Unit { content: buf.to_owned() } };
                    proof {
                        lemma_push_entry(u1, e);
                    }
                    self.units.push(e);
                    let s0: usize = if pos.0 + 1 > self.size.0 {
                        pos.0 + 1
                    } else {
                        self.size.0
                    };
                    let s1: usize = if pos.1 + 1 > self.size.1 {
                        pos.1 + 1
                    } else {
                        self.size.1
                    };
                    self.size = (s0, s1);
                    self.widths = nw;
                    self.accum_widths = acc;
                },
            }
        } else {
            let ghost u0 = self.units@;
            match self.find_cell(pos.0, pos.1) {
                Some(idx) => {
                    proof {
                        lemma_remove_entry(u0, idx as int);
                    }
                    self.units.remove(idx);
                },
                None => {
                },
            }
            let ghost m1 = self.units@;
            proof {
                assert forall|c: int, r: int| #[trigger]
                    has_key(m1, c, r) <==> (has_key(u0, c, r) && (c, r) != pk) by {}
                assert forall|c: int, r: int|
                    has_key(m1, c, r) implies #[trigger] val_at(m1, c, r) == val_at(u0, c, r) by {}
                assert forall|k: int| 0 <= k < m1.len() implies (#[trigger] m1[k]).col
                    < old(self).size.0 && m1[k].row < old(self).size.1 by {
                    if m1.len() < u0.len() {
                        let idx = choose|idx: int| 0 <= idx < u0.len() && m1 == u0.remove(idx);
                        assert(m1[k] == if k < idx {
                            u0[k]
                        } else {
                            u0[k + 1]
                        });
                    }
                }
            }
            let ce = self.is_col_empty(pos.0);
            let colrm = pos.0 < self.size.0 && self.size.0 > 1 && ce;
            proof {
                assert(ce <==> !(exists|rr: int| #[trigger] has_key(m1, pk.0, rr))) by {
                    if exists|i: int|
                        0 <= i < m1.len() && (#[trigger] m1[i]).col == pos.0 {
                        let i = choose|i: int| 0 <= i < m1.len() && (#[trigger] m1[i]).col == pos.0;
                        assert(key_of(m1[i]) == (pk.0, m1[i].row as int));
                        assert(has_key(m1, pk.0, m1[i].row as int));
                    }
                    if exists|rr: int| #[trigger] has_key(m1, pk.0, rr) {
                        let rr = choose|rr: int| #[trigger] has_key(m1, pk.0, rr);
                        let i = choose|i: int|
                            0 <= i < m1.len() && #[trigger] key_of(m1[i]) == (pk.0, rr);
                        assert(m1[i].col == pos.0);
                    }
                }
                assert forall|rr: int| #[trigger]
                    has_key(m1, pk.0, rr) <==> (has_key(u0, pk.0, rr) && rr != pk.1) by {}
            }
            if colrm {
                self.remove_col(pos.0);
            }
            let ghost m2 = self.units@;
            let re = self.is_row_empty(pos.1);
            let rowrm = pos.1 < self.size.1 && self.size.1 > 1 && re;
            proof {
                assert((exists|i: int| 0 <= i < m2.len() && (#[trigger] m2[i]).row == pos.1)
                    <==> (exists|i: int| 0 <= i < m1.len() && (#[trigger] m1[i]).row == pos.1)) by {
                    if exists|i: int| 0 <= i < m2.len() && (#[trigger] m2[i]).row == pos.1 {
                        let i = choose|i: int|
                            0 <= i < m2.len() && (#[trigger] m2[i]).row == pos.1;
                        assert(m1[i].row == pos.1);
                    }
                    if exists|i: int| 0 <= i < m1.len() && (#[trigger] m1[i]).row == pos.1 {
                        let i = choose|i: int|
                            0 <= i < m1.len() && (#[trigger] m1[i]).row == pos.1;
                        assert(m2[i].row == pos.1);
                    }
                }
                assert(re <==> !(exists|cc: int| #[trigger] has_key(m1, cc, pk.1))) by {
                    if exists|i: int| 0 <= i < m1.len() && (#[trigger] m1[i]).row == pos.1 {
                        let i = choose|i: int| 0 <= i < m1.len() && (#[trigger] m1[i]).row == pos.1;
                        assert(key_of(m1[i]) == (m1[i].col as int, pk.1));
                        assert(has_key(m1, m1[i].col as int, pk.1));
                    }
                    if exists|cc: int| #[trigger] has_key(m1, cc, pk.1) {
                        let cc = choose|cc: int| #[trigger] has_key(m1, cc, pk.1);
                        let i = choose|i: int|
                            0 <= i < m1.len() && #[trigger] key_of(m1[i]) == (cc, pk.1);
                        assert(m1[i].row == pos.1);
                    }
                }
                assert forall|cc: int| #[trigger]
                    has_key(m1, cc, pk.1) <==> (has_key(u0, cc, pk.1) && cc != pk.0) by {}
            }
            if rowrm {
                self.remove_row(pos.1);
            }
            if colrm {
                proof {
                    lemma_wsum_remove(old(self).widths@, pk.0);
                }
                match prefix_sums(&self.widths) {
                    Some(acc) => {
                        self.accum_widths = acc;
                    },
                    None => {
                        proof {
                            assert(false);
                        }
                    },
                }
            }
            proof {
                let fin = *self;
                assert forall|c: int, r: int| #[trigger]
                    has_key(fin.units@, c, r) <==> (has_key(
                    u0,
                    unshift(c, pk.0, colrm),
                    unshift(r, pk.1, rowrm),
                ) && (unshift(c, pk.0, colrm), unshift(r, pk.1, rowrm)) != pk) by {
                    assert(has_key(fin.units@, c, r) <==> has_key(m2, c, unshift(r, pk.1, rowrm)));
                    assert(has_key(m2, c, unshift(r, pk.1, rowrm)) <==> has_key(
                        m1,
                        unshift(c, pk.0, colrm),
                        unshift(r, pk.1, rowrm),
                    ));
                }
                assert forall|c: int, r: int| #[trigger]
                    has_key(fin.units@, c, r) implies val_at(fin.units@, c, r) == val_at(
                    u0,
                    unshift(c, pk.0, colrm),
                    unshift(r, pk.1, rowrm),
                ) by {
                    assert(val_at(fin.units@, c, r) == val_at(m2, c, unshift(r, pk.1, rowrm)));
                    assert(has_key(m2, c, unshift(r, pk.1, rowrm)));
                    assert(val_at(m2, c, unshift(r, pk.1, rowrm)) == val_at(
                        m1,
                        unshift(c, pk.0, colrm),
                        unshift(r, pk.1, rowrm),
                    ));
                }
            }
        }
    }

    /// The characters of row `r` from column `c` on, with `pending` tab
    /// bytes owed before the next occupied cell. A present cell is written
    /// as the owed tabs, its content, then one tab plus one per unit of
    /// column width beyond the content's own; an absent cell adds its
    /// column's width to the owed tabs. Tabs still owed at the line's end
    /// are dropped.
    pub open spec fn line_chars(self, r: int, c: int, pending: nat) -> Seq<char>
        decreases self.size.0 - c
        when self.tab_size >= 1
    {
        if c >= self.size.0 {
            Seq::empty()
        } else if self.has_cell(c, r) && c < self.widths@.len() {
            let t = self.cell_at(c, r);
            let skipn = vstd::math::max(
                self.widths@[c] as int - unit_of(t, self.tab_size as int),
                0,
            );
            Seq::new(pending, |q: int| '\t') + t + self.line_chars(r, c + 1, (1 + skipn) as nat)
        } else {
            self.line_chars(
                r,
                c + 1,
                pending + (if 0 <= c < self.widths@.len() {
                    self.widths@[c] as nat
                } else {
                    0nat
                }),
            )
        }
    }

    /// The serialized text from row `r` on: each row's characters followed
    /// by a newline.
    pub open spec fn sheet_chars(self, r: int) -> Seq<char>
        decreases self.size.1 - r
        when self.tab_size >= 1
    {
        if r >= self.size.1 {
            Seq::empty()
        } else {
            self.line_chars(r, 0, 0) + seq!['\n'] + self.sheet_chars(r + 1)
        }
    }

    /// Renders the sheet back into tab-delimited text that reproduces the
    /// alignment the widths describe.
    pub fn serialize(&self) -> (out: String)
        requires
            self.wf(),
        ensures
            out@ == self.sheet_chars(0),
    {
        let ghost full: Seq<char> = self.sheet_chars(0);
        let mut out: Vec<char> = Vec::new();
        let mut r: usize = 0;
        proof {
            assert(Seq::<char>::empty() + full =~= full);
        }
        while r < self.size.1
            invariant
                r <= self.size.1,
                full == out@ + self.sheet_chars(r as int),
            decreases self.size.1 - r,
        {
            let mut count: usize = 0;
            let mut c: usize = 0;
            proof {
                assert(out@ + (self.line_chars(r as int, 0, 0) + seq!['\n'] + self.sheet_chars(
                    r + 1,
                )) =~= out@ + self.line_chars(r as int, 0, 0) + seq!['\n'] + self.sheet_chars(
                    r + 1,
                ));
            }
            while c < self.size.0
                invariant
                    c <= self.size.0,
                    count as int <= 1 + wsum(self.widths@.take(c as int)),
                    full == out@ + self.line_chars(r as int, c as int, count as nat) + seq!['\n']
                        + self.sheet_chars(r + 1),
                decreases self.size.0 - c,
            {
                proof {
                    lemma_wsum_take_succ(self.widths@, c as int);
                    lemma_wsum_take_le(self.widths@, c + 1);
                    crate::widths::lemma_wsum_nonneg(self.widths@.take(c as int));
                }
                match self.find_cell(c, r) {
                    Some(i) => {
                        let ghost base = out@;
                        let ghost t: Seq<char> = self.cell_at(c as int, r as int);
                        let mut q: usize = 0;
                        while q < count
                            invariant
                                q <= count,
                                out@ == base + Seq::new(q as nat, |x: int| '\t'),
                            decreases count - q,
                        {
                            out.push('\t');
                            q = q + 1;
                            assert(out@ =~= base + Seq::new(q as nat, |x: int| '\t'));
                        }
                        push_chars(&mut out, self.units[i].unit.content.as_str());
                        let u = measure_width(self.units[i].unit.content.as_str(), self.tab_size);
                        let d: usize = if self.widths[c] > u {
                            self.widths[c] - u
                        } else {
                            0
                        };
                        proof {
                            assert(out@ =~= base + (Seq::new(count as nat, |x: int| '\t') + t));
                            assert(base + (Seq::new(count as nat, |x: int| '\t') + t
                                + self.line_chars(r as int, c + 1, (1 + d) as nat)) =~= base + (
                            Seq::new(count as nat, |x: int| '\t') + t) + self.line_chars(
                                r as int,
                                c + 1,
                                (1 + d) as nat,
                            ));
                        }
                        count = 1 + d;
                    },
                    None => {
                        proof {
                            assert(count + self.widths@[c as int] <= 1 + wsum(
                                self.widths@.take(c + 1),
                            ));
                        }
                        count = count + self.widths[c];
                    },
                }
                c = c + 1;
            }
            proof {
                assert(self.line_chars(r as int, self.size.0 as int, count as nat)
                    =~= Seq::<char>::empty());
                assert(out@ + Seq::<char>::empty() + seq!['\n'] + self.sheet_chars(r + 1) =~= out@
                    + seq!['\n'] + self.sheet_chars(r + 1));
            }
            out.push('\n');
            proof {
                assert(full =~= out@ + self.sheet_chars(r + 1));
            }
            r = r + 1;
        }
        proof {
            assert(self.sheet_chars(r as int) =~= Seq::<char>::empty());
            assert(out@ + Seq::<char>::empty() =~= out@);
        }
        string_of(&out)
    }

    /// Whether column `index` holds no cell.
    fn is_col_empty(&self, index: usize) -> (empty: bool)
        ensures
            empty == !exists|i: int|
                0 <= i < self.units@.len() && (#[trigger] self.units@[i]).col == index,
    {
        let mut i: usize = 0;
        while i < self.units.len()
            invariant
                i <= self.units@.len(),
                forall|k: int| 0 <= k < i ==> (#[trigger] self.units@[k]).col != index,
            decreases self.units@.len() - i,
        {
            if self.units[i].col == index {
                return false;
            }
            i = i + 1;
        }
        true
    }

    /// Whether row `index` holds no cell.
    fn is_row_empty(&self, index: usize) -> (empty: bool)
        ensures
            empty == !exists|i: int|
                0 <= i < self.units@.len() && (#[trigger] self.units@[i]).row == index,
    {
        let mut i: usize = 0;
        while i < self.units.len()
            invariant
                i <= self.units@.len(),
                forall|k: int| 0 <= k < i ==> (#[trigger] self.units@[k]).row != index,
            decreases self.units@.len() - i,
        {
            if self.units[i].row == index {
                return false;
            }
            i = i + 1;
        }
        true
    }
}

impl Default for Sheet {
    fn default() -> (s: Sheet)
        ensures
            s.wf(),
            s.size == (1usize, 1usize),
            s.tab_size == 8,
            s.units@.len() == 0,
    {
        Sheet::new()
    }
}

/// A fresh sheet with widths `[1]` and prefix sums `[0, 1]` is well formed.
proof fn lemma_fresh_wf(s: Sheet)
    requires
        s.units@.len() == 0,
        s.size == (1usize, 1usize),
        s.tab_size >= 1,
        s.widths@ =~= seq![1usize],
        s.accum_widths@ =~= seq![0usize, 1usize],
    ensures
        s.wf(),
        forall|c: int, r: int| !s.has_cell(c, r),
{
    assert forall|i: int| 0 <= i <= s.widths@.len() implies #[trigger] s.accum_widths@[i] as int
        == wsum(s.widths@.take(i)) by {
        assert(s.widths@.len() == 1);
        if i == 0 {
            assert(s.widths@.take(0) =~= Seq::<usize>::empty());
            assert(wsum(Seq::<usize>::empty()) == 0);
            assert(s.accum_widths@[0] == 0);
        } else {
            assert(i == 1);
            assert(s.widths@.take(1) =~= s.widths@);
            assert(s.widths@.drop_last() =~= Seq::<usize>::empty());
            assert(wsum(Seq::<usize>::empty()) == 0);
            assert(wsum(s.widths@) == wsum(s.widths@.drop_last()) + s.widths@.last());
            assert(s.widths@.last() == 1);
            assert(s.accum_widths@[1] == 1);
        }
    }
    assert(s.widths@.take(1) =~= s.widths@);
    assert(wsum(s.widths@) == 1);
}

/// The prefix-sum law: in every well-formed sheet — so after every `edit`
/// and every load — `accum_widths` has one entry more than `widths`, and
/// its entry at `i` is the sum of the first `i` widths.
pub proof fn lemma_prefix_sum_invariant(s: Sheet)
    requires
        s.wf(),
    ensures
        s.accum_widths@.len() == s.widths@.len() + 1,
        forall|i: int|
            0 <= i <= s.widths@.len() ==> #[trigger] s.accum_widths@[i] as int == wsum(
                s.widths@.take(i),
            ),
        s.accum_widths@[0] == 0,
{
    assert(s.widths@.take(0) =~= Seq::<usize>::empty());
}

/// Accumulated widths grow strictly with the column index.
pub proof fn lemma_accum_strict(s: Sheet, i: int, j: int)
    requires
        s.wf(),
        0 <= i < j < s.accum_widths@.len(),
    ensures
        s.accum_widths@[i] < s.accum_widths@[j],
    decreases j - i,
{
    lemma_wsum_take_succ(s.widths@, j - 1);
    if i < j - 1 {
        lemma_accum_strict(s, i, j - 1);
    }
}

/// Accumulated widths grow with the column index.
pub proof fn lemma_accum_monotone(s: Sheet, i: int, j: int)
    requires
        s.wf(),
        0 <= i <= j < s.accum_widths@.len(),
    ensures
        s.accum_widths@[i] <= s.accum_widths@[j],
    decreases j - i,
{
    if i < j {
        lemma_wsum_take_succ(s.widths@, j - 1);
        lemma_accum_monotone(s, i, j - 1);
    }
}

} // verus!
