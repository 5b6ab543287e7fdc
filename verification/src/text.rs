//! Characters, display widths, and splitting and joining on separator
//! characters. Everything the rest of the library knows about raw text is
//! stated here.

use vstd::prelude::*;
use vstd::string::StrSliceExecFns;

verus! {

/// The displayed width, in terminal columns, of a sequence of characters.
/// The value is fixed by the characters alone; it is computed by the
/// `unicode-width` crate and is not given a definition here.
pub uninterp spec fn text_width(s: Seq<char>) -> nat;

/// Relies on `unicode_width::UnicodeWidthStr::width`: the displayed column
/// count of `s`, a pure function of its characters (Unicode Standard Annex
/// 11 width, with the crate's documented ligature rules). The crate
/// documents that an empty string has width zero, as the sum over no
/// characters.
#[verifier::external_body]
pub fn display_width(s: &str) -> (w: usize)
    ensures
        w == text_width(s@),
        s@.len() == 0 ==> w == 0,
{
    unicode_width::UnicodeWidthStr::width(s)
}

/// Relies on `String`'s `FromIterator<char>` impl: collecting characters
/// yields the string made of exactly those characters, in order.
#[verifier::external_body]
pub fn string_of(cs: &Vec<char>) -> (s: String)
    ensures
        s@ == cs@,
{
    cs.iter().collect()
}

/// The characters of a string, as a vector.
pub fn chars_of(s: &str) -> (r: Vec<char>)
    ensures
        r@ == s@,
{
    let n = s.unicode_len();
    let mut r: Vec<char> = Vec::new();
    let mut i: usize = 0;
    while i < n
        invariant
            i <= n,
            n == s@.len(),
            r@ == s@.take(i as int),
        decreases n - i,
    {
        let c = s.get_char(i);
        r.push(c);
        i = i + 1;
        assert(r@ =~= s@.take(i as int));
    }
    assert(s@.take(n as int) =~= s@);
    r
}

/// Appends the characters of `s` to `dst`.
pub fn push_chars(dst: &mut Vec<char>, s: &str)
    ensures
        final(dst)@ == old(dst)@ + s@,
{
    let n = s.unicode_len();
    let mut i: usize = 0;
    while i < n
        invariant
            i <= n,
            n == s@.len(),
            dst@ == old(dst)@ + s@.take(i as int),
        decreases n - i,
    {
        let c = s.get_char(i);
        dst.push(c);
        i = i + 1;
        assert(old(dst)@ + s@.take(i as int) =~= (old(dst)@ + s@.take(i - 1)).push(s@[i - 1]));
    }
    assert(old(dst)@ + s@.take(n as int) =~= old(dst)@ + s@);
}

/// Splitting `cur + s` on `sep`: `cur` is the part of the current token
/// read so far.
pub open spec fn split_from(s: Seq<char>, sep: char, cur: Seq<char>) -> Seq<Seq<char>>
    decreases s.len(),
{
    if s.len() == 0 {
        seq![cur]
    } else if s[0] == sep {
        seq![cur] + split_from(s.skip(1), sep, Seq::empty())
    } else {
        split_from(s.skip(1), sep, cur.push(s[0]))
    }
}

/// The tokens of `s`, split on the separator `sep`. An empty sequence
/// yields one empty token, as `str::split` does.
pub open spec fn split_at_sep(s: Seq<char>, sep: char) -> Seq<Seq<char>> {
    split_from(s, sep, Seq::empty())
}

/// Joining tokens with a single separator between consecutive tokens.
pub open spec fn join_with(parts: Seq<Seq<char>>, sep: char) -> Seq<char>
    decreases parts.len(),
{
    if parts.len() == 0 {
        Seq::empty()
    } else if parts.len() == 1 {
        parts[0]
    } else {
        parts[0] + seq![sep] + join_with(parts.skip(1), sep)
    }
}

/// Splitting yields at least one token.
pub proof fn lemma_split_len(s: Seq<char>, sep: char, cur: Seq<char>)
    ensures
        split_from(s, sep, cur).len() >= 1,
    decreases s.len(),
{
    if s.len() != 0 && s[0] == sep {
        lemma_split_len(s.skip(1), sep, Seq::empty());
    } else if s.len() != 0 {
        lemma_split_len(s.skip(1), sep, cur.push(s[0]));
    }
}

/// Reading a separator-free segment extends the current token.
pub proof fn lemma_split_seg(t: Seq<char>, x: Seq<char>, sep: char, cur: Seq<char>)
    requires
        forall|i: int| 0 <= i < t.len() ==> t[i] != sep,
    ensures
        split_from(t + x, sep, cur) == split_from(x, sep, cur + t),
    decreases t.len(),
{
    if t.len() == 0 {
        assert(t + x =~= x);
        assert(cur + t =~= cur);
    } else {
        assert((t + x)[0] == t[0]);
        assert((t + x).skip(1) =~= t.skip(1) + x);
        lemma_split_seg(t.skip(1), x, sep, cur.push(t[0]));
        assert(cur.push(t[0]) + t.skip(1) =~= cur + t);
    }
}

/// Reading `p` separators closes the current token and opens `p - 1`
/// empty ones.
pub proof fn lemma_split_seps(p: nat, x: Seq<char>, sep: char, cur: Seq<char>)
    requires
        p >= 1,
    ensures
        split_from(Seq::new(p, |i: int| sep) + x, sep, cur) == seq![cur] + Seq::new(
            (p - 1) as nat,
            |i: int| Seq::<char>::empty(),
        ) + split_from(x, sep, Seq::empty()),
    decreases p,
{
    let tb = Seq::new(p, |i: int| sep);
    assert((tb + x)[0] == sep);
    assert((tb + x).skip(1) =~= Seq::new((p - 1) as nat, |i: int| sep) + x);
    if p == 1 {
        assert((tb + x).skip(1) =~= x);
        assert(seq![cur] + Seq::new(0, |i: int| Seq::<char>::empty()) + split_from(
            x,
            sep,
            Seq::empty(),
        ) =~= seq![cur] + split_from(x, sep, Seq::empty()));
    } else {
        lemma_split_seps((p - 1) as nat, x, sep, Seq::empty());
        assert(seq![Seq::<char>::empty()] + Seq::new((p - 2) as nat, |i: int| Seq::<char>::empty())
            =~= Seq::new((p - 1) as nat, |i: int| Seq::<char>::empty()));
        assert(seq![cur] + (seq![Seq::<char>::empty()] + Seq::new(
            (p - 2) as nat,
            |i: int| Seq::<char>::empty(),
        ) + split_from(x, sep, Seq::empty())) =~= seq![cur] + Seq::new(
            (p - 1) as nat,
            |i: int| Seq::<char>::empty(),
        ) + split_from(x, sep, Seq::empty()));
    }
}

/// The lines of a text: split on newline, with a final newline ending the
/// last line rather than opening an empty one, as `str::lines` does.
pub open spec fn lines_of(s: Seq<char>) -> Seq<Seq<char>> {
    if s.len() == 0 {
        Seq::empty()
    } else if s.last() == '\n' {
        split_at_sep(s.take(s.len() - 1), '\n')
    } else {
        split_at_sep(s, '\n')
    }
}

/// Each line of a text, split into its tab-separated tokens.
pub open spec fn token_lines_of(s: Seq<char>) -> Seq<Seq<Seq<char>>> {
    lines_of(s).map_values(|l: Seq<char>| split_at_sep(l, '\t'))
}

/// Splits a text into its lines and each line into its tab-separated
/// tokens.
pub fn tokenize(text: &Vec<char>) -> (r: Vec<Vec<String>>)
    ensures
        r.deep_view() == token_lines_of(text@),
        r@.len() == lines_of(text@).len(),
{
    let mut r: Vec<Vec<String>> = Vec::new();
    if text.len() == 0 {
        proof {
            assert(r.deep_view() =~= token_lines_of(text@));
        }
        return r;
    }
    let m: usize = if text[text.len() - 1] == '\n' {
        text.len() - 1
    } else {
        text.len()
    };
    let mut t: Vec<char> = Vec::new();
    let mut i: usize = 0;
    while i < m
        invariant
            i <= m <= text@.len(),
            t@ == text@.take(i as int),
        decreases m - i,
    {
        let c = text[i];
        t.push(c);
        i = i + 1;
        assert(t@ =~= text@.take(i as int));
    }
    proof {
        if m < text@.len() {
            assert(lines_of(text@) == split_at_sep(t@, '\n'));
        } else {
            assert(t@ =~= text@);
        }
    }
    let lines = split_chars(&t, '\n');
    let ghost ls: Seq<Seq<char>> = lines_of(text@);
    let mut k: usize = 0;
    while k < lines.len()
        invariant
            k <= lines@.len(),
            lines.deep_view() == ls,
            r.deep_view() =~= token_lines_of(text@).take(k as int),
            r@.len() == k,
        decreases lines@.len() - k,
    {
        let line = &lines[k];
        proof {
            assert(line.deep_view() == ls[k as int]);
            assert(line.deep_view() =~= line@);
        }
        let toks = split_chars(line, '\t');
        let mut conv: Vec<String> = Vec::new();
        let mut q: usize = 0;
        while q < toks.len()
            invariant
                q <= toks@.len(),
                toks.deep_view() == split_at_sep(ls[k as int], '\t'),
                conv.deep_view() =~= toks.deep_view().take(q as int),
                conv@.len() == q,
            decreases toks@.len() - q,
        {
            let sq = string_of(&toks[q]);
            proof {
                assert(toks@[q as int].deep_view() == toks.deep_view()[q as int]);
                assert(toks@[q as int].deep_view() =~= toks@[q as int]@);
            }
            let ghost c0 = conv.deep_view();
            conv.push(sq);
            proof {
                assert(conv.deep_view() =~= c0.push(sq@));
                assert(conv.deep_view() =~= toks.deep_view().take(q + 1));
            }
            q = q + 1;
        }
        proof {
            assert(conv.deep_view() =~= toks.deep_view());
        }
        let ghost r0 = r.deep_view();
        let ghost cv = conv.deep_view();
        r.push(conv);
        proof {
            assert(r.deep_view() =~~= r0.push(cv));
            assert(token_lines_of(text@)[k as int] == split_at_sep(ls[k as int], '\t'));
            assert(r.deep_view() =~= token_lines_of(text@).take(k + 1));
        }
        k = k + 1;
    }
    proof {
        assert(token_lines_of(text@).take(lines@.len() as int) =~= token_lines_of(text@));
    }
    r
}

/// Splits a character vector on a separator character.
pub fn split_chars(s: &Vec<char>, sep: char) -> (r: Vec<Vec<char>>)
    ensures
        r.deep_view() == split_at_sep(s@, sep),
        r.len() >= 1,
{
    let mut r: Vec<Vec<char>> = Vec::new();
    let mut cur: Vec<char> = Vec::new();
    let mut i: usize = 0;
    proof {
        assert(s@.skip(0) =~= s@);
        assert(r.deep_view() =~= Seq::<Seq<char>>::empty());
        assert(Seq::<Seq<char>>::empty() + split_from(s@, sep, Seq::empty()) =~= split_from(
            s@,
            sep,
            Seq::empty(),
        ));
    }
    while i < s.len()
        invariant
            i <= s.len(),
            split_at_sep(s@, sep) == r.deep_view() + split_from(s@.skip(i as int), sep, cur@),
        decreases s.len() - i,
    {
        let c = s[i];
        assert(s@.skip(i as int)[0] == s@[i as int]);
        assert(s@.skip(i as int).skip(1) =~= s@.skip(i + 1));
        if c == sep {
            let ghost r0 = r.deep_view();
            let ghost cur0 = cur@;
            assert(cur.deep_view() =~= cur0);
            r.push(cur);
            cur = Vec::new();
            proof {
                assert(r.deep_view() =~~= r0.push(cur0));
                assert(r0 + (seq![cur0] + split_from(s@.skip(i + 1), sep, Seq::empty()))
                    =~= r0.push(cur0) + split_from(s@.skip(i + 1), sep, Seq::empty()));
            }
        } else {
            cur.push(c);
        }
        i = i + 1;
    }
    assert(s@.skip(i as int) =~= Seq::<char>::empty());
    let ghost r0 = r.deep_view();
    let ghost cur0 = cur@;
    assert(cur.deep_view() =~= cur0);
    r.push(cur);
    proof {
        assert(r.deep_view() =~~= r0.push(cur0));
        assert(r0 + seq![cur0] =~= r0.push(cur0));
    }
    r
}

} // verus!
