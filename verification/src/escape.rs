//! Splitting text at separators that are not escaped.
//!
//! A separator counts unless an escape character stands before it. An
//! escape character escapes what follows it, another escape character too:
//! two in a row are an escaped escape character, and escape nothing.

use vstd::prelude::*;
use vstd::string::StrSliceExecFns;

verus! {

/// Whether the next character is escaped, given whether `c` is and that `c`
/// is no separator.
pub open spec fn escapes_next(esc: bool, c: char, escape: char) -> bool {
    c == escape && !esc
}

/// The state of escaping after `c`: a separator leaves it as it is, any
/// other character sets it anew.
pub open spec fn esc_after(esc: bool, c: char, escape: char, sep: char) -> bool {
    if c == sep {
        esc
    } else {
        escapes_next(esc, c, escape)
    }
}

/// Tells whether `c` is a separator that counts, and keeps `esc`, the state
/// of escaping, up to date.
pub fn is_sep(esc: &mut bool, c: char, escape: char, sep: char) -> (r: bool)
    ensures
        r == (c == sep && !*old(esc)),
        *final(esc) == esc_after(*old(esc), c, escape, sep),
{
    if c == sep {
        !*esc
    } else {
        *esc = c == escape && !*esc;
        false
    }
}

/// The pieces of `s` from index `start` on, when the characters before
/// index `i` were looked at, none of those from `start` on was a separator
/// that counts, and `esc` is the state of escaping at `i`.
pub open spec fn split_from(
    s: Seq<char>,
    start: int,
    i: int,
    esc: bool,
    escape: char,
    sep: char,
) -> Seq<Seq<char>>
    decreases s.len() - i,
{
    if i >= s.len() {
        seq![s.subrange(start, s.len() as int)]
    } else if s[i] == sep && !esc {
        seq![s.subrange(start, i)] + split_from(s, i + 1, i + 1, esc, escape, sep)
    } else {
        split_from(s, start, i + 1, esc_after(esc, s[i], escape, sep), escape, sep)
    }
}

/// The pieces into which the separators that count cut `s`.
pub open spec fn split_spec(s: Seq<char>, escape: char, sep: char) -> Seq<Seq<char>> {
    split_from(s, 0, 0, false, escape, sep)
}

/// As `split_from`, with at most `left` pieces: the last piece is all that
/// is left of `s`.
pub open spec fn splitn_from(
    s: Seq<char>,
    left: nat,
    start: int,
    i: int,
    esc: bool,
    escape: char,
    sep: char,
) -> Seq<Seq<char>>
    decreases s.len() - i,
{
    if left == 0 {
        Seq::empty()
    } else if left == 1 || i >= s.len() {
        seq![s.subrange(start, s.len() as int)]
    } else if s[i] == sep && !esc {
        seq![s.subrange(start, i)] + splitn_from(
            s,
            (left - 1) as nat,
            i + 1,
            i + 1,
            esc,
            escape,
            sep,
        )
    } else {
        splitn_from(s, left, start, i + 1, esc_after(esc, s[i], escape, sep), escape, sep)
    }
}

/// The first pieces into which the separators that count cut `s`, at most
/// `n` of them: the last is all that is left of `s`.
pub open spec fn splitn_spec(s: Seq<char>, n: nat, escape: char, sep: char) -> Seq<Seq<char>> {
    splitn_from(s, n, 0, 0, false, escape, sep)
}

/// The pieces with the separator between each two.
pub open spec fn join(pieces: Seq<Seq<char>>, sep: char) -> Seq<char>
    decreases pieces.len(),
{
    if pieces.len() == 0 {
        Seq::empty()
    } else if pieces.len() == 1 {
        pieces[0]
    } else {
        pieces[0] + seq![sep] + join(pieces.drop_first(), sep)
    }
}

proof fn lemma_split_from_joins(
    s: Seq<char>,
    start: int,
    i: int,
    esc: bool,
    escape: char,
    sep: char,
)
    requires
        0 <= start <= i <= s.len(),
    ensures
        split_from(s, start, i, esc, escape, sep).len() >= 1,
        join(split_from(s, start, i, esc, escape, sep), sep) == s.subrange(start, s.len() as int),
    decreases s.len() - i,
{
    if i >= s.len() {
    } else if s[i] == sep && !esc {
        lemma_split_from_joins(s, i + 1, i + 1, esc, escape, sep);
        let tail = split_from(s, i + 1, i + 1, esc, escape, sep);
        let all = seq![s.subrange(start, i)] + tail;
        assert(all.drop_first() =~= tail);
        assert(all[0] == s.subrange(start, i));
        assert(s.subrange(start, i) + seq![sep] + s.subrange(i + 1, s.len() as int)
            =~= s.subrange(start, s.len() as int));
    } else {
        lemma_split_from_joins(s, start, i + 1, esc_after(esc, s[i], escape, sep), escape, sep);
    }
}

/// Splitting loses nothing: the pieces, put together with the separator
/// between each two, are the text that was split.
pub proof fn lemma_split_joins(s: Seq<char>, escape: char, sep: char)
    ensures
        split_spec(s, escape, sep).len() >= 1,
        join(split_spec(s, escape, sep), sep) == s,
{
    lemma_split_from_joins(s, 0, 0, false, escape, sep);
    assert(s.subrange(0, s.len() as int) =~= s);
}

/// The characters of each piece.
pub open spec fn piece_views(pieces: Seq<&str>) -> Seq<Seq<char>> {
    pieces.map_values(|p: &str| p@)
}

/// Cuts `s` at every separator `sep` that is not escaped by `escape`.
pub fn split_escaped<'a>(s: &'a str, escape: char, sep: char) -> (r: Vec<&'a str>)
    ensures
        piece_views(r@) == split_spec(s@, escape, sep),
{
    let n = s.unicode_len();
    let mut out: Vec<&'a str> = Vec::new();
    let mut esc = false;
    let mut start: usize = 0;
    let mut i: usize = 0;
    proof {
        assert(piece_views(out@) + split_spec(s@, escape, sep) =~= split_spec(s@, escape, sep));
    }
    for c in it: s.chars()
        invariant
            n == s@.len(),
            it.seq() == s@,
            i == it.index(),
            start <= i <= n,
            split_spec(s@, escape, sep) == piece_views(out@) + split_from(
                s@,
                start as int,
                i as int,
                esc,
                escape,
                sep,
            ),
    {
        let ghost before = piece_views(out@);
        if is_sep(&mut esc, c, escape, sep) {
            let piece = s.substring_char(start, i);
            out.push(piece);
            proof {
                let tail = split_from(s@, i + 1, i + 1, esc, escape, sep);
                assert(piece_views(out@) =~= before.push(piece@));
                assert(before + (seq![piece@] + tail) =~= piece_views(out@) + tail);
            }
            start = i + 1;
        }
        i += 1;
    }
    let ghost before = piece_views(out@);
    let piece = s.substring_char(start, n);
    out.push(piece);
    proof {
        assert(piece_views(out@) =~= before + seq![piece@]);
    }
    out
}

/// Cuts `s` at the first separators `sep` that are not escaped by `escape`,
/// into at most `n` pieces: the last piece is all that is left of `s`.
pub fn splitn_escaped<'a>(s: &'a str, n: usize, escape: char, sep: char) -> (r: Vec<&'a str>)
    ensures
        piece_views(r@) == splitn_spec(s@, n as nat, escape, sep),
{
    let len = s.unicode_len();
    let mut out: Vec<&'a str> = Vec::new();
    if n == 0 {
        proof {
            assert(piece_views(out@) =~= splitn_spec(s@, 0, escape, sep));
        }
        return out;
    }
    let mut esc = false;
    let mut start: usize = 0;
    let mut i: usize = 0;
    let mut left: usize = n;
    proof {
        assert(piece_views(out@) + splitn_spec(s@, n as nat, escape, sep) =~= splitn_spec(
            s@,
            n as nat,
            escape,
            sep,
        ));
    }
    for c in it: s.chars()
        invariant
            len == s@.len(),
            it.seq() == s@,
            i == it.index(),
            start <= i <= len,
            left >= 1,
            splitn_spec(s@, n as nat, escape, sep) == piece_views(out@) + splitn_from(
                s@,
                left as nat,
                start as int,
                i as int,
                esc,
                escape,
                sep,
            ),
    {
        let ghost before = piece_views(out@);
        if left > 1 && is_sep(&mut esc, c, escape, sep) {
            let piece = s.substring_char(start, i);
            out.push(piece);
            proof {
                let tail = splitn_from(s@, (left - 1) as nat, i + 1, i + 1, esc, escape, sep);
                assert(piece_views(out@) =~= before.push(piece@));
                assert(before + (seq![piece@] + tail) =~= piece_views(out@) + tail);
            }
            start = i + 1;
            left = left - 1;
        }
        i += 1;
    }
    let ghost before = piece_views(out@);
    let piece = s.substring_char(start, len);
    out.push(piece);
    proof {
        assert(piece_views(out@) =~= before + seq![piece@]);
    }
    out
}

} // verus!
