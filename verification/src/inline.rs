//! Inline spans of one line: `code`, **bold**, *italic* and [text](url).
//! Spans do not nest; at each position the first construct that closes wins,
//! and text between spans is plain.

use crate::scan::{exec_find, find, lemma_find_bounds, occurs_at};
use crate::style::Style;
use vstd::prelude::*;

verus! {

/// A run of text `[start, end)` (byte offsets) and its role.
#[derive(Clone, Copy, Debug, PartialEq, Eq, Structural)]
pub struct Span {
    pub start: usize,
    pub end: usize,
    pub style: Style,
}

pub open spec fn span(a: int, b: int, style: Style) -> Span {
    Span { start: a as usize, end: b as usize, style }
}

pub open spec fn backtick() -> Seq<u8> {
    seq![0x60u8]
}

pub open spec fn double_star() -> Seq<u8> {
    seq![0x2au8, 0x2au8]
}

pub open spec fn star() -> Seq<u8> {
    seq![0x2au8]
}

/// `](`, between the text and the url of a link.
pub open spec fn link_middle() -> Seq<u8> {
    seq![0x5du8, 0x28u8]
}

pub open spec fn close_paren() -> Seq<u8> {
    seq![0x29u8]
}

/// The start of the first closing delimiter `d` at or after `from`, ending
/// by `hi`.
pub open spec fn closing(s: Seq<u8>, from: int, hi: int, d: Seq<u8>) -> Option<int> {
    if from >= hi {
        None
    } else {
        find(s, from, hi, d)
    }
}

/// The end and role of a code, bold or italic span opening at `i`.
pub open spec fn emphasis_at(s: Seq<u8>, i: int, hi: int) -> Option<(int, Style)> {
    if s[i] == 0x60 {
        match closing(s, i + 1, hi, backtick()) {
            Some(e) => Some((e + 1, Style::Code)),
            None => None,
        }
    } else if s[i] == 0x2a && i + 2 <= hi && s[i + 1] == 0x2a {
        match closing(s, i + 2, hi, double_star()) {
            Some(e) => Some((e + 2, Style::Bold)),
            None => None,
        }
    } else if s[i] == 0x2a {
        match closing(s, i + 1, hi, star()) {
            Some(e) => Some((e + 1, Style::Italic)),
            None => None,
        }
    } else {
        None
    }
}

/// The end of the text part and the end of the url part of a link opening
/// at `i`: the first `](` after it, then the first `)` after that.
pub open spec fn link_at(s: Seq<u8>, i: int, hi: int) -> Option<(int, int)> {
    if s[i] == 0x5b {
        match find(s, i, hi, link_middle()) {
            Some(m) => match find(s, m + 2, hi, close_paren()) {
                Some(c) => Some((m + 1, c + 1)),
                None => None,
            },
            None => None,
        }
    } else {
        None
    }
}

pub proof fn lemma_closing_bounds(s: Seq<u8>, from: int, hi: int, d: Seq<u8>)
    ensures
        closing(s, from, hi, d) matches Some(k) ==> from <= k && k + d.len() <= hi && occurs_at(
            s,
            k,
            hi,
            d,
        ),
{
    if from >= 0 {
        lemma_find_bounds(s, from, hi, d);
    }
}

pub proof fn lemma_inline_match_bounds(s: Seq<u8>, i: int, hi: int)
    requires
        0 <= i < hi,
    ensures
        emphasis_at(s, i, hi) matches Some((e, _)) ==> i < e <= hi,
        link_at(s, i, hi) matches Some((te, ue)) ==> i < te < ue <= hi,
{
    lemma_closing_bounds(s, i + 1, hi, backtick());
    lemma_closing_bounds(s, i + 2, hi, double_star());
    lemma_closing_bounds(s, i + 1, hi, star());
    lemma_find_bounds(s, i, hi, link_middle());
    if let Some(m) = find(s, i, hi, link_middle()) {
        lemma_find_bounds(s, m + 2, hi, close_paren());
    }
}

/// Plain text `[a, b)`, when it is not empty.
pub open spec fn plain(a: int, b: int) -> Seq<Span> {
    if a < b {
        seq![span(a, b, Style::Text)]
    } else {
        Seq::empty()
    }
}

/// The spans of the line `[.., hi)` from position `i` on, where plain text
/// has been pending since `pending`.
pub open spec fn inline_from(s: Seq<u8>, i: int, pending: int, hi: int) -> Seq<Span>
    decreases hi - i,
{
    if i < 0 || i >= hi {
        plain(pending, hi)
    } else {
        match link_at(s, i, hi) {
            Some((te, ue)) => {
                proof {
                    lemma_inline_match_bounds(s, i, hi);
                }
                plain(pending, i) + seq![span(i, te, Style::Link), span(te, ue, Style::Url)]
                    + inline_from(s, ue, ue, hi)
            },
            None => match emphasis_at(s, i, hi) {
                Some((e, style)) => {
                    proof {
                        lemma_inline_match_bounds(s, i, hi);
                    }
                    plain(pending, i) + seq![span(i, e, style)] + inline_from(s, e, e, hi)
                },
                None => inline_from(s, i + 1, pending, hi),
            },
        }
    }
}

/// The inline spans of the text `[lo, hi)`.
pub open spec fn inline_spans(s: Seq<u8>, lo: int, hi: int) -> Seq<Span> {
    inline_from(s, lo, lo, hi)
}

fn exec_closing(b: &[u8], from: usize, hi: usize, d: &[u8]) -> (r: Option<usize>)
    requires
        hi <= b@.len(),
    ensures
        r == (match closing(b@, from as int, hi as int, d@) {
            Some(k) => Some(k as usize),
            None => None::<usize>,
        }),
{
    if from >= hi {
        return None;
    }
    proof {
        lemma_find_bounds(b@, from as int, hi as int, d@);
    }
    match exec_find(b, from, hi, d) {
        Some(k) => Some(k),
        None => None,
    }
}

fn exec_emphasis_at(b: &[u8], i: usize, hi: usize) -> (r: Option<(usize, Style)>)
    requires
        i < hi <= b@.len(),
    ensures
        r == (match emphasis_at(b@, i as int, hi as int) {
            Some((e, st)) => Some((e as usize, st)),
            None => None::<(usize, Style)>,
        }),
{
    proof {
        lemma_inline_match_bounds(b@, i as int, hi as int);
        lemma_closing_bounds(b@, i + 1, hi as int, backtick());
        lemma_closing_bounds(b@, i + 2, hi as int, double_star());
        lemma_closing_bounds(b@, i + 1, hi as int, star());
    }
    if b[i] == 0x60 {
        let d: [u8; 1] = [0x60];
        assert(d@ =~= backtick());
        match exec_closing(b, i + 1, hi, &d) {
            Some(e) => Some((e + 1, Style::Code)),
            None => None,
        }
    } else if b[i] == 0x2a && hi - i >= 2 && b[i + 1] == 0x2a {
        let d: [u8; 2] = [0x2a, 0x2a];
        assert(d@ =~= double_star());
        match exec_closing(b, i + 2, hi, &d) {
            Some(e) => Some((e + 2, Style::Bold)),
            None => None,
        }
    } else if b[i] == 0x2a {
        let d: [u8; 1] = [0x2a];
        assert(d@ =~= star());
        match exec_closing(b, i + 1, hi, &d) {
            Some(e) => Some((e + 1, Style::Italic)),
            None => None,
        }
    } else {
        None
    }
}

fn exec_link_at(b: &[u8], i: usize, hi: usize) -> (r: Option<(usize, usize)>)
    requires
        i < hi <= b@.len(),
    ensures
        r == (match link_at(b@, i as int, hi as int) {
            Some((te, ue)) => Some((te as usize, ue as usize)),
            None => None::<(usize, usize)>,
        }),
{
    proof {
        lemma_inline_match_bounds(b@, i as int, hi as int);
        lemma_find_bounds(b@, i as int, hi as int, link_middle());
    }
    if b[i] != 0x5b {
        return None;
    }
    let mid: [u8; 2] = [0x5d, 0x28];
    assert(mid@ =~= link_middle());
    match exec_find(b, i, hi, &mid) {
        Some(m) => {
            let cp: [u8; 1] = [0x29];
            assert(cp@ =~= close_paren());
            proof {
                lemma_find_bounds(b@, m + 2, hi as int, close_paren());
            }
            match exec_find(b, m + 2, hi, &cp) {
                Some(c) => Some((m + 1, c + 1)),
                None => None,
            }
        },
        None => None,
    }
}

/// Appends the inline spans of the text `[lo, hi)` to `out`.
pub(crate) fn push_inline(b: &[u8], lo: usize, hi: usize, out: &mut Vec<Span>)
    requires
        lo <= hi <= b@.len(),
    ensures
        final(out)@ == old(out)@ + inline_spans(b@, lo as int, hi as int),
{
    let ghost target = old(out)@ + inline_spans(b@, lo as int, hi as int);
    let mut i = lo;
    let mut pending = lo;
    while i < hi
        invariant
            lo <= pending <= i <= hi <= b@.len(),
            out@ + inline_from(b@, i as int, pending as int, hi as int) == target,
        decreases hi - i,
    {
        proof {
            lemma_inline_match_bounds(b@, i as int, hi as int);
        }
        let ghost before = out@;
        if let Some((te, ue)) = exec_link_at(b, i, hi) {
            if pending < i {
                out.push(Span { start: pending, end: i, style: Style::Text });
            }
            out.push(Span { start: i, end: te, style: Style::Link });
            out.push(Span { start: te, end: ue, style: Style::Url });
            assert(out@ + inline_from(b@, ue as int, ue as int, hi as int) =~= before
                + inline_from(b@, i as int, pending as int, hi as int));
            i = ue;
            pending = ue;
        } else if let Some((e, style)) = exec_emphasis_at(b, i, hi) {
            if pending < i {
                out.push(Span { start: pending, end: i, style: Style::Text });
            }
            out.push(Span { start: i, end: e, style });
            assert(out@ + inline_from(b@, e as int, e as int, hi as int) =~= before + inline_from(
                b@,
                i as int,
                pending as int,
                hi as int,
            ));
            i = e;
            pending = e;
        } else {
            i = i + 1;
        }
    }
    if pending < hi {
        out.push(Span { start: pending, end: hi, style: Style::Text });
    }
    assert(out@ =~= target);
}

} // verus!
