//! What holds of every layout: its sections reproduce the text byte for
//! byte, cut it only at character boundaries, never run across a line break,
//! and differ between the two themes in color alone.

use crate::blocks::{lemma_marker_end_bounds, marker_end};
use crate::highlight::{
    fence_after, highlight, line_spans, newline, section_of, sections_of, spans_from,
};
use crate::inline::{
    backtick, close_paren, double_star, emphasis_at, inline_from, inline_spans,
    lemma_closing_bounds, lemma_inline_match_bounds, link_at, link_middle, plain, span, star, Span,
};
use crate::scan::{find, lemma_find_bounds, occurs_at};
use crate::style::Style;
use vstd::prelude::*;

verus! {

/// `sp` cuts `[lo, hi)` into consecutive pieces, in order, with no gap and
/// no overlap (a piece may be empty).
pub open spec fn tiles(sp: Seq<Span>, lo: int, hi: int) -> bool {
    &&& lo <= hi
    &&& sp.len() == 0 ==> lo == hi
    &&& sp.len() > 0 ==> sp[0].start == lo && sp.last().end == hi
    &&& forall|k: int| 0 <= k < sp.len() ==> lo <= #[trigger] sp[k].start <= sp[k].end <= hi
    &&& forall|i: int, j: int|
        #![trigger sp[i], sp[j]]
        0 <= i && j == i + 1 && j < sp.len() ==> sp[i].end == sp[j].start
}

pub proof fn lemma_tiles_concat(a: Seq<Span>, b: Seq<Span>, lo: int, mid: int, hi: int)
    requires
        tiles(a, lo, mid),
        tiles(b, mid, hi),
    ensures
        tiles(a + b, lo, hi),
{
    let c = a + b;
    assert forall|i: int, j: int|
        #![trigger c[i], c[j]]
        0 <= i && j == i + 1 && j < c.len() implies c[i].end == c[j].start by {
        if j < a.len() {
            assert(a[i] == c[i] && a[j] == c[j]);
        } else if i >= a.len() {
            assert(b[i - a.len()] == c[i] && b[j - a.len()] == c[j]);
        } else {
            assert(c[i] == a.last());
            assert(c[j] == b[0]);
        }
    }
    assert forall|k: int| 0 <= k < c.len() implies lo <= #[trigger] c[k].start <= c[k].end <= hi by {
        if k < a.len() {
            assert(c[k] == a[k]);
        } else {
            assert(c[k] == b[k - a.len()]);
        }
    }
    if a.len() == 0 {
        assert(c =~= b);
    } else if b.len() == 0 {
        assert(c =~= a);
    } else {
        assert(c[0] == a[0]);
        assert(c.last() == b.last());
    }
}

proof fn lemma_tiles_single(a: int, b: int, style: Style)
    requires
        0 <= a <= b <= usize::MAX,
    ensures
        tiles(seq![span(a, b, style)], a, b),
{
}

proof fn lemma_tiles_plain(a: int, b: int)
    requires
        0 <= a <= b <= usize::MAX,
    ensures
        tiles(plain(a, b), a, b),
{
}

/// The inline spans from `i` on, with plain text pending since `pending`,
/// cut `[pending, hi)`.
pub proof fn lemma_inline_from_tiles(s: Seq<u8>, i: int, pending: int, hi: int)
    requires
        0 <= pending <= i <= hi <= usize::MAX,
    ensures
        tiles(inline_from(s, i, pending, hi), pending, hi),
    decreases hi - i,
{
    if i >= hi {
        lemma_tiles_plain(pending, hi);
    } else {
        lemma_inline_match_bounds(s, i, hi);
        match link_at(s, i, hi) {
            Some((te, ue)) => {
                lemma_inline_from_tiles(s, ue, ue, hi);
                lemma_tiles_plain(pending, i);
                lemma_tiles_single(i, te, Style::Link);
                lemma_tiles_single(te, ue, Style::Url);
                lemma_tiles_concat(
                    seq![span(i, te, Style::Link)],
                    seq![span(te, ue, Style::Url)],
                    i,
                    te,
                    ue,
                );
                assert(seq![span(i, te, Style::Link), span(te, ue, Style::Url)] =~= seq![
                    span(i, te, Style::Link),
                ] + seq![span(te, ue, Style::Url)]);
                lemma_tiles_concat(
                    plain(pending, i),
                    seq![span(i, te, Style::Link), span(te, ue, Style::Url)],
                    pending,
                    i,
                    ue,
                );
                lemma_tiles_concat(
                    plain(pending, i) + seq![span(i, te, Style::Link), span(te, ue, Style::Url)],
                    inline_from(s, ue, ue, hi),
                    pending,
                    ue,
                    hi,
                );
            },
            None => match emphasis_at(s, i, hi) {
                Some((e, style)) => {
                    lemma_inline_from_tiles(s, e, e, hi);
                    lemma_tiles_plain(pending, i);
                    lemma_tiles_single(i, e, style);
                    lemma_tiles_concat(plain(pending, i), seq![span(i, e, style)], pending, i, e);
                    lemma_tiles_concat(
                        plain(pending, i) + seq![span(i, e, style)],
                        inline_from(s, e, e, hi),
                        pending,
                        e,
                        hi,
                    );
                },
                None => {
                    lemma_inline_from_tiles(s, i + 1, pending, hi);
                },
            },
        }
    }
}

/// The spans of one line cut `[lo, hi)`.
pub proof fn lemma_line_tiles(s: Seq<u8>, lo: int, hi: int, in_fence: bool)
    requires
        0 <= lo <= hi <= usize::MAX,
    ensures
        tiles(line_spans(s, lo, hi, in_fence), lo, hi),
{
    lemma_inline_from_tiles(s, lo, lo, hi);
    lemma_marker_end_bounds(s, lo, hi);
    if let Some(m) = marker_end(s, lo, hi) {
        lemma_inline_from_tiles(s, m, m, hi);
        lemma_tiles_single(lo, m, Style::Marker);
        lemma_tiles_concat(seq![span(lo, m, Style::Marker)], inline_spans(s, m, hi), lo, m, hi);
    }
}

/// The spans from the line at `lo` on cut `[lo, s.len())`.
pub proof fn lemma_spans_from_tiles(s: Seq<u8>, lo: int, in_fence: bool)
    requires
        0 <= lo <= s.len() <= usize::MAX,
    ensures
        tiles(spans_from(s, lo, in_fence), lo, s.len() as int),
    decreases s.len() - lo,
{
    lemma_find_bounds(s, lo, s.len() as int, newline());
    match find(s, lo, s.len() as int, newline()) {
        Some(e) => {
            lemma_line_tiles(s, lo, e, in_fence);
            lemma_tiles_single(e, e + 1, Style::Text);
            lemma_tiles_concat(
                line_spans(s, lo, e, in_fence),
                seq![span(e, e + 1, Style::Text)],
                lo,
                e,
                e + 1,
            );
            let rest = if e + 1 >= s.len() {
                Seq::<Span>::empty()
            } else {
                spans_from(s, e + 1, fence_after(s, lo, e, in_fence))
            };
            if e + 1 < s.len() {
                lemma_spans_from_tiles(s, e + 1, fence_after(s, lo, e, in_fence));
            }
            lemma_tiles_concat(
                line_spans(s, lo, e, in_fence) + seq![span(e, e + 1, Style::Text)],
                rest,
                lo,
                e + 1,
                s.len() as int,
            );
        },
        None => {
            lemma_line_tiles(s, lo, s.len() as int, in_fence);
        },
    }
}

/// The highlighter's spans reproduce the text byte for byte: they cut it
/// into consecutive pieces from its first byte to its last, in order, with
/// no gap and no overlap.
pub proof fn lemma_spans_reproduce_text(s: Seq<u8>)
    requires
        s.len() <= usize::MAX,
    ensures
        tiles(highlight(s), 0, s.len() as int),
{
    lemma_spans_from_tiles(s, 0, false);
}

/// `k` is the start or the end of the text, or a position next to an ASCII
/// byte: at one, or right after one.
pub open spec fn ascii_edge(s: Seq<u8>, k: int) -> bool {
    ||| k == 0
    ||| k == s.len()
    ||| (0 <= k < s.len() && s[k] < 0x80)
    ||| (0 < k <= s.len() && s[k - 1] < 0x80)
}

/// Every span of `sp` starts and ends at an ASCII edge of `s`.
pub open spec fn cut_at_ascii_edges(s: Seq<u8>, sp: Seq<Span>) -> bool {
    forall|k: int|
        0 <= k < sp.len() ==> ascii_edge(s, #[trigger] sp[k].start as int) && ascii_edge(
            s,
            sp[k].end as int,
        )
}

proof fn lemma_edges_concat(s: Seq<u8>, a: Seq<Span>, b: Seq<Span>)
    requires
        cut_at_ascii_edges(s, a),
        cut_at_ascii_edges(s, b),
    ensures
        cut_at_ascii_edges(s, a + b),
{
    assert forall|k: int| 0 <= k < (a + b).len() implies ascii_edge(
        s,
        #[trigger] (a + b)[k].start as int,
    ) && ascii_edge(s, (a + b)[k].end as int) by {
        if k < a.len() {
            assert((a + b)[k] == a[k]);
            assert(ascii_edge(s, a[k].start as int));
        } else {
            assert((a + b)[k] == b[k - a.len()]);
            assert(ascii_edge(s, b[k - a.len()].start as int));
        }
    }
}

proof fn lemma_inline_from_edges(s: Seq<u8>, i: int, pending: int, hi: int)
    requires
        0 <= pending <= i <= hi <= s.len() <= usize::MAX,
        ascii_edge(s, pending),
        ascii_edge(s, hi),
    ensures
        cut_at_ascii_edges(s, inline_from(s, i, pending, hi)),
    decreases hi - i,
{
    if i >= hi {
    } else {
        lemma_inline_match_bounds(s, i, hi);
        match link_at(s, i, hi) {
            Some((te, ue)) => {
                lemma_find_bounds(s, i, hi, link_middle());
                let m = te - 1;
                assert(s[m + 0] == link_middle()[0]);
                lemma_find_bounds(s, m + 2, hi, close_paren());
                let c = ue - 1;
                assert(s[c + 0] == close_paren()[0]);
                lemma_inline_from_edges(s, ue, ue, hi);
                lemma_edges_concat(
                    s,
                    plain(pending, i),
                    seq![span(i, te, Style::Link), span(te, ue, Style::Url)],
                );
                lemma_edges_concat(
                    s,
                    plain(pending, i) + seq![span(i, te, Style::Link), span(te, ue, Style::Url)],
                    inline_from(s, ue, ue, hi),
                );
            },
            None => match emphasis_at(s, i, hi) {
                Some((e, style)) => {
                    if s[i] == 0x60 {
                        lemma_closing_bounds(s, i + 1, hi, backtick());
                        assert(s[(e - 1) + 0] == backtick()[0]);
                    } else if s[i] == 0x2a && i + 2 <= hi && s[i + 1] == 0x2a {
                        lemma_closing_bounds(s, i + 2, hi, double_star());
                        assert(s[(e - 2) + 1] == double_star()[1]);
                    } else {
                        lemma_closing_bounds(s, i + 1, hi, star());
                        assert(s[(e - 1) + 0] == star()[0]);
                    }
                    lemma_inline_from_edges(s, e, e, hi);
                    lemma_edges_concat(s, plain(pending, i), seq![span(i, e, style)]);
                    lemma_edges_concat(
                        s,
                        plain(pending, i) + seq![span(i, e, style)],
                        inline_from(s, e, e, hi),
                    );
                },
                None => {
                    lemma_inline_from_edges(s, i + 1, pending, hi);
                },
            },
        }
    }
}

proof fn lemma_line_edges(s: Seq<u8>, lo: int, hi: int, in_fence: bool)
    requires
        0 <= lo <= hi <= s.len() <= usize::MAX,
        ascii_edge(s, lo),
        ascii_edge(s, hi),
    ensures
        cut_at_ascii_edges(s, line_spans(s, lo, hi, in_fence)),
{
    lemma_inline_from_edges(s, lo, lo, hi);
    lemma_marker_end_bounds(s, lo, hi);
    if let Some(m) = marker_end(s, lo, hi) {
        assert(s[m - 1] == 0x20);
        lemma_inline_from_edges(s, m, m, hi);
        lemma_edges_concat(s, seq![span(lo, m, Style::Marker)], inline_spans(s, m, hi));
    }
}

proof fn lemma_spans_from_edges(s: Seq<u8>, lo: int, in_fence: bool)
    requires
        0 <= lo <= s.len() <= usize::MAX,
        ascii_edge(s, lo),
    ensures
        cut_at_ascii_edges(s, spans_from(s, lo, in_fence)),
    decreases s.len() - lo,
{
    lemma_find_bounds(s, lo, s.len() as int, newline());
    match find(s, lo, s.len() as int, newline()) {
        Some(e) => {
            assert(s[e + 0] == newline()[0]);
            lemma_line_edges(s, lo, e, in_fence);
            lemma_edges_concat(
                s,
                line_spans(s, lo, e, in_fence),
                seq![span(e, e + 1, Style::Text)],
            );
            let rest = if e + 1 >= s.len() {
                Seq::<Span>::empty()
            } else {
                spans_from(s, e + 1, fence_after(s, lo, e, in_fence))
            };
            if e + 1 < s.len() {
                lemma_spans_from_edges(s, e + 1, fence_after(s, lo, e, in_fence));
            }
            lemma_edges_concat(
                s,
                line_spans(s, lo, e, in_fence) + seq![span(e, e + 1, Style::Text)],
                rest,
            );
        },
        None => {
            lemma_line_edges(s, lo, s.len() as int, in_fence);
        },
    }
}

/// In valid UTF-8, the byte after an ASCII character starts a character.
proof fn lemma_boundary_after_ascii(bytes: Seq<u8>, i: int)
    requires
        vstd::utf8::valid_utf8(bytes),
        0 <= i < bytes.len(),
        vstd::utf8::is_char_boundary(bytes, i),
        bytes[i] < 0x80,
    ensures
        vstd::utf8::is_char_boundary(bytes, i + 1),
    decreases bytes.len(),
{
    let w = vstd::utf8::length_of_first_scalar(bytes);
    let rest = vstd::utf8::pop_first_scalar(bytes);
    if i == 0 {
        assert(w == 1);
        assert(vstd::utf8::is_char_boundary(rest, 0));
    } else {
        assert(vstd::utf8::is_char_boundary(rest, i - w));
        assert(i - w >= 0);
        assert(rest[i - w] == bytes[i]);
        lemma_boundary_after_ascii(rest, i - w);
    }
}

/// In valid UTF-8, every ASCII edge is a character boundary.
pub proof fn lemma_ascii_edge_is_char_boundary(s: Seq<u8>, k: int)
    requires
        vstd::utf8::valid_utf8(s),
        ascii_edge(s, k),
    ensures
        vstd::utf8::is_char_boundary(s, k),
{
    vstd::utf8::is_char_boundary_start_end_of_seq(s);
    if k == 0 || k == s.len() {
    } else if 0 <= k < s.len() && s[k] < 0x80 {
        vstd::utf8::is_char_boundary_iff_not_is_continuation_byte(s, k);
    } else {
        vstd::utf8::is_char_boundary_iff_not_is_continuation_byte(s, k - 1);
        lemma_boundary_after_ascii(s, k - 1);
    }
}

/// The highlighter cuts valid UTF-8 text only at character boundaries, so
/// every section is a slice of the text.
pub proof fn lemma_spans_on_char_boundaries(s: Seq<u8>)
    requires
        vstd::utf8::valid_utf8(s),
        s.len() <= usize::MAX,
    ensures
        forall|k: int|
            #![trigger highlight(s)[k]]
            0 <= k < highlight(s).len() ==> vstd::utf8::is_char_boundary(
                s,
                highlight(s)[k].start as int,
            ) && vstd::utf8::is_char_boundary(s, highlight(s)[k].end as int),
{
    lemma_spans_from_edges(s, 0, false);
    assert forall|k: int|
        #![trigger highlight(s)[k]]
        0 <= k < highlight(s).len() implies vstd::utf8::is_char_boundary(
        s,
        highlight(s)[k].start as int,
    ) && vstd::utf8::is_char_boundary(s, highlight(s)[k].end as int) by {
        assert(ascii_edge(s, highlight(s)[k].start as int));
        lemma_ascii_edge_is_char_boundary(s, highlight(s)[k].start as int);
        lemma_ascii_edge_is_char_boundary(s, highlight(s)[k].end as int);
    }
}

/// `sp` is a single line break, or holds no line break.
pub open spec fn within_line(s: Seq<u8>, sp: Span) -> bool {
    ||| (sp.style == Style::Text && sp.end == sp.start + 1 && s[sp.start as int] == 0x0a)
    ||| forall|q: int| sp.start <= q < sp.end ==> s[q] != 0x0a
}

proof fn lemma_no_break_before_find(s: Seq<u8>, lo: int, q: int)
    requires
        0 <= lo <= q < s.len(),
        !occurs_at(s, q, s.len() as int, newline()),
    ensures
        s[q] != 0x0a,
{
    if s[q] == 0x0a {
        assert forall|j: int| 0 <= j < newline().len() implies #[trigger] s[q + j] == newline()[j] by {
            assert(j == 0);
        }
        assert(occurs_at(s, q, s.len() as int, newline()));
    }
}

proof fn lemma_tiles_break_free(s: Seq<u8>, sp: Seq<Span>, lo: int, hi: int)
    requires
        tiles(sp, lo, hi),
        forall|q: int| lo <= q < hi ==> s[q] != 0x0a,
    ensures
        forall|k: int| 0 <= k < sp.len() ==> within_line(s, #[trigger] sp[k]),
{
    assert forall|k: int| 0 <= k < sp.len() implies within_line(s, #[trigger] sp[k]) by {
        assert(lo <= sp[k].start <= sp[k].end <= hi);
    }
}

proof fn lemma_spans_from_within_lines(s: Seq<u8>, lo: int, in_fence: bool)
    requires
        0 <= lo <= s.len() <= usize::MAX,
    ensures
        forall|k: int|
            0 <= k < spans_from(s, lo, in_fence).len() ==> within_line(
                s,
                #[trigger] spans_from(s, lo, in_fence)[k],
            ),
    decreases s.len() - lo,
{
    lemma_find_bounds(s, lo, s.len() as int, newline());
    match find(s, lo, s.len() as int, newline()) {
        Some(e) => {
            assert(s[e + 0] == newline()[0]);
            lemma_line_tiles(s, lo, e, in_fence);
            assert forall|q: int| lo <= q < e implies s[q] != 0x0a by {
                lemma_no_break_before_find(s, lo, q);
            }
            let line = line_spans(s, lo, e, in_fence);
            lemma_tiles_break_free(s, line, lo, e);
            let brk = seq![span(e, e + 1, Style::Text)];
            let rest = if e + 1 >= s.len() {
                Seq::<Span>::empty()
            } else {
                spans_from(s, e + 1, fence_after(s, lo, e, in_fence))
            };
            if e + 1 < s.len() {
                lemma_spans_from_within_lines(s, e + 1, fence_after(s, lo, e, in_fence));
            }
            let all = line + brk + rest;
            assert(spans_from(s, lo, in_fence) == all);
            assert forall|k: int| 0 <= k < all.len() implies within_line(s, #[trigger] all[k]) by {
                if k < line.len() {
                    assert(all[k] == line[k]);
                } else if k == line.len() {
                    assert(all[k] == brk[0]);
                } else {
                    assert(all[k] == rest[k - line.len() - 1]);
                }
            }
        },
        None => {
            lemma_line_tiles(s, lo, s.len() as int, in_fence);
            assert forall|q: int| lo <= q < s.len() implies s[q] != 0x0a by {
                lemma_no_break_before_find(s, lo, q);
            }
            lemma_tiles_break_free(s, line_spans(s, lo, s.len() as int, in_fence), lo, s.len() as int);
        },
    }
}

/// Highlighting is line-based: every line break is a plain section of its
/// own, and no other section runs across one.
pub proof fn lemma_sections_stay_within_lines(s: Seq<u8>)
    requires
        s.len() <= usize::MAX,
    ensures
        forall|k: int| 0 <= k < highlight(s).len() ==> within_line(s, #[trigger] highlight(s)[k]),
{
    lemma_spans_from_within_lines(s, 0, false);
}

/// The theme changes colors only: in the light and the dark theme a text
/// has the same sections, each with the same byte range, slant and size.
pub proof fn lemma_theme_changes_only_colors(s: Seq<u8>)
    ensures
        sections_of(s, true).len() == sections_of(s, false).len(),
        forall|k: int|
            #![trigger sections_of(s, true)[k]]
            0 <= k < sections_of(s, true).len() ==> {
                let a = sections_of(s, true)[k];
                let b = sections_of(s, false)[k];
                &&& a.start == b.start
                &&& a.end == b.end
                &&& a.format.italics == b.format.italics
                &&& a.format.size == b.format.size
            },
{
    assert forall|k: int|
        #![trigger sections_of(s, true)[k]]
        0 <= k < sections_of(s, true).len() implies {
        let a = sections_of(s, true)[k];
        let b = sections_of(s, false)[k];
        &&& a.start == b.start
        &&& a.end == b.end
        &&& a.format.italics == b.format.italics
        &&& a.format.size == b.format.size
    } by {
        assert(sections_of(s, true)[k] == section_of(highlight(s)[k], true));
        assert(sections_of(s, false)[k] == section_of(highlight(s)[k], false));
    }
}

/// Every inline piece of a line is non-empty: plain runs, code, bold and
/// italic spans, and the text and url parts of links.
pub proof fn lemma_inline_pieces_nonempty(s: Seq<u8>, i: int, pending: int, hi: int)
    requires
        0 <= pending <= i <= hi <= usize::MAX,
    ensures
        forall|k: int|
            #![trigger inline_from(s, i, pending, hi)[k]]
            0 <= k < inline_from(s, i, pending, hi).len() ==> inline_from(s, i, pending, hi)[k].start
                < inline_from(s, i, pending, hi)[k].end,
    decreases hi - i,
{
    let r = inline_from(s, i, pending, hi);
    if i >= hi {
    } else {
        lemma_inline_match_bounds(s, i, hi);
        match link_at(s, i, hi) {
            Some((te, ue)) => {
                lemma_inline_pieces_nonempty(s, ue, ue, hi);
                let head = plain(pending, i) + seq![span(i, te, Style::Link), span(te, ue, Style::Url)];
                let tail = inline_from(s, ue, ue, hi);
                assert(r == head + tail);
                assert forall|k: int| 0 <= k < r.len() implies #[trigger] r[k].start < r[k].end by {
                    if k >= head.len() {
                        assert(r[k] == tail[k - head.len()]);
                    }
                }
            },
            None => match emphasis_at(s, i, hi) {
                Some((e, style)) => {
                    lemma_inline_pieces_nonempty(s, e, e, hi);
                    let head = plain(pending, i) + seq![span(i, e, style)];
                    let tail = inline_from(s, e, e, hi);
                    assert(r == head + tail);
                    assert forall|k: int| 0 <= k < r.len() implies #[trigger] r[k].start
                        < r[k].end by {
                        if k >= head.len() {
                            assert(r[k] == tail[k - head.len()]);
                        }
                    }
                },
                None => {
                    lemma_inline_pieces_nonempty(s, i + 1, pending, hi);
                },
            },
        }
    }
}

} // verus!
