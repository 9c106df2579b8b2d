//! Highlighting is local: what the highlighter says of a window of the text
//! depends on the bytes of that window alone, wherever it stands. So texts
//! compose: joining two texts with a line break joins their layouts, as
//! long as the first one does not leave a code fence open.

use crate::blocks::{
    bullet_end, checkbox_at, fence_at, heading_at, lemma_marker_end_bounds, marker_end, rule_at,
    rule_of,
};
use crate::highlight::{
    fence_after, highlight, line_spans, newline, section_of, sections_of, spans_from, LayoutSection,
};
use crate::inline::{
    backtick, close_paren, closing, double_star, emphasis_at, inline_from, inline_spans,
    lemma_inline_match_bounds, link_at, link_middle, plain, span, star, Span,
};
use crate::scan::{
    digits_end, find, lemma_digits_end_bounds, lemma_find_bounds, lemma_run_end_bounds,
    lemma_skip_ws_bounds, lemma_ws_width_bounds, occurs_at, run_end, skip_ws, ws_width,
};
use crate::style::{format_of, Style};
use vstd::prelude::*;

verus! {

/// The window `[lo, hi)` of `s1` stands in `s2` moved `d` bytes on.
pub open spec fn agree(s1: Seq<u8>, s2: Seq<u8>, lo: int, hi: int, d: int) -> bool {
    forall|q: int| lo <= q < hi ==> #[trigger] s1[q] == s2[q + d]
}

/// A span moved `d` bytes on.
pub open spec fn shift_span(sp: Span, d: int) -> Span {
    span(sp.start + d, sp.end + d, sp.style)
}

/// Spans moved `d` bytes on.
pub open spec fn shift(sp: Seq<Span>, d: int) -> Seq<Span> {
    sp.map_values(|x: Span| shift_span(x, d))
}

pub open spec fn shift_pos(o: Option<int>, d: int) -> Option<int> {
    match o {
        Some(x) => Some(x + d),
        None => None,
    }
}

proof fn lemma_shift_concat(a: Seq<Span>, b: Seq<Span>, d: int)
    ensures
        shift(a + b, d) == shift(a, d) + shift(b, d),
{
    assert(shift(a + b, d) =~= shift(a, d) + shift(b, d));
}

proof fn lemma_shift_span(a: int, b: int, style: Style, d: int)
    requires
        0 <= a <= usize::MAX,
        0 <= b <= usize::MAX,
    ensures
        shift_span(span(a, b, style), d) == span(a + d, b + d, style),
{
}

proof fn lemma_shift_plain(a: int, b: int, d: int)
    requires
        0 <= a <= usize::MAX,
        0 <= b <= usize::MAX,
    ensures
        shift(plain(a, b), d) == plain(a + d, b + d),
{
    assert(shift(plain(a, b), d) =~= plain(a + d, b + d));
}

proof fn lemma_shift_zero(sp: Seq<Span>)
    ensures
        shift(sp, 0) == sp,
{
    assert(shift(sp, 0) =~= sp);
}

proof fn lemma_ws_width_moves(s1: Seq<u8>, s2: Seq<u8>, lo: int, i: int, hi: int, d: int)
    requires
        agree(s1, s2, lo, hi, d),
        lo <= i,
    ensures
        ws_width(s2, i + d, hi + d) == ws_width(s1, i, hi),
{
    if i < hi {
        assert(s1[i] == s2[i + d]);
    }
    if i + 1 < hi {
        assert(s1[i + 1] == s2[(i + 1) + d]);
    }
    if i + 2 < hi {
        assert(s1[i + 2] == s2[(i + 2) + d]);
    }
}

proof fn lemma_skip_ws_moves(s1: Seq<u8>, s2: Seq<u8>, lo: int, i: int, hi: int, d: int)
    requires
        agree(s1, s2, lo, hi, d),
        lo <= i,
    ensures
        skip_ws(s2, i + d, hi + d) == skip_ws(s1, i, hi) + d,
    decreases hi - i,
{
    lemma_ws_width_moves(s1, s2, lo, i, hi, d);
    lemma_ws_width_bounds(s1, i, hi);
    if i < hi && ws_width(s1, i, hi) > 0 {
        let w = ws_width(s1, i, hi);
        lemma_skip_ws_moves(s1, s2, lo, i + w, hi, d);
        assert(i + d + w == (i + w) + d);
    }
}

proof fn lemma_run_end_moves(s1: Seq<u8>, s2: Seq<u8>, lo: int, i: int, hi: int, c: u8, d: int)
    requires
        agree(s1, s2, lo, hi, d),
        lo <= i,
    ensures
        run_end(s2, i + d, hi + d, c) == run_end(s1, i, hi, c) + d,
    decreases hi - i,
{
    if i < hi {
        assert(s1[i] == s2[i + d]);
        if s1[i] == c {
            lemma_run_end_moves(s1, s2, lo, i + 1, hi, c, d);
            assert(i + d + 1 == (i + 1) + d);
        }
    }
}

proof fn lemma_digits_end_moves(s1: Seq<u8>, s2: Seq<u8>, lo: int, i: int, hi: int, d: int)
    requires
        agree(s1, s2, lo, hi, d),
        lo <= i,
    ensures
        digits_end(s2, i + d, hi + d) == digits_end(s1, i, hi) + d,
    decreases hi - i,
{
    if i < hi {
        assert(s1[i] == s2[i + d]);
        if 0x30 <= s1[i] && s1[i] <= 0x39 {
            lemma_digits_end_moves(s1, s2, lo, i + 1, hi, d);
            assert(i + d + 1 == (i + 1) + d);
        }
    }
}

proof fn lemma_occurs_at_moves(
    s1: Seq<u8>,
    s2: Seq<u8>,
    lo: int,
    k: int,
    hi: int,
    p: Seq<u8>,
    d: int,
)
    requires
        agree(s1, s2, lo, hi, d),
        0 <= lo <= k,
        0 <= d,
    ensures
        occurs_at(s2, k + d, hi + d, p) == occurs_at(s1, k, hi, p),
{
    if k + p.len() <= hi {
        assert forall|j: int| 0 <= j < p.len() implies #[trigger] s2[(k + d) + j] == s1[k + j] by {
            assert(s1[k + j] == s2[(k + j) + d]);
            assert((k + d) + j == (k + j) + d);
        }
        if occurs_at(s1, k, hi, p) {
            assert forall|j: int| 0 <= j < p.len() implies #[trigger] s2[(k + d) + j] == p[j] by {
                assert(s1[k + j] == p[j]);
            }
        }
        if occurs_at(s2, k + d, hi + d, p) {
            assert forall|j: int| 0 <= j < p.len() implies #[trigger] s1[k + j] == p[j] by {
                assert(s2[(k + d) + j] == p[j]);
            }
        }
    }
}

proof fn lemma_find_moves(s1: Seq<u8>, s2: Seq<u8>, lo: int, k: int, hi: int, p: Seq<u8>, d: int)
    requires
        agree(s1, s2, lo, hi, d),
        0 <= lo <= k,
        0 <= d,
    ensures
        find(s2, k + d, hi + d, p) == shift_pos(find(s1, k, hi, p), d),
    decreases hi - k,
{
    if k + p.len() > hi {
    } else {
        lemma_occurs_at_moves(s1, s2, lo, k, hi, p, d);
        if !occurs_at(s1, k, hi, p) {
            lemma_find_moves(s1, s2, lo, k + 1, hi, p, d);
            assert(k + d + 1 == (k + 1) + d);
        }
    }
}

proof fn lemma_closing_moves(s1: Seq<u8>, s2: Seq<u8>, lo: int, k: int, hi: int, p: Seq<u8>, d: int)
    requires
        agree(s1, s2, lo, hi, d),
        0 <= lo <= k,
        0 <= d,
    ensures
        closing(s2, k + d, hi + d, p) == shift_pos(closing(s1, k, hi, p), d),
{
    lemma_find_moves(s1, s2, lo, k, hi, p, d);
}

proof fn lemma_emphasis_moves(s1: Seq<u8>, s2: Seq<u8>, lo: int, i: int, hi: int, d: int)
    requires
        agree(s1, s2, lo, hi, d),
        0 <= lo <= i < hi,
        0 <= d,
    ensures
        emphasis_at(s2, i + d, hi + d) == (match emphasis_at(s1, i, hi) {
            Some((e, st)) => Some((e + d, st)),
            None => None,
        }),
{
    assert(s1[i] == s2[i + d]);
    if i + 1 < hi {
        assert(s1[i + 1] == s2[(i + 1) + d]);
    }
    lemma_closing_moves(s1, s2, lo, i + 1, hi, backtick(), d);
    lemma_closing_moves(s1, s2, lo, i + 2, hi, double_star(), d);
    lemma_closing_moves(s1, s2, lo, i + 1, hi, star(), d);
    assert(i + d + 1 == (i + 1) + d);
    assert(i + d + 2 == (i + 2) + d);
}

proof fn lemma_link_moves(s1: Seq<u8>, s2: Seq<u8>, lo: int, i: int, hi: int, d: int)
    requires
        agree(s1, s2, lo, hi, d),
        0 <= lo <= i < hi,
        0 <= d,
    ensures
        link_at(s2, i + d, hi + d) == (match link_at(s1, i, hi) {
            Some((te, ue)) => Some((te + d, ue + d)),
            None => None,
        }),
{
    assert(s1[i] == s2[i + d]);
    lemma_find_moves(s1, s2, lo, i, hi, link_middle(), d);
    lemma_find_bounds(s1, i, hi, link_middle());
    if let Some(m) = find(s1, i, hi, link_middle()) {
        lemma_find_moves(s1, s2, lo, m + 2, hi, close_paren(), d);
        assert(m + d + 2 == (m + 2) + d);
    }
}

proof fn lemma_inline_moves(s1: Seq<u8>, s2: Seq<u8>, lo: int, i: int, pending: int, hi: int, d: int)
    requires
        agree(s1, s2, lo, hi, d),
        0 <= lo <= pending <= i <= hi <= usize::MAX,
        0 <= d,
    ensures
        inline_from(s2, i + d, pending + d, hi + d) == shift(inline_from(s1, i, pending, hi), d),
    decreases hi - i,
{
    if i >= hi {
        lemma_shift_plain(pending, hi, d);
    } else {
        lemma_inline_match_bounds(s1, i, hi);
        lemma_link_moves(s1, s2, lo, i, hi, d);
        lemma_emphasis_moves(s1, s2, lo, i, hi, d);
        lemma_shift_plain(pending, i, d);
        match link_at(s1, i, hi) {
            Some((te, ue)) => {
                lemma_inline_moves(s1, s2, lo, ue, ue, hi, d);
                let mid = seq![span(i, te, Style::Link), span(te, ue, Style::Url)];
                assert(shift(mid, d) =~= seq![
                    span(i + d, te + d, Style::Link),
                    span(te + d, ue + d, Style::Url),
                ]);
                lemma_shift_concat(plain(pending, i), mid, d);
                lemma_shift_concat(plain(pending, i) + mid, inline_from(s1, ue, ue, hi), d);
            },
            None => match emphasis_at(s1, i, hi) {
                Some((e, style)) => {
                    lemma_inline_moves(s1, s2, lo, e, e, hi, d);
                    let mid = seq![span(i, e, style)];
                    assert(shift(mid, d) =~= seq![span(i + d, e + d, style)]);
                    lemma_shift_concat(plain(pending, i), mid, d);
                    lemma_shift_concat(plain(pending, i) + mid, inline_from(s1, e, e, hi), d);
                },
                None => {
                    lemma_inline_moves(s1, s2, lo, i + 1, pending, hi, d);
                    assert(i + d + 1 == (i + 1) + d);
                },
            },
        }
    }
}

proof fn lemma_marker_end_moves(s1: Seq<u8>, s2: Seq<u8>, lo: int, hi: int, d: int)
    requires
        agree(s1, s2, lo, hi, d),
        0 <= lo <= hi,
        0 <= d,
    ensures
        marker_end(s2, lo + d, hi + d) == shift_pos(marker_end(s1, lo, hi), d),
{
    lemma_skip_ws_moves(s1, s2, lo, lo, hi, d);
    lemma_skip_ws_bounds(s1, lo, hi);
    let t = skip_ws(s1, lo, hi);
    lemma_digits_end_moves(s1, s2, lo, t, hi, d);
    lemma_digits_end_bounds(s1, t, hi);
    let dd = digits_end(s1, t, hi);
    if t < hi {
        assert(s1[t] == s2[t + d]);
    }
    if t + 1 < hi {
        assert(s1[t + 1] == s2[(t + 1) + d]);
    }
    if dd < hi {
        assert(s1[dd] == s2[dd + d]);
    }
    if dd + 1 < hi {
        assert(s1[dd + 1] == s2[(dd + 1) + d]);
    }
    if let Some(a) = bullet_end(s1, t, hi) {
        assert(bullet_end(s2, t + d, hi + d) == Some(a + d));
        if a + 4 <= hi {
            assert(s1[a] == s2[a + d]);
            assert(s1[a + 1] == s2[(a + 1) + d]);
            assert(s1[a + 2] == s2[(a + 2) + d]);
            assert(s1[a + 3] == s2[(a + 3) + d]);
        }
        assert(checkbox_at(s2, a + d, hi + d) == checkbox_at(s1, a, hi));
    } else {
        assert(bullet_end(s2, t + d, hi + d) is None);
    }
}

proof fn lemma_line_moves(s1: Seq<u8>, s2: Seq<u8>, lo: int, hi: int, in_fence: bool, d: int)
    requires
        agree(s1, s2, lo, hi, d),
        0 <= lo <= hi <= usize::MAX,
        0 <= d,
    ensures
        line_spans(s2, lo + d, hi + d, in_fence) == shift(line_spans(s1, lo, hi, in_fence), d),
        fence_after(s2, lo + d, hi + d, in_fence) == fence_after(s1, lo, hi, in_fence),
{
    lemma_skip_ws_moves(s1, s2, lo, lo, hi, d);
    lemma_skip_ws_bounds(s1, lo, hi);
    let t = skip_ws(s1, lo, hi);
    if t < hi {
        assert(s1[t] == s2[t + d]);
    }
    if t + 2 < hi {
        assert(s1[t + 1] == s2[(t + 1) + d]);
        assert(s1[t + 2] == s2[(t + 2) + d]);
    }
    assert(fence_at(s2, t + d, hi + d) == fence_at(s1, t, hi));
    lemma_run_end_moves(s1, s2, lo, t, hi, 0x23, d);
    lemma_run_end_bounds(s1, t, hi, 0x23);
    let h = run_end(s1, t, hi, 0x23);
    if h < hi {
        assert(s1[h] == s2[h + d]);
    }
    assert(heading_at(s2, t + d, hi + d) == heading_at(s1, t, hi));
    lemma_run_end_moves(s1, s2, lo, t, hi, 0x2d, d);
    lemma_run_end_moves(s1, s2, lo, t, hi, 0x2a, d);
    lemma_run_end_moves(s1, s2, lo, t, hi, 0x5f, d);
    lemma_run_end_bounds(s1, t, hi, 0x2d);
    lemma_run_end_bounds(s1, t, hi, 0x2a);
    lemma_run_end_bounds(s1, t, hi, 0x5f);
    lemma_skip_ws_moves(s1, s2, lo, run_end(s1, t, hi, 0x2d), hi, d);
    lemma_skip_ws_moves(s1, s2, lo, run_end(s1, t, hi, 0x2a), hi, d);
    lemma_skip_ws_moves(s1, s2, lo, run_end(s1, t, hi, 0x5f), hi, d);
    assert(rule_of(s2, t + d, hi + d, 0x2d) == rule_of(s1, t, hi, 0x2d));
    assert(rule_of(s2, t + d, hi + d, 0x2a) == rule_of(s1, t, hi, 0x2a));
    assert(rule_of(s2, t + d, hi + d, 0x5f) == rule_of(s1, t, hi, 0x5f));
    assert(rule_at(s2, t + d, hi + d) == rule_at(s1, t, hi));
    lemma_marker_end_moves(s1, s2, lo, hi, d);
    lemma_marker_end_bounds(s1, lo, hi);
    lemma_inline_moves(s1, s2, lo, lo, lo, hi, d);
    lemma_shift_span(lo, hi, Style::Marker, d);
    lemma_shift_span(lo, hi, Style::Code, d);
    lemma_shift_span(lo, hi, Style::Heading, d);
    lemma_shift_span(lo, hi, Style::Quote, d);
    assert(shift(seq![span(lo, hi, Style::Marker)], d) =~= seq![span(lo + d, hi + d, Style::Marker)]);
    assert(shift(seq![span(lo, hi, Style::Code)], d) =~= seq![span(lo + d, hi + d, Style::Code)]);
    assert(shift(seq![span(lo, hi, Style::Heading)], d) =~= seq![
        span(lo + d, hi + d, Style::Heading),
    ]);
    assert(shift(seq![span(lo, hi, Style::Quote)], d) =~= seq![span(lo + d, hi + d, Style::Quote)]);
    if let Some(m) = marker_end(s1, lo, hi) {
        lemma_inline_moves(s1, s2, lo, m, m, hi, d);
        assert(shift(seq![span(lo, m, Style::Marker)], d) =~= seq![
            span(lo + d, m + d, Style::Marker),
        ]);
        lemma_shift_concat(seq![span(lo, m, Style::Marker)], inline_spans(s1, m, hi), d);
    }
}

proof fn lemma_agree_within(s1: Seq<u8>, s2: Seq<u8>, lo: int, mid: int, hi: int, d: int)
    requires
        agree(s1, s2, lo, hi, d),
        mid <= hi,
    ensures
        agree(s1, s2, lo, mid, d),
{
}

pub proof fn lemma_occurs_newline(s: Seq<u8>, q: int, hi: int)
    requires
        0 <= q < hi,
    ensures
        occurs_at(s, q, hi, newline()) <==> s[q] == 0x0a,
{
    if s[q] == 0x0a {
        assert forall|j: int| 0 <= j < newline().len() implies #[trigger] s[q + j] == newline()[j] by {
            assert(j == 0);
        }
    }
    if occurs_at(s, q, hi, newline()) {
        assert(s[q + 0] == newline()[0]);
    }
}

/// `find` gives the first occurrence: one at `r` with none before it.
pub proof fn lemma_find_first(s: Seq<u8>, k: int, hi: int, p: Seq<u8>, r: int)
    requires
        0 <= k <= r,
        occurs_at(s, r, hi, p),
        forall|q: int| k <= q < r ==> !#[trigger] occurs_at(s, q, hi, p),
    ensures
        find(s, k, hi, p) == Some(r),
{
    lemma_find_bounds(s, k, hi, p);
}

/// An empty line outside a code fence has no spans.
proof fn lemma_empty_line(s: Seq<u8>, k: int)
    requires
        0 <= k,
    ensures
        line_spans(s, k, k, false) == Seq::<Span>::empty(),
{
    assert(skip_ws(s, k, k) == k);
    assert(run_end(s, k, k, 0x2d) == k);
    assert(run_end(s, k, k, 0x2a) == k);
    assert(run_end(s, k, k, 0x5f) == k);
    assert(digits_end(s, k, k) == k);
    assert(marker_end(s, k, k) is None);
    assert(inline_spans(s, k, k) == plain(k, k));
}

/// The spans from `lo` on of a text that stands moved `d` bytes on at the
/// end of another are its own spans, moved.
proof fn lemma_spans_from_moves(s1: Seq<u8>, s2: Seq<u8>, lo: int, in_fence: bool, d: int)
    requires
        0 <= lo <= s1.len(),
        0 <= d,
        s2.len() == s1.len() + d,
        s2.len() <= usize::MAX,
        agree(s1, s2, lo, s1.len() as int, d),
    ensures
        spans_from(s2, lo + d, in_fence) == shift(spans_from(s1, lo, in_fence), d),
    decreases s1.len() - lo,
{
    let n1 = s1.len() as int;
    lemma_find_moves(s1, s2, lo, lo, n1, newline(), d);
    lemma_find_bounds(s1, lo, n1, newline());
    match find(s1, lo, n1, newline()) {
        Some(e) => {
            lemma_agree_within(s1, s2, lo, e, n1, d);
            lemma_line_moves(s1, s2, lo, e, in_fence, d);
            let line = line_spans(s1, lo, e, in_fence);
            let brk = seq![span(e, e + 1, Style::Text)];
            assert(shift(brk, d) =~= seq![span(e + d, e + d + 1, Style::Text)]);
            lemma_shift_concat(line, brk, d);
            let next = fence_after(s1, lo, e, in_fence);
            if e + 1 < n1 {
                lemma_spans_from_moves(s1, s2, e + 1, next, d);
                assert(e + d + 1 == (e + 1) + d);
                lemma_shift_concat(line + brk, spans_from(s1, e + 1, next), d);
            } else {
                assert(shift(Seq::<Span>::empty(), d) =~= Seq::<Span>::empty());
                assert(line + brk + Seq::<Span>::empty() =~= line + brk);
                assert(shift(line, d) + shift(brk, d) + Seq::<Span>::empty() =~= shift(line, d)
                    + shift(brk, d));
            }
        },
        None => {
            lemma_line_moves(s1, s2, lo, n1, in_fence, d);
        },
    }
}

/// Whether the text after the lines from `lo` on lies inside a code fence.
pub open spec fn fence_state(s: Seq<u8>, lo: int, in_fence: bool) -> bool
    decreases s.len() - lo,
{
    match find(s, lo, s.len() as int, newline()) {
        Some(e) => {
            proof {
                if lo >= 0 {
                    lemma_find_bounds(s, lo, s.len() as int, newline());
                }
            }
            if e + 1 >= s.len() {
                fence_after(s, lo, e, in_fence)
            } else {
                fence_state(s, e + 1, fence_after(s, lo, e, in_fence))
            }
        },
        None => fence_after(s, lo, s.len() as int, in_fence),
    }
}

/// The text ends inside a code fence: it has an odd number of fence lines.
pub open spec fn leaves_fence_open(s: Seq<u8>) -> bool {
    fence_state(s, 0, false)
}

/// The text `a`, a line break, and the text `b`.
pub open spec fn joined(a: Seq<u8>, b: Seq<u8>) -> Seq<u8> {
    a + seq![0x0au8] + b
}

/// What follows the line break at `n` in `joined(a, b)`: its span, then
/// the spans of `b`, moved past it.
proof fn lemma_after_break(a: Seq<u8>, b: Seq<u8>)
    requires
        joined(a, b).len() <= usize::MAX,
    ensures
        ({
            let c = joined(a, b);
            let n = a.len() as int;
            (if n + 1 >= c.len() {
                Seq::<Span>::empty()
            } else {
                spans_from(c, n + 1, false)
            }) == shift(highlight(b), n + 1)
        }),
{
    let c = joined(a, b);
    let n = a.len() as int;
    if n + 1 >= c.len() {
        assert(b.len() == 0);
        assert(find(b, 0, 0, newline()) is None);
        lemma_empty_line(b, 0);
        assert(highlight(b) == line_spans(b, 0, 0, false));
        assert(shift(Seq::<Span>::empty(), n + 1) =~= Seq::<Span>::empty());
    } else {
        assert forall|q: int| 0 <= q < b.len() implies #[trigger] b[q] == c[q + (n + 1)] by {
        }
        lemma_spans_from_moves(b, c, 0, false, n + 1);
    }
}

/// The first line from `lo` of `joined(a, b)` is the first line from `lo`
/// of `a`, ending at `e`: at a line break of `a`, or at the inserted one.
proof fn lemma_join_first_line(a: Seq<u8>, b: Seq<u8>, lo: int, in_fence: bool, e: int)
    requires
        0 <= lo <= e <= a.len(),
        e < a.len() ==> a[e] == 0x0a,
        forall|q: int| lo <= q < e ==> #[trigger] a[q] != 0x0a,
        joined(a, b).len() <= usize::MAX,
    ensures
        find(joined(a, b), lo, joined(a, b).len() as int, newline()) == Some(e),
        line_spans(joined(a, b), lo, e, in_fence) == line_spans(a, lo, e, in_fence),
        fence_after(joined(a, b), lo, e, in_fence) == fence_after(a, lo, e, in_fence),
{
    let c = joined(a, b);
    let n = a.len() as int;
    let cn = c.len() as int;
    assert(c[e] == 0x0a);
    lemma_occurs_newline(c, e, cn);
    assert forall|q: int| lo <= q < e implies !#[trigger] occurs_at(c, q, cn, newline()) by {
        assert(a[q] == c[q]);
        lemma_occurs_newline(c, q, cn);
    }
    lemma_find_first(c, lo, cn, newline(), e);
    assert forall|q: int| lo <= q < e implies #[trigger] a[q] == c[q + 0] by {
    }
    lemma_line_moves(a, c, lo, e, in_fence, 0);
    lemma_shift_zero(line_spans(a, lo, e, in_fence));
}

/// The first line break at or after `lo`, and none before it.
proof fn lemma_newline_facts(s: Seq<u8>, lo: int)
    requires
        0 <= lo <= s.len(),
    ensures
        find(s, lo, s.len() as int, newline()) matches Some(e) ==> lo <= e < s.len() && s[e]
            == 0x0a && forall|q: int| lo <= q < e ==> #[trigger] s[q] != 0x0a,
        find(s, lo, s.len() as int, newline()) is None ==> forall|q: int|
            lo <= q < s.len() ==> #[trigger] s[q] != 0x0a,
{
    let n = s.len() as int;
    lemma_find_bounds(s, lo, n, newline());
    if let Some(e) = find(s, lo, n, newline()) {
        lemma_occurs_newline(s, e, n);
        assert forall|q: int| lo <= q < e implies #[trigger] s[q] != 0x0a by {
            lemma_occurs_newline(s, q, n);
        }
    } else {
        assert forall|q: int| lo <= q < n implies #[trigger] s[q] != 0x0a by {
            lemma_occurs_newline(s, q, n);
        }
    }
}

#[verifier::rlimit(50)]
proof fn lemma_join_from(a: Seq<u8>, b: Seq<u8>, lo: int, in_fence: bool)
    requires
        0 <= lo <= a.len(),
        joined(a, b).len() <= usize::MAX,
        !fence_state(a, lo, in_fence),
    ensures
        spans_from(joined(a, b), lo, in_fence) == spans_from(a, lo, in_fence) + seq![
            span(a.len() as int, a.len() as int + 1, Style::Text),
        ] + shift(highlight(b), a.len() as int + 1),
    decreases a.len() - lo,
{
    let c = joined(a, b);
    let n = a.len() as int;
    let cn = c.len() as int;
    let brk_n = seq![span(n, n + 1, Style::Text)];
    let moved_b = shift(highlight(b), n + 1);
    lemma_after_break(a, b);
    let tail = if n + 1 >= cn {
        Seq::<Span>::empty()
    } else {
        spans_from(c, n + 1, false)
    };
    assert(tail == moved_b);
    lemma_newline_facts(a, lo);
    match find(a, lo, n, newline()) {
        Some(e) => {
            lemma_join_first_line(a, b, lo, in_fence, e);
            let line = line_spans(a, lo, e, in_fence);
            let next = fence_after(a, lo, e, in_fence);
            let brk_e = seq![span(e, e + 1, Style::Text)];
            assert(spans_from(c, lo, in_fence) == line + brk_e + spans_from(c, e + 1, next));
            if e + 1 < n {
                assert(spans_from(a, lo, in_fence) == line + brk_e + spans_from(a, e + 1, next));
                assert(!fence_state(a, e + 1, next));
                lemma_join_from(a, b, e + 1, next);
                assert(spans_from(c, lo, in_fence) =~= spans_from(a, lo, in_fence) + brk_n
                    + moved_b);
            } else {
                assert(spans_from(a, lo, in_fence) == line + brk_e + Seq::<Span>::empty());
                assert(!next);
                lemma_join_first_line(a, b, n, false, n);
                lemma_empty_line(a, n);
                assert(spans_from(c, n, false) == line_spans(c, n, n, false) + brk_n + tail);
                assert(spans_from(c, lo, in_fence) =~= spans_from(a, lo, in_fence) + brk_n
                    + moved_b);
            }
        },
        None => {
            lemma_join_first_line(a, b, lo, in_fence, n);
            assert(spans_from(a, lo, in_fence) == line_spans(a, lo, n, in_fence));
            assert(spans_from(c, lo, in_fence) == line_spans(c, lo, n, in_fence) + brk_n + tail);
        },
    }
}

/// Joining two texts with a line break joins their layouts: unless the
/// first text leaves a code fence open, the spans of `a`, a line break and
/// `b` are those of `a`, a plain span for the line break, and those of `b`
/// moved past it.
pub proof fn lemma_join_lines(a: Seq<u8>, b: Seq<u8>)
    requires
        !leaves_fence_open(a),
        a.len() + 1 + b.len() <= usize::MAX,
    ensures
        highlight(joined(a, b)) == highlight(a) + seq![
            span(a.len() as int, a.len() as int + 1, Style::Text),
        ] + shift(highlight(b), a.len() as int + 1),
{
    lemma_join_from(a, b, 0, false);
}

/// A section moved `d` bytes on.
pub open spec fn shift_section(x: LayoutSection, d: int) -> LayoutSection {
    LayoutSection { start: (x.start + d) as usize, end: (x.end + d) as usize, format: x.format }
}

/// The same law for the sections of `layout_job`: the layout of `a`, a line
/// break and `b` is the layout of `a`, a plain section for the line break,
/// and the layout of `b` moved past it.
pub proof fn lemma_join_layouts(a: Seq<u8>, b: Seq<u8>, dark: bool)
    requires
        !leaves_fence_open(a),
        a.len() + 1 + b.len() <= usize::MAX,
    ensures
        sections_of(joined(a, b), dark) == sections_of(a, dark) + seq![
            LayoutSection {
                start: a.len() as usize,
                end: (a.len() + 1) as usize,
                format: format_of(Style::Text, dark),
            },
        ] + sections_of(b, dark).map_values(|x: LayoutSection| shift_section(x, a.len() as int + 1)),
{
    let d = a.len() as int + 1;
    lemma_join_lines(a, b);
    let f = |sp: Span| section_of(sp, dark);
    let brk = seq![span(a.len() as int, d, Style::Text)];
    let lhs = (highlight(a) + brk + shift(highlight(b), d)).map_values(f);
    let rhs = sections_of(a, dark) + seq![
        LayoutSection {
            start: a.len() as usize,
            end: (a.len() + 1) as usize,
            format: format_of(Style::Text, dark),
        },
    ] + sections_of(b, dark).map_values(|x: LayoutSection| shift_section(x, d));
    assert(lhs =~= rhs);
}

} // verus!
