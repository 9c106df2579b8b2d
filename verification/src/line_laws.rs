//! What each kind of Markdown line becomes, stated over the bytes of the
//! line: block quotes, headings, code fences and the lines between them,
//! list markers, and which formats stand out from plain text.

use crate::blocks::marker_end;
use crate::compose::{lemma_find_first, lemma_occurs_newline};
use crate::highlight::{highlight, newline, spans_from};
use crate::inline::{inline_from, inline_spans, span};
use crate::scan::{
    digits_end, find, lemma_find_bounds, lemma_skip_ws_bounds, occurs_at, run_end, skip_ws,
};
use crate::style::{format_of, palette_of, FontSize, Style};
use vstd::prelude::*;

verus! {

/// The bytes `[lo, t)` are spaces and tabs.
pub open spec fn blank_run(s: Seq<u8>, lo: int, t: int) -> bool {
    forall|q: int| lo <= q < t ==> #[trigger] s[q] == 0x20 || s[q] == 0x09
}

/// The bytes `[lo, hi)` hold no line break.
pub open spec fn no_break(s: Seq<u8>, lo: int, hi: int) -> bool {
    forall|q: int| lo <= q < hi ==> #[trigger] s[q] != 0x0a
}

/// `b` is a printable ASCII byte other than a space.
pub open spec fn is_ascii_mark(b: u8) -> bool {
    0x21 <= b && b <= 0x7e
}

/// Three backticks or three tildes start at `t`.
pub open spec fn fence_bytes(s: Seq<u8>, t: int) -> bool {
    ||| (s[t] == 0x60 && s[t + 1] == 0x60 && s[t + 2] == 0x60)
    ||| (s[t] == 0x7e && s[t + 1] == 0x7e && s[t + 2] == 0x7e)
}

proof fn lemma_skip_blanks(s: Seq<u8>, i: int, t: int, hi: int)
    requires
        0 <= i <= t < hi,
        blank_run(s, i, t),
        is_ascii_mark(s[t]),
    ensures
        skip_ws(s, i, hi) == t,
    decreases t - i,
{
    if i < t {
        assert(s[i] == 0x20 || s[i] == 0x09);
        lemma_skip_blanks(s, i + 1, t, hi);
    }
}

proof fn lemma_run_end_is(s: Seq<u8>, i: int, h: int, hi: int, c: u8)
    requires
        i <= h <= hi,
        forall|q: int| i <= q < h ==> #[trigger] s[q] == c,
        h == hi || s[h] != c,
    ensures
        run_end(s, i, hi, c) == h,
    decreases h - i,
{
    if i < h {
        lemma_run_end_is(s, i + 1, h, hi, c);
    }
}

proof fn lemma_digits_end_is(s: Seq<u8>, i: int, d: int, hi: int)
    requires
        i <= d <= hi,
        forall|q: int| i <= q < d ==> 0x30 <= #[trigger] s[q] <= 0x39,
        d == hi || !(0x30 <= s[d] <= 0x39),
    ensures
        digits_end(s, i, hi) == d,
    decreases d - i,
{
    if i < d {
        lemma_digits_end_is(s, i + 1, d, hi);
    }
}

/// The first line break at or after `lo` is at `hi`, or there is none and
/// `hi` is the end of the text.
proof fn lemma_line_end(s: Seq<u8>, lo: int, hi: int)
    requires
        0 <= lo <= hi <= s.len(),
        no_break(s, lo, hi),
        hi < s.len() ==> s[hi] == 0x0a,
    ensures
        find(s, lo, s.len() as int, newline()) == (if hi < s.len() {
            Some(hi)
        } else {
            None::<int>
        }),
{
    let n = s.len() as int;
    if hi < n {
        lemma_occurs_newline(s, hi, n);
        assert forall|q: int| lo <= q < hi implies !#[trigger] occurs_at(s, q, n, newline()) by {
            lemma_occurs_newline(s, q, n);
        }
        lemma_find_first(s, lo, n, newline(), hi);
    } else {
        lemma_find_bounds(s, lo, n, newline());
        if let Some(r) = find(s, lo, n, newline()) {
            lemma_occurs_newline(s, r, n);
        }
    }
}

/// A text of one line is laid out as that line at the start of a text.
proof fn lemma_single_line(s: Seq<u8>)
    requires
        no_break(s, 0, s.len() as int),
    ensures
        highlight(s) == crate::highlight::line_spans(s, 0, s.len() as int, false),
{
    lemma_line_end(s, 0, s.len() as int);
}

/// Block quotes: a line whose first byte after spaces and tabs is `>` is
/// one italic quote section, whatever follows the `>`.
pub proof fn lemma_quote_line(s: Seq<u8>, t: int)
    requires
        no_break(s, 0, s.len() as int),
        s.len() <= usize::MAX,
        0 <= t < s.len(),
        blank_run(s, 0, t),
        s[t] == 0x3e,
    ensures
        highlight(s) == seq![span(0, s.len() as int, Style::Quote)],
{
    lemma_single_line(s);
    lemma_skip_blanks(s, 0, t, s.len() as int);
}

/// ATX headings: one to six `#` after spaces and tabs, then a space, make
/// the whole line one heading section.
pub proof fn lemma_heading_line(s: Seq<u8>, t: int, h: int)
    requires
        no_break(s, 0, s.len() as int),
        s.len() <= usize::MAX,
        0 <= t < h < s.len(),
        blank_run(s, 0, t),
        forall|q: int| t <= q < h ==> #[trigger] s[q] == 0x23,
        h - t <= 6,
        s[h] == 0x20,
    ensures
        highlight(s) == seq![span(0, s.len() as int, Style::Heading)],
{
    lemma_single_line(s);
    lemma_skip_blanks(s, 0, t, s.len() as int);
    lemma_run_end_is(s, t, h, s.len() as int, 0x23);
}

/// A line that starts with `#` after spaces and tabs but is no heading
/// (more than six `#`, or no space after them) is highlighted inline like
/// any other line of text.
pub proof fn lemma_hash_line_not_heading(s: Seq<u8>, t: int, h: int)
    requires
        no_break(s, 0, s.len() as int),
        s.len() <= usize::MAX,
        0 <= t < h <= s.len(),
        blank_run(s, 0, t),
        forall|q: int| t <= q < h ==> #[trigger] s[q] == 0x23,
        h == s.len() || s[h] != 0x23,
        !(h - t <= 6 && h < s.len() && s[h] == 0x20),
    ensures
        highlight(s) == inline_spans(s, 0, s.len() as int),
{
    lemma_single_line(s);
    lemma_skip_blanks(s, 0, t, s.len() as int);
    lemma_run_end_is(s, t, h, s.len() as int, 0x23);
}

/// A code fence line (three backticks or tildes after spaces and tabs, at
/// any indent) is one marker section.
pub proof fn lemma_fence_line(s: Seq<u8>, t: int)
    requires
        no_break(s, 0, s.len() as int),
        s.len() <= usize::MAX,
        0 <= t,
        t + 3 <= s.len(),
        blank_run(s, 0, t),
        fence_bytes(s, t),
    ensures
        highlight(s) == seq![span(0, s.len() as int, Style::Marker)],
{
    lemma_single_line(s);
    lemma_skip_blanks(s, 0, t, s.len() as int);
}

/// Fenced code: between an opening and a closing fence line (each at any
/// indent), a line is one code section, whatever Markdown it holds; the
/// fence lines are markers.
pub proof fn lemma_fenced_block(s: Seq<u8>, f: int, g: int, t1: int, t3: int)
    requires
        s.len() <= usize::MAX,
        0 <= t1,
        t1 + 3 <= f < g < t3,
        t3 + 3 <= s.len(),
        s[f] == 0x0a,
        s[g] == 0x0a,
        no_break(s, 0, f),
        no_break(s, f + 1, g),
        no_break(s, g + 1, s.len() as int),
        blank_run(s, 0, t1),
        fence_bytes(s, t1),
        blank_run(s, g + 1, t3),
        fence_bytes(s, t3),
        forall|q: int| f + 1 <= q < g ==> #[trigger] s[q] != 0x60 && s[q] != 0x7e,
    ensures
        highlight(s) == seq![
            span(0, f, Style::Marker),
            span(f, f + 1, Style::Text),
            span(f + 1, g, Style::Code),
            span(g, g + 1, Style::Text),
            span(g + 1, s.len() as int, Style::Marker),
        ],
{
    let n = s.len() as int;
    lemma_line_end(s, 0, f);
    lemma_line_end(s, f + 1, g);
    lemma_line_end(s, g + 1, n);
    lemma_skip_blanks(s, 0, t1, f);
    lemma_skip_blanks(s, g + 1, t3, n);
    lemma_skip_ws_bounds(s, f + 1, g);
    let t2 = skip_ws(s, f + 1, g);
    if t2 < g {
        assert(s[t2] != 0x60 && s[t2] != 0x7e);
    }
    let l1 = seq![span(0, f, Style::Marker)];
    let l2 = seq![span(f + 1, g, Style::Code)];
    let l3 = seq![span(g + 1, n, Style::Marker)];
    let b1 = seq![span(f, f + 1, Style::Text)];
    let b2 = seq![span(g, g + 1, Style::Text)];
    assert(spans_from(s, g + 1, true) == l3);
    assert(spans_from(s, f + 1, true) == l2 + b2 + l3);
    assert(spans_from(s, 0, false) == l1 + b1 + (l2 + b2 + l3));
    assert(highlight(s) =~= seq![
        span(0, f, Style::Marker),
        span(f, f + 1, Style::Text),
        span(f + 1, g, Style::Code),
        span(g, g + 1, Style::Text),
        span(g + 1, n, Style::Marker),
    ]);
}

/// Ordered list markers: one to nine ASCII digits (any of `0` to `9`) after
/// spaces and tabs, then `. `, end the marker; a line such as `10. tenth` is
/// a list item.
pub proof fn lemma_ordered_marker(s: Seq<u8>, t: int, d: int)
    requires
        0 <= t < d,
        d - t <= 9,
        d + 2 <= s.len(),
        blank_run(s, 0, t),
        forall|q: int| t <= q < d ==> 0x30 <= #[trigger] s[q] <= 0x39,
        s[d] == 0x2e,
        s[d + 1] == 0x20,
        d + 2 == s.len() || s[d + 2] != 0x5b,
    ensures
        marker_end(s, 0, s.len() as int) == Some(d + 2),
{
    lemma_skip_blanks(s, 0, t, s.len() as int);
    lemma_digits_end_is(s, t, d, s.len() as int);
}

/// Bullets: `-`, `*` or `+` after spaces and tabs, then a space, end the
/// marker.
pub proof fn lemma_bullet_marker(s: Seq<u8>, t: int)
    requires
        0 <= t,
        t + 2 <= s.len(),
        blank_run(s, 0, t),
        s[t] == 0x2d || s[t] == 0x2a || s[t] == 0x2b,
        s[t + 1] == 0x20,
        t + 2 == s.len() || s[t + 2] != 0x5b,
    ensures
        marker_end(s, 0, s.len() as int) == Some(t + 2),
{
    lemma_skip_blanks(s, 0, t, s.len() as int);
}

/// Task lists: a checkbox `[ ] `, `[x] ` or `[X] ` right after a bullet is
/// part of the marker.
pub proof fn lemma_task_marker(s: Seq<u8>, t: int)
    requires
        0 <= t,
        t + 6 <= s.len(),
        blank_run(s, 0, t),
        s[t] == 0x2d || s[t] == 0x2a || s[t] == 0x2b,
        s[t + 1] == 0x20,
        s[t + 2] == 0x5b,
        s[t + 3] == 0x20 || s[t + 3] == 0x78 || s[t + 3] == 0x58,
        s[t + 4] == 0x5d,
        s[t + 5] == 0x20,
    ensures
        marker_end(s, 0, s.len() as int) == Some(t + 6),
{
    lemma_skip_blanks(s, 0, t, s.len() as int);
}

/// A line with an ordered list marker is laid out as the marker, then the
/// inline spans of the rest of the line.
pub proof fn lemma_ordered_item_line(s: Seq<u8>, t: int, d: int)
    requires
        no_break(s, 0, s.len() as int),
        s.len() <= usize::MAX,
        0 <= t < d,
        d - t <= 9,
        d + 2 <= s.len(),
        blank_run(s, 0, t),
        forall|q: int| t <= q < d ==> 0x30 <= #[trigger] s[q] <= 0x39,
        s[d] == 0x2e,
        s[d + 1] == 0x20,
        d + 2 == s.len() || s[d + 2] != 0x5b,
    ensures
        highlight(s) == seq![span(0, d + 2, Style::Marker)] + inline_spans(
            s,
            d + 2,
            s.len() as int,
        ),
{
    lemma_single_line(s);
    lemma_ordered_marker(s, t, d);
    assert(0x30 <= s[t] <= 0x39);
}

/// Every highlighted role stands out from plain text in both themes, the
/// link text stands out from its url, only quotes and italics are slanted,
/// only headings are set larger, and every color is opaque.
pub proof fn lemma_roles_stand_out(dark: bool)
    ensures
        forall|st: Style| st != Style::Text ==> #[trigger] format_of(st, dark) != format_of(
            Style::Text,
            dark,
        ),
        format_of(Style::Link, dark) != format_of(Style::Url, dark),
        forall|st: Style|
            #[trigger] format_of(st, dark).italics <==> (st == Style::Quote || st == Style::Italic),
        forall|st: Style|
            #[trigger] format_of(st, dark).size == FontSize::Heading <==> st == Style::Heading,
        format_of(Style::Quote, dark).color == palette_of(dark).quote,
        forall|st: Style| #[trigger] format_of(st, dark).color.a == 255,
{
}

/// Plain text, markers and urls are grays; plain text is light on the dark
/// theme and dark on the light one.
pub proof fn lemma_gray_roles()
    ensures
        forall|dark: bool|
            {
                let p = #[trigger] palette_of(dark);
                &&& p.text.r == p.text.g == p.text.b
                &&& p.marker.r == p.marker.g == p.marker.b
                &&& p.url.r == p.url.g == p.url.b
            },
        palette_of(true).text.r >= 200,
        palette_of(false).text.r <= 50,
{
}

/// The two themes differ in the color of every role.
pub proof fn lemma_themes_differ_in_every_role()
    ensures
        forall|st: Style| #[trigger] format_of(st, true).color != format_of(st, false).color,
{
}

/// A number of ten or more digits is no list marker.
pub proof fn lemma_long_number_not_marker(s: Seq<u8>, t: int, d: int)
    requires
        0 <= t,
        t + 10 <= d <= s.len(),
        blank_run(s, 0, t),
        forall|q: int| t <= q < d ==> 0x30 <= #[trigger] s[q] <= 0x39,
        d == s.len() || !(0x30 <= s[d] <= 0x39),
    ensures
        marker_end(s, 0, s.len() as int) is None,
{
    lemma_skip_blanks(s, 0, t, s.len() as int);
    lemma_digits_end_is(s, t, d, s.len() as int);
}

/// Horizontal rules: three or more of one of `-`, `*`, `_` after spaces and
/// tabs, and then only spaces and tabs, make the line one marker section.
pub proof fn lemma_rule_line(s: Seq<u8>, t: int, r: int, c: u8)
    requires
        no_break(s, 0, s.len() as int),
        s.len() <= usize::MAX,
        0 <= t,
        t + 3 <= r <= s.len(),
        c == 0x2d || c == 0x2a || c == 0x5f,
        blank_run(s, 0, t),
        forall|q: int| t <= q < r ==> #[trigger] s[q] == c,
        blank_run(s, r, s.len() as int),
    ensures
        highlight(s) == seq![span(0, s.len() as int, Style::Marker)],
{
    let n = s.len() as int;
    lemma_single_line(s);
    lemma_skip_blanks(s, 0, t, n);
    lemma_run_end_is(s, t, r, n, c);
    lemma_skip_blank_tail(s, r, n);
}

proof fn lemma_skip_blank_tail(s: Seq<u8>, i: int, hi: int)
    requires
        0 <= i <= hi,
        blank_run(s, i, hi),
    ensures
        skip_ws(s, i, hi) == hi,
    decreases hi - i,
{
    if i < hi {
        assert(s[i] == 0x20 || s[i] == 0x09);
        lemma_skip_blank_tail(s, i + 1, hi);
    }
}

/// No byte of `[i, j)` can open an inline span: none is a backtick, `*` or `[`.
pub open spec fn plain_bytes(s: Seq<u8>, i: int, j: int) -> bool {
    forall|q: int| i <= q < j ==> #[trigger] s[q] != 0x60 && s[q] != 0x2a && s[q] != 0x5b
}

proof fn lemma_skip_plain(s: Seq<u8>, i: int, j: int, pending: int, hi: int)
    requires
        0 <= pending <= i <= j <= hi,
        plain_bytes(s, i, j),
    ensures
        inline_from(s, i, pending, hi) == inline_from(s, j, pending, hi),
    decreases j - i,
{
    if i < j {
        assert(s[i] != 0x60 && s[i] != 0x2a && s[i] != 0x5b);
        lemma_skip_plain(s, i + 1, j, pending, hi);
    }
}

proof fn lemma_find_byte(s: Seq<u8>, from: int, hi: int, c: u8, k: int)
    requires
        0 <= from <= k < hi,
        s[k] == c,
        forall|q: int| from <= q < k ==> #[trigger] s[q] != c,
    ensures
        find(s, from, hi, seq![c]) == Some(k),
{
    let p = seq![c];
    assert forall|j: int| 0 <= j < p.len() implies #[trigger] s[k + j] == p[j] by {
        assert(j == 0);
    }
    assert forall|q: int| from <= q < k implies !#[trigger] occurs_at(s, q, hi, p) by {
        if occurs_at(s, q, hi, p) {
            assert(s[q + 0] == p[0]);
        }
    }
    lemma_find_first(s, from, hi, p, k);
}

proof fn lemma_find_pair(s: Seq<u8>, from: int, hi: int, c0: u8, c1: u8, k: int)
    requires
        0 <= from <= k,
        k + 2 <= hi,
        s[k] == c0,
        s[k + 1] == c1,
        forall|q: int| from <= q < k ==> !(#[trigger] s[q] == c0 && s[q + 1] == c1),
    ensures
        find(s, from, hi, seq![c0, c1]) == Some(k),
{
    let p = seq![c0, c1];
    assert forall|j: int| 0 <= j < p.len() implies #[trigger] s[k + j] == p[j] by {
        if j == 0 {
        } else {
            assert(j == 1);
        }
    }
    assert forall|q: int| from <= q < k implies !#[trigger] occurs_at(s, q, hi, p) by {
        if occurs_at(s, q, hi, p) {
            assert(s[q + 0] == p[0]);
            assert(s[q + 1] == p[1]);
        }
    }
    lemma_find_first(s, from, hi, p, k);
}

/// Text with no backtick, `*` or `[` is one plain span (none if empty).
pub proof fn lemma_plain_text(s: Seq<u8>, lo: int, hi: int)
    requires
        0 <= lo <= hi,
        plain_bytes(s, lo, hi),
    ensures
        inline_spans(s, lo, hi) == crate::inline::plain(lo, hi),
{
    lemma_skip_plain(s, lo, hi, lo, hi);
}

/// Inline code: after plain text, a backtick opens a code span that runs
/// to the next backtick, both included (the span may hold nothing else).
pub proof fn lemma_code_span(s: Seq<u8>, lo: int, j: int, k: int, hi: int)
    requires
        0 <= lo <= j < k < hi,
        plain_bytes(s, lo, j),
        s[j] == 0x60,
        s[k] == 0x60,
        forall|q: int| j + 1 <= q < k ==> #[trigger] s[q] != 0x60,
    ensures
        inline_spans(s, lo, hi) == crate::inline::plain(lo, j) + seq![span(j, k + 1, Style::Code)]
            + inline_spans(s, k + 1, hi),
{
    lemma_skip_plain(s, lo, j, lo, hi);
    lemma_find_byte(s, j + 1, hi, 0x60, k);
}

/// Bold: after plain text, `**` opens a bold span that runs to the next
/// `**`, both included.
pub proof fn lemma_bold_span(s: Seq<u8>, lo: int, j: int, k: int, hi: int)
    requires
        0 <= lo <= j,
        j + 2 <= k,
        k + 2 <= hi,
        plain_bytes(s, lo, j),
        s[j] == 0x2a,
        s[j + 1] == 0x2a,
        s[k] == 0x2a,
        s[k + 1] == 0x2a,
        forall|q: int| j + 2 <= q < k ==> !(#[trigger] s[q] == 0x2a && s[q + 1] == 0x2a),
    ensures
        inline_spans(s, lo, hi) == crate::inline::plain(lo, j) + seq![span(j, k + 2, Style::Bold)]
            + inline_spans(s, k + 2, hi),
{
    lemma_skip_plain(s, lo, j, lo, hi);
    lemma_find_pair(s, j + 2, hi, 0x2a, 0x2a, k);
}

/// Italic: after plain text, a single `*` opens an italic span that runs to
/// the next `*`, both included.
pub proof fn lemma_italic_span(s: Seq<u8>, lo: int, j: int, k: int, hi: int)
    requires
        0 <= lo <= j,
        j + 1 < k < hi,
        plain_bytes(s, lo, j),
        s[j] == 0x2a,
        s[k] == 0x2a,
        forall|q: int| j + 1 <= q < k ==> #[trigger] s[q] != 0x2a,
    ensures
        inline_spans(s, lo, hi) == crate::inline::plain(lo, j) + seq![span(j, k + 1, Style::Italic)]
            + inline_spans(s, k + 1, hi),
{
    lemma_skip_plain(s, lo, j, lo, hi);
    assert(s[j + 1] != 0x2a);
    lemma_find_byte(s, j + 1, hi, 0x2a, k);
}

/// Links: after plain text, `[` opens a link whose text runs to the first
/// `](` and whose url runs from there to the next `)`.
pub proof fn lemma_link_span(s: Seq<u8>, lo: int, j: int, m: int, c: int, hi: int)
    requires
        0 <= lo <= j <= m,
        m + 2 <= c < hi,
        plain_bytes(s, lo, j),
        s[j] == 0x5b,
        s[m] == 0x5d,
        s[m + 1] == 0x28,
        forall|q: int| j <= q < m ==> !(#[trigger] s[q] == 0x5d && s[q + 1] == 0x28),
        s[c] == 0x29,
        forall|q: int| m + 2 <= q < c ==> #[trigger] s[q] != 0x29,
    ensures
        inline_spans(s, lo, hi) == crate::inline::plain(lo, j) + seq![
            span(j, m + 1, Style::Link),
            span(m + 1, c + 1, Style::Url),
        ] + inline_spans(s, c + 1, hi),
{
    lemma_skip_plain(s, lo, j, lo, hi);
    lemma_find_pair(s, j, hi, 0x5d, 0x28, m);
    lemma_find_byte(s, m + 2, hi, 0x29, c);
}

} // verus!
