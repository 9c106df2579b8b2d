//! Fast line-based Markdown syntax highlighting for the plain-text editor:
//! headings, fences, quotes, lists, rules, and inline code, bold, italic and
//! links. The text is cut into sections that together reproduce it byte for
//! byte, each with the format its role has in the light or the dark theme.

use crate::blocks::{
    exec_fence_at, exec_heading_at, exec_marker_end, exec_rule_at, fence_at, heading_at,
    lemma_marker_end_bounds, marker_end, rule_at,
};
use crate::inline::{closing, inline_spans, push_inline, span, Span};
use crate::laws::{lemma_ascii_edge_is_char_boundary, lemma_spans_on_char_boundaries};
use crate::scan::{exec_find, exec_skip_ws, find, lemma_find_bounds, skip_ws};
use crate::style::{format_in, format_of, palette, Style, TextFormat};
use vstd::prelude::*;
use vstd::string::StringSliceAdditionalSpecFns;
use vstd::utf8::{encode_utf8_valid_utf8, is_char_boundary};

verus! {

/// One section of a layout job: the text bytes `[start, end)` and their format.
#[derive(Clone, Copy, Debug, PartialEq, Eq, Structural)]
pub struct LayoutSection {
    pub start: usize,
    pub end: usize,
    pub format: TextFormat,
}

/// The formatted sections of a text, in order.
pub struct LayoutJob {
    pub sections: Vec<LayoutSection>,
}

pub open spec fn newline() -> Seq<u8> {
    seq![0x0au8]
}

/// The spans of the line `[lo, hi)` (without its line break), given whether
/// it lies inside a fenced code block.
pub open spec fn line_spans(s: Seq<u8>, lo: int, hi: int, in_fence: bool) -> Seq<Span> {
    let t = skip_ws(s, lo, hi);
    if fence_at(s, t, hi) {
        seq![span(lo, hi, Style::Marker)]
    } else if in_fence {
        seq![span(lo, hi, Style::Code)]
    } else if t < hi && s[t] == 0x23 {
        if heading_at(s, t, hi) {
            seq![span(lo, hi, Style::Heading)]
        } else {
            inline_spans(s, lo, hi)
        }
    } else if t < hi && s[t] == 0x3e {
        seq![span(lo, hi, Style::Quote)]
    } else if rule_at(s, t, hi) {
        seq![span(lo, hi, Style::Marker)]
    } else {
        match marker_end(s, lo, hi) {
            Some(m) => seq![span(lo, m, Style::Marker)] + inline_spans(s, m, hi),
            None => inline_spans(s, lo, hi),
        }
    }
}

/// Whether the text after the line `[lo, hi)` lies inside a fenced code
/// block: a fence line opens or closes one.
pub open spec fn fence_after(s: Seq<u8>, lo: int, hi: int, in_fence: bool) -> bool {
    if fence_at(s, skip_ws(s, lo, hi), hi) {
        !in_fence
    } else {
        in_fence
    }
}

/// The spans of the text from the line that starts at `lo` to its end.
/// Each line break is a plain span of its own; a final line break is not
/// followed by an empty line.
pub open spec fn spans_from(s: Seq<u8>, lo: int, in_fence: bool) -> Seq<Span>
    decreases s.len() - lo,
{
    match find(s, lo, s.len() as int, newline()) {
        Some(e) => {
            proof {
                if lo >= 0 {
                    lemma_find_bounds(s, lo, s.len() as int, newline());
                }
            }
            line_spans(s, lo, e, in_fence) + seq![span(e, e + 1, Style::Text)] + if e + 1
                >= s.len() {
                Seq::empty()
            } else {
                spans_from(s, e + 1, fence_after(s, lo, e, in_fence))
            }
        },
        None => line_spans(s, lo, s.len() as int, in_fence),
    }
}

/// The spans of a whole text, given as its UTF-8 bytes.
pub open spec fn highlight(s: Seq<u8>) -> Seq<Span> {
    spans_from(s, 0, false)
}

/// The section that a span becomes in the light or the dark theme.
pub open spec fn section_of(sp: Span, dark: bool) -> LayoutSection {
    LayoutSection { start: sp.start, end: sp.end, format: format_of(sp.style, dark) }
}

/// The sections of a text in the light or the dark theme.
pub open spec fn sections_of(s: Seq<u8>, dark: bool) -> Seq<LayoutSection> {
    highlight(s).map_values(|sp: Span| section_of(sp, dark))
}

/// Appends the spans of the line `[lo, hi)` and returns whether the text
/// after it lies inside a fenced code block.
fn push_line(b: &[u8], lo: usize, hi: usize, in_fence: bool, out: &mut Vec<Span>) -> (r: bool)
    requires
        lo <= hi <= b@.len(),
    ensures
        final(out)@ == old(out)@ + line_spans(b@, lo as int, hi as int, in_fence),
        r == fence_after(b@, lo as int, hi as int, in_fence),
{
    let t = exec_skip_ws(b, lo, hi);
    if exec_fence_at(b, t, hi) {
        out.push(Span { start: lo, end: hi, style: Style::Marker });
        return !in_fence;
    }
    if in_fence {
        out.push(Span { start: lo, end: hi, style: Style::Code });
    } else if t < hi && b[t] == 0x23 {
        if exec_heading_at(b, t, hi) {
            out.push(Span { start: lo, end: hi, style: Style::Heading });
        } else {
            push_inline(b, lo, hi, out);
        }
    } else if t < hi && b[t] == 0x3e {
        out.push(Span { start: lo, end: hi, style: Style::Quote });
    } else if exec_rule_at(b, t, hi) {
        out.push(Span { start: lo, end: hi, style: Style::Marker });
    } else {
        match exec_marker_end(b, lo, hi) {
            Some(m) => {
                let ghost before = out@;
                out.push(Span { start: lo, end: m, style: Style::Marker });
                push_inline(b, m, hi, out);
                assert(out@ =~= before + (seq![span(lo as int, m as int, Style::Marker)]
                    + inline_spans(b@, m as int, hi as int)));
            },
            None => {
                push_inline(b, lo, hi, out);
            },
        }
    }
    in_fence
}

/// The spans of the text `b`, line by line.
fn highlight_spans(b: &[u8]) -> (r: Vec<Span>)
    ensures
        r@ == highlight(b@),
{
    let n = b.len();
    let mut out: Vec<Span> = Vec::new();
    let mut lo: usize = 0;
    let mut in_fence = false;
    loop
        invariant
            n == b@.len(),
            lo <= n,
            out@ + spans_from(b@, lo as int, in_fence) == highlight(b@),
        decreases n - lo,
    {
        let nl: [u8; 1] = [0x0a];
        assert(nl@ =~= newline());
        proof {
            lemma_find_bounds(b@, lo as int, n as int, newline());
        }
        let ghost before = out@;
        match exec_find(b, lo, n, &nl) {
            Some(e) => {
                let next_fence = push_line(b, lo, e, in_fence, &mut out);
                out.push(Span { start: e, end: e + 1, style: Style::Text });
                if e + 1 >= n {
                    assert(out@ =~= before + spans_from(b@, lo as int, in_fence));
                    return out;
                }
                assert(out@ + spans_from(b@, (e + 1) as int, next_fence) =~= before + spans_from(
                    b@,
                    lo as int,
                    in_fence,
                ));
                lo = e + 1;
                in_fence = next_fence;
            },
            None => {
                push_line(b, lo, n, in_fence, &mut out);
                assert(out@ =~= before + spans_from(b@, lo as int, in_fence));
                return out;
            },
        }
    }
}

/// Lays out `text` for the editor in the dark (`true`) or light theme.
pub fn layout_job(text: &str, dark: bool) -> (job: LayoutJob)
    ensures
        job.sections@ == sections_of(text.spec_bytes(), dark),
        forall|k: int|
            #![trigger job.sections@[k]]
            0 <= k < job.sections@.len() ==> is_char_boundary(
                text.spec_bytes(),
                job.sections@[k].start as int,
            ) && is_char_boundary(text.spec_bytes(), job.sections@[k].end as int),
{
    let b = text.as_bytes();
    let n = b.len();
    proof {
        encode_utf8_valid_utf8(text@);
        lemma_spans_on_char_boundaries(b@);
    }
    let spans = highlight_spans(b);
    let p = palette(dark);
    let mut sections: Vec<LayoutSection> = Vec::new();
    let mut k: usize = 0;
    while k < spans.len()
        invariant
            p == crate::style::palette_of(dark),
            spans@ == highlight(b@),
            b@ == text.spec_bytes(),
            k <= spans@.len(),
            sections@ == spans@.take(k as int).map_values(|sp: Span| section_of(sp, dark)),
        decreases spans@.len() - k,
    {
        let sp = spans[k];
        let format = format_in(sp.style, &p);
        sections.push(LayoutSection { start: sp.start, end: sp.end, format });
        assert(spans@.take(k + 1) =~= spans@.take(k as int).push(sp));
        k = k + 1;
    }
    assert(spans@.take(k as int) =~= spans@);
    assert forall|k: int|
        #![trigger sections@[k]]
        0 <= k < sections@.len() implies is_char_boundary(
        text.spec_bytes(),
        sections@[k].start as int,
    ) && is_char_boundary(text.spec_bytes(), sections@[k].end as int) by {
        assert(sections@[k] == section_of(highlight(b@)[k], dark));
    }
    LayoutJob { sections }
}

/// Whether `t` is a horizontal rule once trailing whitespace is trimmed:
/// three or more `-`, or `*`, or `_`, and nothing else.
pub fn is_hr(t: &str) -> (r: bool)
    ensures
        r == rule_at(t.spec_bytes(), 0, t.spec_bytes().len() as int),
{
    let b = t.as_bytes();
    exec_rule_at(b, 0, b.len())
}

/// Length in bytes of a leading list marker (`- `, `* `, `+ `, `12. `), with
/// its indent and a task-list checkbox, or `None`.
pub fn list_marker_len(line: &str) -> (r: Option<usize>)
    ensures
        r == (match marker_end(line.spec_bytes(), 0, line.spec_bytes().len() as int) {
            Some(m) => Some(m as usize),
            None => None::<usize>,
        }),
        r matches Some(m) ==> 0 < m <= line.spec_bytes().len() && is_char_boundary(
            line.spec_bytes(),
            m as int,
        ),
{
    let b = line.as_bytes();
    let r = exec_marker_end(b, 0, b.len());
    proof {
        if let Some(m) = r {
            encode_utf8_valid_utf8(line@);
            lemma_marker_end_bounds(b@, 0, b@.len() as int);
            assert(b@[m - 1] == 0x20);
            lemma_ascii_edge_is_char_boundary(b@, m as int);
        }
    }
    r
}

/// Byte index of the first closing delimiter `delim` in `line` at or after
/// `from`.
pub fn find_close(line: &str, from: usize, delim: &str) -> (r: Option<usize>)
    requires
        from < line.spec_bytes().len() ==> is_char_boundary(
            line.spec_bytes(),
            from as int,
        ),
    ensures
        r == (match closing(
            line.spec_bytes(),
            from as int,
            line.spec_bytes().len() as int,
            delim.spec_bytes(),
        ) {
            Some(k) => Some(k as usize),
            None => None::<usize>,
        }),
{
    let b = line.as_bytes();
    let d = delim.as_bytes();
    if from >= b.len() {
        return None;
    }
    proof {
        lemma_find_bounds(b@, from as int, b@.len() as int, d@);
    }
    match exec_find(b, from, b.len(), d) {
        Some(k) => Some(k),
        None => None,
    }
}

} // verus!
