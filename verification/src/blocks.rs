//! Recognition of the line-level Markdown constructs: code fences, ATX
//! headings, horizontal rules and list markers. A line is the window
//! `[lo, hi)` of the text's UTF-8 bytes; results are absolute byte offsets.

use crate::scan::{
    digits_end, exec_digits_end, exec_run_end, exec_skip_ws, lemma_digits_end_bounds,
    lemma_skip_ws_bounds, run_end, skip_ws,
};
use vstd::prelude::*;

verus! {

/// A code fence (three backticks or three tildes) starts at `t`.
pub open spec fn fence_at(s: Seq<u8>, t: int, hi: int) -> bool {
    &&& t + 3 <= hi
    &&& {
        ||| (s[t] == 0x60 && s[t + 1] == 0x60 && s[t + 2] == 0x60)
        ||| (s[t] == 0x7e && s[t + 1] == 0x7e && s[t + 2] == 0x7e)
    }
}

/// The run of `#` at `t` has at most six of them and is followed by a space.
pub open spec fn heading_at(s: Seq<u8>, t: int, hi: int) -> bool {
    let h = run_end(s, t, hi, 0x23);
    &&& h - t <= 6
    &&& h < hi
    &&& s[h] == 0x20
}

/// `[t, hi)` is at least three copies of `c` followed only by whitespace.
pub open spec fn rule_of(s: Seq<u8>, t: int, hi: int, c: u8) -> bool {
    &&& run_end(s, t, hi, c) - t >= 3
    &&& skip_ws(s, run_end(s, t, hi, c), hi) == hi
}

/// `[t, hi)` is a horizontal rule once trailing whitespace is trimmed: three
/// or more `-`, or `*`, or `_`, and nothing else.
pub open spec fn rule_at(s: Seq<u8>, t: int, hi: int) -> bool {
    ||| rule_of(s, t, hi, 0x2d)
    ||| rule_of(s, t, hi, 0x2a)
    ||| rule_of(s, t, hi, 0x5f)
}

/// The end of a bullet (`- `, `* `, `+ `) or of an ordered marker (one to
/// nine ASCII digits, then `. `) that starts at `t`.
pub open spec fn bullet_end(s: Seq<u8>, t: int, hi: int) -> Option<int> {
    if t + 2 <= hi && (s[t] == 0x2d || s[t] == 0x2a || s[t] == 0x2b) && s[t + 1] == 0x20 {
        Some(t + 2)
    } else {
        let d = digits_end(s, t, hi);
        if t < d && d - t <= 9 && d + 2 <= hi && s[d] == 0x2e && s[d + 1] == 0x20 {
            Some(d + 2)
        } else {
            None
        }
    }
}

/// A task-list checkbox (`[ ] `, `[x] ` or `[X] `) starts at `a`.
pub open spec fn checkbox_at(s: Seq<u8>, a: int, hi: int) -> bool {
    &&& a + 4 <= hi
    &&& s[a] == 0x5b
    &&& (s[a + 1] == 0x20 || s[a + 1] == 0x78 || s[a + 1] == 0x58)
    &&& s[a + 2] == 0x5d
    &&& s[a + 3] == 0x20
}

/// The end of the list marker of the line `[lo, hi)`: its indent, the
/// bullet or number, and a checkbox if one follows.
pub open spec fn marker_end(s: Seq<u8>, lo: int, hi: int) -> Option<int> {
    match bullet_end(s, skip_ws(s, lo, hi), hi) {
        Some(a) => Some(
            if checkbox_at(s, a, hi) {
                a + 4
            } else {
                a
            },
        ),
        None => None,
    }
}

pub proof fn lemma_marker_end_bounds(s: Seq<u8>, lo: int, hi: int)
    requires
        lo <= hi,
    ensures
        marker_end(s, lo, hi) matches Some(m) ==> lo < m <= hi,
{
    lemma_skip_ws_bounds(s, lo, hi);
    lemma_digits_end_bounds(s, skip_ws(s, lo, hi), hi);
}

/// Whether a code fence starts at `t`.
pub(crate) fn exec_fence_at(b: &[u8], t: usize, hi: usize) -> (r: bool)
    requires
        t <= hi <= b@.len(),
    ensures
        r == fence_at(b@, t as int, hi as int),
{
    hi - t >= 3 && ((b[t] == 0x60 && b[t + 1] == 0x60 && b[t + 2] == 0x60) || (b[t] == 0x7e && b[t
        + 1] == 0x7e && b[t + 2] == 0x7e))
}

/// Whether an ATX heading marker starts at `t`.
pub(crate) fn exec_heading_at(b: &[u8], t: usize, hi: usize) -> (r: bool)
    requires
        t <= hi <= b@.len(),
    ensures
        r == heading_at(b@, t as int, hi as int),
{
    let h = exec_run_end(b, t, hi, 0x23);
    h - t <= 6 && h < hi && b[h] == 0x20
}

fn exec_rule_of(b: &[u8], t: usize, hi: usize, c: u8) -> (r: bool)
    requires
        t <= hi <= b@.len(),
    ensures
        r == rule_of(b@, t as int, hi as int, c),
{
    let e = exec_run_end(b, t, hi, c);
    e - t >= 3 && exec_skip_ws(b, e, hi) == hi
}

/// Whether `[t, hi)` is a horizontal rule.
pub(crate) fn exec_rule_at(b: &[u8], t: usize, hi: usize) -> (r: bool)
    requires
        t <= hi <= b@.len(),
    ensures
        r == rule_at(b@, t as int, hi as int),
{
    exec_rule_of(b, t, hi, 0x2d) || exec_rule_of(b, t, hi, 0x2a) || exec_rule_of(b, t, hi, 0x5f)
}

/// End of the list marker of the line `[lo, hi)`, if it has one.
pub(crate) fn exec_marker_end(b: &[u8], lo: usize, hi: usize) -> (r: Option<usize>)
    requires
        lo <= hi <= b@.len(),
    ensures
        r == (match marker_end(b@, lo as int, hi as int) {
            Some(m) => Some(m as usize),
            None => None::<usize>,
        }),
        r matches Some(m) ==> lo < m <= hi,
{
    proof {
        lemma_marker_end_bounds(b@, lo as int, hi as int);
    }
    let t = exec_skip_ws(b, lo, hi);
    let after = if hi - t >= 2 && (b[t] == 0x2d || b[t] == 0x2a || b[t] == 0x2b) && b[t + 1]
        == 0x20 {
        t + 2
    } else {
        let d = exec_digits_end(b, t, hi);
        if t < d && d - t <= 9 && hi - d >= 2 && b[d] == 0x2e && b[d + 1] == 0x20 {
            d + 2
        } else {
            return None;
        }
    };
    if hi - after >= 4 && b[after] == 0x5b && (b[after + 1] == 0x20 || b[after + 1] == 0x78 || b[after
        + 1] == 0x58) && b[after + 2] == 0x5d && b[after + 3] == 0x20 {
        Some(after + 4)
    } else {
        Some(after)
    }
}

} // verus!
