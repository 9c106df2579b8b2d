//! Byte-level scanning primitives over UTF-8 text: Unicode whitespace,
//! runs of one byte, and substring search. Every position is an absolute
//! byte offset into the text, and every scan stays inside a window `[i, hi)`.

use vstd::prelude::*;

verus! {

/// The second and third bytes of a three-byte UTF-8 encoding of a Unicode
/// `White_Space` character, given its lead byte `a`: U+1680, U+2000..=U+200A,
/// U+2028, U+2029, U+202F, U+205F and U+3000.
pub open spec fn is_ws3(a: u8, b: u8, c: u8) -> bool {
    ||| (a == 0xe1 && b == 0x9a && c == 0x80)
    ||| (a == 0xe2 && b == 0x80 && ((0x80 <= c && c <= 0x8a) || c == 0xa8 || c == 0xa9 || c == 0xaf))
    ||| (a == 0xe2 && b == 0x81 && c == 0x9f)
    ||| (a == 0xe3 && b == 0x80 && c == 0x80)
}

/// Byte width of the Unicode `White_Space` character whose UTF-8 encoding
/// starts at `i` and ends by `hi`, or 0 when no such character starts there.
/// The one-byte ones are U+0009..=U+000D and U+0020; the two-byte ones are
/// U+0085 and U+00A0.
pub open spec fn ws_width(s: Seq<u8>, i: int, hi: int) -> int {
    if i < hi && (s[i] == 0x20 || (0x09 <= s[i] && s[i] <= 0x0d)) {
        1
    } else if i + 2 <= hi && s[i] == 0xc2 && (s[i + 1] == 0x85 || s[i + 1] == 0xa0) {
        2
    } else if i + 3 <= hi && is_ws3(s[i], s[i + 1], s[i + 2]) {
        3
    } else {
        0
    }
}

/// The Unicode `White_Space` property of a scalar value, which
/// `char::is_whitespace` tests.
pub open spec fn is_white_space(v: u32) -> bool {
    ||| (0x09 <= v && v <= 0x0d)
    ||| v == 0x20
    ||| v == 0x85
    ||| v == 0xa0
    ||| v == 0x1680
    ||| (0x2000 <= v && v <= 0x200a)
    ||| v == 0x2028
    ||| v == 0x2029
    ||| v == 0x202f
    ||| v == 0x205f
    ||| v == 0x3000
}

proof fn lemma_white_space_width_1(b0: u8)
    by (bit_vector)
    requires
        b0 <= 0x7f,
    ensures
        is_white_space(vstd::utf8::codepoint_width_1(b0)) <==> (b0 == 0x20 || (0x09 <= b0
            && b0 <= 0x0d)),
{
}

proof fn lemma_white_space_width_2(b0: u8, b1: u8)
    by (bit_vector)
    requires
        0xc0 <= b0 <= 0xdf,
        0x80 <= b1 <= 0xbf,
        0x80 <= vstd::utf8::codepoint_width_2(b0, b1),
    ensures
        is_white_space(vstd::utf8::codepoint_width_2(b0, b1)) <==> (b0 == 0xc2 && (b1 == 0x85
            || b1 == 0xa0)),
{
}

proof fn lemma_white_space_width_3(b0: u8, b1: u8, b2: u8)
    by (bit_vector)
    requires
        0xe0 <= b0 <= 0xef,
        0x80 <= b1 <= 0xbf,
        0x80 <= b2 <= 0xbf,
        0x800 <= vstd::utf8::codepoint_width_3(b0, b1, b2),
    ensures
        is_white_space(vstd::utf8::codepoint_width_3(b0, b1, b2)) <==> is_ws3(b0, b1, b2),
{
}

/// `ws_width` reads Unicode whitespace off UTF-8: at any character of a
/// valid UTF-8 text it is nonzero exactly when the character has the
/// `White_Space` property, and then it is the character's length in bytes.
pub proof fn lemma_ws_width_is_white_space(s: Seq<u8>, i: int)
    requires
        vstd::utf8::valid_utf8(s),
        0 <= i < s.len(),
        vstd::utf8::is_char_boundary(s, i),
    ensures
        ({
            let rest = s.subrange(i, s.len() as int);
            &&& ws_width(s, i, s.len() as int) > 0 <==> is_white_space(
                vstd::utf8::decode_first_scalar(rest),
            )
            &&& ws_width(s, i, s.len() as int) > 0 ==> ws_width(s, i, s.len() as int)
                == vstd::utf8::length_of_first_scalar(rest)
        }),
{
    let rest = s.subrange(i, s.len() as int);
    vstd::utf8::valid_utf8_split(s, i);
    assert(vstd::utf8::valid_first_scalar(rest));
    let b0 = rest[0];
    assert(b0 == s[i]);
    if vstd::utf8::is_leading_byte_width_1(b0) {
        lemma_white_space_width_1(b0);
    } else if vstd::utf8::is_leading_byte_width_2(b0) {
        assert(rest[1] == s[i + 1]);
        lemma_white_space_width_2(b0, rest[1]);
    } else if vstd::utf8::is_leading_byte_width_3(b0) {
        assert(rest[1] == s[i + 1]);
        assert(rest[2] == s[i + 2]);
        lemma_white_space_width_3(b0, rest[1], rest[2]);
    } else {
        assert(vstd::utf8::decode_first_scalar(rest) >= 0x10000);
    }
}

/// The first position at or after `i` that does not start a whitespace
/// character: the start of the text once leading whitespace is trimmed.
pub open spec fn skip_ws(s: Seq<u8>, i: int, hi: int) -> int
    decreases hi - i,
{
    if i < hi && ws_width(s, i, hi) > 0 {
        skip_ws(s, i + ws_width(s, i, hi), hi)
    } else {
        i
    }
}

/// The end of the run of bytes equal to `c` that starts at `i`.
pub open spec fn run_end(s: Seq<u8>, i: int, hi: int, c: u8) -> int
    decreases hi - i,
{
    if i < hi && s[i] == c {
        run_end(s, i + 1, hi, c)
    } else {
        i
    }
}

/// The end of the run of ASCII digits that starts at `i`.
pub open spec fn digits_end(s: Seq<u8>, i: int, hi: int) -> int
    decreases hi - i,
{
    if i < hi && 0x30 <= s[i] && s[i] <= 0x39 {
        digits_end(s, i + 1, hi)
    } else {
        i
    }
}

/// `p` occurs in `s` at position `k`, ending by `hi`.
pub open spec fn occurs_at(s: Seq<u8>, k: int, hi: int, p: Seq<u8>) -> bool {
    &&& 0 <= k
    &&& k + p.len() <= hi
    &&& forall|j: int| 0 <= j < p.len() ==> #[trigger] s[k + j] == p[j]
}

/// The first position at or after `k` where `p` occurs, ending by `hi`.
pub open spec fn find(s: Seq<u8>, k: int, hi: int, p: Seq<u8>) -> Option<int>
    decreases hi - k,
{
    if k < 0 || k + p.len() > hi {
        None
    } else if occurs_at(s, k, hi, p) {
        Some(k)
    } else {
        find(s, k + 1, hi, p)
    }
}

pub proof fn lemma_ws_width_bounds(s: Seq<u8>, i: int, hi: int)
    ensures
        0 <= ws_width(s, i, hi) <= 3,
        ws_width(s, i, hi) > 0 ==> i + ws_width(s, i, hi) <= hi,
{
}

pub proof fn lemma_skip_ws_bounds(s: Seq<u8>, i: int, hi: int)
    requires
        i <= hi,
    ensures
        i <= skip_ws(s, i, hi) <= hi,
    decreases hi - i,
{
    if i < hi && ws_width(s, i, hi) > 0 {
        lemma_skip_ws_bounds(s, i + ws_width(s, i, hi), hi);
    }
}

pub proof fn lemma_run_end_bounds(s: Seq<u8>, i: int, hi: int, c: u8)
    requires
        i <= hi,
    ensures
        i <= run_end(s, i, hi, c) <= hi,
        forall|j: int| i <= j < run_end(s, i, hi, c) ==> #[trigger] s[j] == c,
        run_end(s, i, hi, c) < hi ==> s[run_end(s, i, hi, c)] != c,
    decreases hi - i,
{
    if i < hi && s[i] == c {
        lemma_run_end_bounds(s, i + 1, hi, c);
    }
}

pub proof fn lemma_digits_end_bounds(s: Seq<u8>, i: int, hi: int)
    requires
        i <= hi,
    ensures
        i <= digits_end(s, i, hi) <= hi,
        forall|j: int| i <= j < digits_end(s, i, hi) ==> 0x30 <= #[trigger] s[j] <= 0x39,
    decreases hi - i,
{
    if i < hi && 0x30 <= s[i] && s[i] <= 0x39 {
        lemma_digits_end_bounds(s, i + 1, hi);
    }
}

pub proof fn lemma_find_bounds(s: Seq<u8>, k: int, hi: int, p: Seq<u8>)
    requires
        0 <= k,
    ensures
        find(s, k, hi, p) matches Some(r) ==> k <= r && r + p.len() <= hi && occurs_at(s, r, hi, p),
        find(s, k, hi, p) matches Some(r) ==> forall|q: int|
            k <= q < r ==> !#[trigger] occurs_at(s, q, hi, p),
        find(s, k, hi, p) is None ==> forall|q: int| k <= q ==> !#[trigger] occurs_at(s, q, hi, p),
    decreases hi - k,
{
    if k < 0 || k + p.len() > hi {
    } else if occurs_at(s, k, hi, p) {
    } else {
        lemma_find_bounds(s, k + 1, hi, p);
    }
}

/// Width of the whitespace character at `i`, or 0.
pub(crate) fn exec_ws_width(b: &[u8], i: usize, hi: usize) -> (w: usize)
    requires
        i <= hi <= b@.len(),
    ensures
        w == ws_width(b@, i as int, hi as int),
{
    if i < hi && (b[i] == 0x20 || (0x09 <= b[i] && b[i] <= 0x0d)) {
        1
    } else if hi - i >= 2 && b[i] == 0xc2 && (b[i + 1] == 0x85 || b[i + 1] == 0xa0) {
        2
    } else if hi - i >= 3 && is_ws3_exec(b[i], b[i + 1], b[i + 2]) {
        3
    } else {
        0
    }
}

fn is_ws3_exec(a: u8, b: u8, c: u8) -> (r: bool)
    ensures
        r == is_ws3(a, b, c),
{
    (a == 0xe1 && b == 0x9a && c == 0x80) || (a == 0xe2 && b == 0x80 && ((0x80 <= c && c <= 0x8a)
        || c == 0xa8 || c == 0xa9 || c == 0xaf)) || (a == 0xe2 && b == 0x81 && c == 0x9f) || (a
        == 0xe3 && b == 0x80 && c == 0x80)
}

/// Position of the first non-whitespace character at or after `i`.
pub(crate) fn exec_skip_ws(b: &[u8], i: usize, hi: usize) -> (r: usize)
    requires
        i <= hi <= b@.len(),
    ensures
        r == skip_ws(b@, i as int, hi as int),
        i <= r <= hi,
{
    proof {
        lemma_skip_ws_bounds(b@, i as int, hi as int);
    }
    let mut k = i;
    loop
        invariant
            i <= k <= hi <= b@.len(),
            skip_ws(b@, k as int, hi as int) == skip_ws(b@, i as int, hi as int),
        decreases hi - k,
    {
        let w = exec_ws_width(b, k, hi);
        if w == 0 {
            return k;
        }
        proof {
            lemma_ws_width_bounds(b@, k as int, hi as int);
        }
        k = k + w;
    }
}

/// End of the run of bytes equal to `c` starting at `i`.
pub(crate) fn exec_run_end(b: &[u8], i: usize, hi: usize, c: u8) -> (r: usize)
    requires
        i <= hi <= b@.len(),
    ensures
        r == run_end(b@, i as int, hi as int, c),
        i <= r <= hi,
{
    proof {
        lemma_run_end_bounds(b@, i as int, hi as int, c);
    }
    let mut k = i;
    while k < hi && b[k] == c
        invariant
            i <= k <= hi <= b@.len(),
            run_end(b@, k as int, hi as int, c) == run_end(b@, i as int, hi as int, c),
        decreases hi - k,
    {
        k = k + 1;
    }
    k
}

/// End of the run of ASCII digits starting at `i`.
pub(crate) fn exec_digits_end(b: &[u8], i: usize, hi: usize) -> (r: usize)
    requires
        i <= hi <= b@.len(),
    ensures
        r == digits_end(b@, i as int, hi as int),
        i <= r <= hi,
{
    proof {
        lemma_digits_end_bounds(b@, i as int, hi as int);
    }
    let mut k = i;
    while k < hi && 0x30 <= b[k] && b[k] <= 0x39
        invariant
            i <= k <= hi <= b@.len(),
            digits_end(b@, k as int, hi as int) == digits_end(b@, i as int, hi as int),
        decreases hi - k,
    {
        k = k + 1;
    }
    k
}

/// Whether `p` occurs at `k`, ending by `hi`.
pub(crate) fn exec_occurs_at(b: &[u8], k: usize, hi: usize, p: &[u8]) -> (r: bool)
    requires
        k <= hi <= b@.len(),
    ensures
        r == occurs_at(b@, k as int, hi as int, p@),
{
    if p.len() > hi - k {
        return false;
    }
    let mut j: usize = 0;
    while j < p.len()
        invariant
            k + p@.len() <= hi <= b@.len(),
            j <= p@.len(),
            forall|q: int| 0 <= q < j ==> #[trigger] b@[k + q] == p@[q],
        decreases p@.len() - j,
    {
        if b[k + j] != p[j] {
            assert(b@[k + j as int] != p@[j as int]);
            return false;
        }
        j = j + 1;
    }
    true
}

/// First occurrence of `p` at or after `k`, ending by `hi`.
pub(crate) fn exec_find(b: &[u8], k: usize, hi: usize, p: &[u8]) -> (r: Option<usize>)
    requires
        k <= hi <= b@.len(),
    ensures
        r == (match find(b@, k as int, hi as int, p@) {
            Some(q) => Some(q as usize),
            None => None::<usize>,
        }),
{
    proof {
        lemma_find_bounds(b@, k as int, hi as int, p@);
    }
    let mut q = k;
    loop
        invariant
            k <= q <= hi <= b@.len(),
            find(b@, q as int, hi as int, p@) == find(b@, k as int, hi as int, p@),
        decreases hi - q,
    {
        if p.len() > hi - q {
            return None;
        }
        if exec_occurs_at(b, q, hi, p) {
            return Some(q);
        }
        q = q + 1;
    }
}

} // verus!
