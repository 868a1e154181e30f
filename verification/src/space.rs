//! White space at the two ends of a line.
//!
//! White space is what Unicode marks as `White_Space`: the ASCII
//! blanks and line ends, and a few characters of two and three bytes. It is
//! recognised here by the UTF-8 encoding of each character.

use vstd::prelude::*;
use vstd::string::*;
use vstd::utf8::*;
use crate::text::{cut, lemma_boundary_after_first, lemma_text_valid};

verus! {

/// A white-space character of one byte: tab, line feed, vertical tab, form
/// feed, carriage return or space.
pub open spec fn is_space1(a: u8) -> bool {
    0x09 <= a <= 0x0d || a == 0x20
}

/// A white-space character of two bytes: U+0085 or U+00A0.
pub open spec fn is_space2(a: u8, b: u8) -> bool {
    a == 0xc2 && (b == 0x85 || b == 0xa0)
}

/// A white-space character of three bytes: U+1680, U+2000 to U+200A, U+2028,
/// U+2029, U+202F, U+205F or U+3000.
pub open spec fn is_space3(a: u8, b: u8, c: u8) -> bool {
    ||| a == 0xe1 && b == 0x9a && c == 0x80
    ||| a == 0xe2 && b == 0x80 && (0x80 <= c <= 0x8a || c == 0xa8 || c == 0xa9 || c == 0xaf)
    ||| a == 0xe2 && b == 0x81 && c == 0x9f
    ||| a == 0xe3 && b == 0x80 && c == 0x80
}

/// The width in bytes of the white-space character that `s` begins with, or 0
/// where it begins with none.
pub open spec fn space_at_start(s: Seq<u8>) -> int {
    if s.len() >= 1 && is_space1(s[0]) {
        1
    } else if s.len() >= 2 && is_space2(s[0], s[1]) {
        2
    } else if s.len() >= 3 && is_space3(s[0], s[1], s[2]) {
        3
    } else {
        0
    }
}

/// The width in bytes of the white-space character that `s` ends with, or 0
/// where it ends with none.
pub open spec fn space_at_end(s: Seq<u8>) -> int {
    let n = s.len() as int;
    if n >= 1 && is_space1(s[n - 1]) {
        1
    } else if n >= 2 && is_space2(s[n - 2], s[n - 1]) {
        2
    } else if n >= 3 && is_space3(s[n - 3], s[n - 2], s[n - 1]) {
        3
    } else {
        0
    }
}

/// `s` without the white space it begins with.
pub open spec fn trim_start(s: Seq<u8>) -> Seq<u8>
    decreases s.len(),
{
    if space_at_start(s) > 0 {
        trim_start(s.subrange(space_at_start(s), s.len() as int))
    } else {
        s
    }
}

/// `s` without the white space it ends with.
pub open spec fn trim_end(s: Seq<u8>) -> Seq<u8>
    decreases s.len(),
{
    if space_at_end(s) > 0 {
        trim_end(s.subrange(0, s.len() - space_at_end(s)))
    } else {
        s
    }
}

/// `s` without the white space at its two ends.
pub open spec fn trim(s: Seq<u8>) -> Seq<u8> {
    trim_end(trim_start(s))
}

fn space1(a: u8) -> (r: bool)
    ensures
        r == is_space1(a),
{
    (0x09 <= a && a <= 0x0d) || a == 0x20
}

fn space2(a: u8, b: u8) -> (r: bool)
    ensures
        r == is_space2(a, b),
{
    a == 0xc2 && (b == 0x85 || b == 0xa0)
}

fn space3(a: u8, b: u8, c: u8) -> (r: bool)
    ensures
        r == is_space3(a, b, c),
{
    (a == 0xe1 && b == 0x9a && c == 0x80) || (a == 0xe2 && b == 0x80 && ((0x80 <= c && c <= 0x8a)
        || c == 0xa8 || c == 0xa9 || c == 0xaf)) || (a == 0xe2 && b == 0x81 && c == 0x9f) || (a
        == 0xe3 && b == 0x80 && c == 0x80)
}

/// The width of the white-space character that begins at offset `i`.
fn space_width_at(bytes: &[u8], i: usize) -> (w: usize)
    requires
        i <= bytes.len(),
    ensures
        w == space_at_start(bytes@.subrange(i as int, bytes@.len() as int)),
        i + w <= bytes.len(),
{
    let n: usize = bytes.len() - i;
    if n >= 1 && space1(bytes[i]) {
        1
    } else if n >= 2 && space2(bytes[i], bytes[i + 1]) {
        2
    } else if n >= 3 && space3(bytes[i], bytes[i + 1], bytes[i + 2]) {
        3
    } else {
        0
    }
}

/// The width of the white-space character that ends at offset `j`, looking
/// no further back than offset `lo`.
fn space_width_before(bytes: &[u8], lo: usize, j: usize) -> (w: usize)
    requires
        lo <= j <= bytes.len(),
    ensures
        w == space_at_end(bytes@.subrange(lo as int, j as int)),
        lo + w <= j,
{
    let n: usize = j - lo;
    if n >= 1 && space1(bytes[j - 1]) {
        1
    } else if n >= 2 && space2(bytes[j - 2], bytes[j - 1]) {
        2
    } else if n >= 3 && space3(bytes[j - 3], bytes[j - 2], bytes[j - 1]) {
        3
    } else {
        0
    }
}

/// A white-space character at a boundary ends at a boundary.
proof fn lemma_boundary_after_space(bytes: Seq<u8>, i: int)
    requires
        valid_utf8(bytes),
        0 <= i <= bytes.len(),
        is_char_boundary(bytes, i),
        space_at_start(bytes.subrange(i, bytes.len() as int)) > 0,
    ensures
        is_char_boundary(bytes, i + space_at_start(bytes.subrange(i, bytes.len() as int))),
{
    let tail = bytes.subrange(i, bytes.len() as int);
    let w = space_at_start(tail);
    valid_utf8_split(bytes, i);
    lemma_boundary_after_first(tail);
    assert(length_of_first_scalar(tail) == w);
    if i + w < bytes.len() {
        let rest = pop_first_scalar(tail);
        assert(rest[0] == bytes[i + w]);
        assert(valid_first_scalar(rest));
        is_char_boundary_iff_not_is_continuation_byte(bytes, i + w);
    } else {
        is_char_boundary_start_end_of_seq(bytes);
    }
}

/// A white-space character begins at a boundary.
proof fn lemma_boundary_before_space(bytes: Seq<u8>, lo: int, j: int)
    requires
        valid_utf8(bytes),
        0 <= lo <= j <= bytes.len(),
        space_at_end(bytes.subrange(lo, j)) > 0,
    ensures
        is_char_boundary(bytes, j - space_at_end(bytes.subrange(lo, j))),
{
    let w = space_at_end(bytes.subrange(lo, j));
    assert(bytes.subrange(lo, j)[j - lo - w] == bytes[j - w]);
    is_char_boundary_iff_not_is_continuation_byte(bytes, j - w);
}

/// The line without the white space at its two ends.
pub fn trim_text<'a>(s: &'a str) -> (r: &'a str)
    ensures
        r.spec_bytes() == trim(s.spec_bytes()),
{
    let bytes = s.as_bytes();
    let len: usize = bytes.len();
    proof {
        lemma_text_valid(s);
        is_char_boundary_start_end_of_seq(bytes@);
        assert(bytes@.subrange(0, len as int) =~= bytes@);
    }
    let mut i: usize = 0;
    let mut w: usize = space_width_at(bytes, i);
    while w > 0
        invariant
            valid_utf8(bytes@),
            len == bytes.len(),
            i + w <= len,
            is_char_boundary(bytes@, i as int),
            w == space_at_start(bytes@.subrange(i as int, len as int)),
            trim_start(bytes@) == trim_start(bytes@.subrange(i as int, len as int)),
        decreases len - i,
    {
        proof {
            lemma_boundary_after_space(bytes@, i as int);
            assert(bytes@.subrange(i as int, len as int).subrange(w as int, len - i)
                =~= bytes@.subrange(i + w, len as int));
        }
        i += w;
        w = space_width_at(bytes, i);
    }
    let ghost rest = bytes@.subrange(i as int, len as int);
    assert(trim_start(bytes@) == rest);
    let mut j: usize = len;
    let mut v: usize = space_width_before(bytes, i, j);
    while v > 0
        invariant
            valid_utf8(bytes@),
            i <= j <= len,
            len == bytes.len(),
            i + v <= j,
            is_char_boundary(bytes@, j as int),
            v == space_at_end(bytes@.subrange(i as int, j as int)),
            trim_end(rest) == trim_end(bytes@.subrange(i as int, j as int)),
        decreases j,
    {
        proof {
            lemma_boundary_before_space(bytes@, i as int, j as int);
            assert(bytes@.subrange(i as int, j as int).subrange(0, j - i - v)
                =~= bytes@.subrange(i as int, j - v));
        }
        j -= v;
        v = space_width_before(bytes, i, j);
    }
    cut(s, i, j)
}

} // verus!
