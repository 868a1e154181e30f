//! Searching and slicing text by byte offsets.
//!
//! A `&str` is seen as the sequence of its UTF-8 bytes. Every delimiter of the
//! wire grammar is ASCII, so a place found by comparing bytes is always a
//! boundary between characters, and the text can be cut there without copying.

use vstd::prelude::*;
use vstd::string::*;
use vstd::utf8::*;

verus! {

/// `needle` stands in `hay` at offset `i`.
pub open spec fn occurs_at(hay: Seq<u8>, needle: Seq<u8>, i: int) -> bool {
    &&& 0 <= i
    &&& i + needle.len() <= hay.len()
    &&& hay.subrange(i, i + needle.len()) == needle
}

/// `needle` stands in `hay` at offset `i` and at no smaller offset.
pub open spec fn first_at(hay: Seq<u8>, needle: Seq<u8>, i: int) -> bool {
    &&& occurs_at(hay, needle, i)
    &&& forall|j: int| 0 <= j < i ==> !occurs_at(hay, needle, j)
}

/// `needle` stands somewhere in `hay`.
pub open spec fn contains(hay: Seq<u8>, needle: Seq<u8>) -> bool {
    exists|i: int| occurs_at(hay, needle, i)
}

/// The offset of the first occurrence of `needle` in `hay`.
pub open spec fn find(hay: Seq<u8>, needle: Seq<u8>) -> Option<int> {
    if contains(hay, needle) {
        Some(choose|i: int| first_at(hay, needle, i))
    } else {
        None
    }
}

/// Among the occurrences at or below `i` there is a first one.
proof fn lemma_first_exists(hay: Seq<u8>, needle: Seq<u8>, i: int)
    requires
        occurs_at(hay, needle, i),
    ensures
        exists|k: int| first_at(hay, needle, k),
    decreases i,
{
    if exists|j: int| 0 <= j < i && occurs_at(hay, needle, j) {
        let j = choose|j: int| 0 <= j < i && occurs_at(hay, needle, j);
        lemma_first_exists(hay, needle, j);
    } else {
        assert(first_at(hay, needle, i));
    }
}

/// What `find` returns is the first occurrence, and `None` means there is none.
pub proof fn lemma_find(hay: Seq<u8>, needle: Seq<u8>)
    ensures
        match find(hay, needle) {
            Some(i) => first_at(hay, needle, i),
            None => forall|i: int| !occurs_at(hay, needle, i),
        },
{
    if contains(hay, needle) {
        let i = choose|i: int| occurs_at(hay, needle, i);
        lemma_first_exists(hay, needle, i);
    }
}

/// A first occurrence is what `find` returns.
pub proof fn lemma_find_first(hay: Seq<u8>, needle: Seq<u8>, i: int)
    requires
        first_at(hay, needle, i),
    ensures
        find(hay, needle) == Some(i),
{
    lemma_find(hay, needle);
    let k = find(hay, needle).unwrap();
    assert(first_at(hay, needle, k));
    if k < i {
        assert(!occurs_at(hay, needle, k));
    } else if i < k {
        assert(!occurs_at(hay, needle, i));
    }
}

/// Without an occurrence `find` returns `None`.
pub proof fn lemma_find_none(hay: Seq<u8>, needle: Seq<u8>)
    requires
        forall|i: int| !occurs_at(hay, needle, i),
    ensures
        find(hay, needle) is None,
{
}

/// Whether two byte strings are the same.
pub fn same_bytes(a: &[u8], b: &[u8]) -> (r: bool)
    ensures
        r == (a@ == b@),
{
    if a.len() != b.len() {
        return false;
    }
    let mut i: usize = 0;
    while i < a.len()
        invariant
            i <= a.len(),
            a.len() == b.len(),
            forall|k: int| 0 <= k < i ==> a@[k] == b@[k],
        decreases a.len() - i,
    {
        if a[i] != b[i] {
            return false;
        }
        i += 1;
    }
    assert(a@ =~= b@);
    true
}

/// Whether `needle` stands in `hay` at offset `i`.
fn matches_at(hay: &[u8], needle: &[u8], i: usize) -> (r: bool)
    requires
        i + needle.len() <= hay.len(),
    ensures
        r == occurs_at(hay@, needle@, i as int),
{
    let mut k: usize = 0;
    while k < needle.len()
        invariant
            k <= needle.len(),
            i + needle.len() <= hay.len(),
            forall|j: int| 0 <= j < k ==> hay@[i + j] == needle@[j],
        decreases needle.len() - k,
    {
        if hay[i + k] != needle[k] {
            assert(hay@.subrange(i as int, i + needle@.len())[k as int] != needle@[k as int]);
            return false;
        }
        k += 1;
    }
    assert(hay@.subrange(i as int, i + needle@.len()) =~= needle@);
    true
}

/// The offset of the first occurrence of `needle` in `hay`.
pub fn find_bytes(hay: &[u8], needle: &[u8]) -> (r: Option<usize>)
    ensures
        match r {
            Some(i) => find(hay@, needle@) == Some(i as int),
            None => find(hay@, needle@) is None,
        },
{
    if needle.len() > hay.len() {
        proof {
            lemma_find_none(hay@, needle@);
        }
        return None;
    }
    let last: usize = hay.len() - needle.len();
    let mut i: usize = 0;
    while i < last
        invariant
            i <= last,
            last == hay.len() - needle.len(),
            forall|j: int| 0 <= j < i ==> !occurs_at(hay@, needle@, j),
        decreases last - i,
    {
        if matches_at(hay, needle, i) {
            proof {
                lemma_find_first(hay@, needle@, i as int);
            }
            return Some(i);
        }
        i += 1;
    }
    if matches_at(hay, needle, last) {
        proof {
            lemma_find_first(hay@, needle@, last as int);
        }
        Some(last)
    } else {
        proof {
            lemma_find_none(hay@, needle@);
        }
        None
    }
}

/// What stands before and behind the first occurrence of `delim` in `text`.
pub open spec fn split_once(text: Seq<u8>, delim: Seq<u8>) -> Option<(Seq<u8>, Seq<u8>)> {
    match find(text, delim) {
        Some(at) => Some(
            (text.subrange(0, at), text.subrange(at + delim.len(), text.len() as int)),
        ),
        None => None,
    }
}

/// Every byte of `s` is ASCII.
pub open spec fn plain(s: Seq<u8>) -> bool {
    forall|i: int| 0 <= i < s.len() ==> #[trigger] s[i] < 0x80
}

/// The width in bytes of the first character of the text, by its first
/// byte; no more than the text has.
pub open spec fn first_char_width(s: Seq<u8>) -> int {
    if length_of_first_scalar(s) <= s.len() {
        length_of_first_scalar(s)
    } else {
        s.len() as int
    }
}

/// The text without its first character.
pub open spec fn without_first_char(s: Seq<u8>) -> Seq<u8> {
    s.subrange(first_char_width(s), s.len() as int)
}

/// The bytes of a piece of text are well-formed UTF-8.
pub proof fn lemma_text_valid(s: &str)
    ensures
        valid_utf8(s.spec_bytes()),
{
    encode_utf8_valid_utf8(s@);
}

/// In well-formed UTF-8 the first character ends inside the text, at a boundary.
pub proof fn lemma_boundary_after_first(bytes: Seq<u8>)
    requires
        valid_utf8(bytes),
        bytes.len() > 0,
    ensures
        1 <= length_of_first_scalar(bytes) <= bytes.len(),
        first_char_width(bytes) == length_of_first_scalar(bytes),
        is_char_boundary(bytes, length_of_first_scalar(bytes)),
        without_first_char(bytes) == pop_first_scalar(bytes),
        valid_utf8(without_first_char(bytes)),
{
    reveal_with_fuel(is_char_boundary, 2);
}

/// In well-formed UTF-8 an ASCII byte is a character of its own: the text can
/// be cut before it and behind it.
pub proof fn lemma_boundary_around_ascii(bytes: Seq<u8>, i: int)
    requires
        valid_utf8(bytes),
        0 <= i < bytes.len(),
        bytes[i] < 0x80,
    ensures
        is_char_boundary(bytes, i),
        is_char_boundary(bytes, i + 1),
{
    is_char_boundary_iff_not_is_continuation_byte(bytes, i);
    if i + 1 < bytes.len() {
        valid_utf8_split(bytes, i);
        let tail = bytes.subrange(i, bytes.len() as int);
        lemma_boundary_after_first(tail);
        let rest = without_first_char(tail);
        assert(rest[0] == bytes[i + 1]);
        assert(valid_first_scalar(rest));
        is_char_boundary_iff_not_is_continuation_byte(bytes, i + 1);
    } else {
        is_char_boundary_start_end_of_seq(bytes);
    }
}

/// Where an ASCII needle stands in well-formed UTF-8, the text can be cut
/// before it and behind it.
pub proof fn lemma_boundary_around_occurrence(hay: Seq<u8>, needle: Seq<u8>, i: int)
    requires
        valid_utf8(hay),
        occurs_at(hay, needle, i),
        needle.len() > 0,
        plain(needle),
    ensures
        is_char_boundary(hay, i),
        is_char_boundary(hay, i + needle.len()),
{
    let n = needle.len() as int;
    assert(hay.subrange(i, i + n)[0] == needle[0]);
    assert(hay.subrange(i, i + n)[n - 1] == needle[n - 1]);
    lemma_boundary_around_ascii(hay, i);
    lemma_boundary_around_ascii(hay, i + n - 1);
}

/// The offset of the first occurrence of `needle` in `hay`, in bytes.
pub fn find_text(hay: &str, needle: &str) -> (r: Option<usize>)
    ensures
        match r {
            Some(i) => {
                &&& find(hay.spec_bytes(), needle.spec_bytes()) == Some(i as int)
                &&& first_at(hay.spec_bytes(), needle.spec_bytes(), i as int)
                &&& i + needle.spec_bytes().len() <= hay.spec_bytes().len() <= usize::MAX
            },
            None => find(hay.spec_bytes(), needle.spec_bytes()) is None,
        },
{
    proof {
        lemma_find(hay.spec_bytes(), needle.spec_bytes());
    }
    let bytes = hay.as_bytes();
    assert(bytes@.len() == bytes.len());
    find_bytes(bytes, needle.as_bytes())
}

/// Whether two pieces of text hold the same bytes.
pub fn same_text(a: &str, b: &str) -> (r: bool)
    ensures
        r == (a.spec_bytes() == b.spec_bytes()),
{
    same_bytes(a.as_bytes(), b.as_bytes())
}

/// The part of `s` between the byte offsets `from` and `to`.
pub fn cut<'a>(s: &'a str, from: usize, to: usize) -> (r: &'a str)
    requires
        from <= to <= s.spec_bytes().len(),
        is_char_boundary(s.spec_bytes(), from as int),
        is_char_boundary(s.spec_bytes(), to as int),
    ensures
        r.spec_bytes() == s.spec_bytes().subrange(from as int, to as int),
{
    let (head, _) = s.split_at(to);
    proof {
        lemma_text_valid(s);
        lemma_text_valid(head);
        if from < to {
            is_char_boundary_iff_not_is_continuation_byte(s.spec_bytes(), from as int);
            is_char_boundary_iff_not_is_continuation_byte(head.spec_bytes(), from as int);
        } else {
            is_char_boundary_start_end_of_seq(head.spec_bytes());
        }
    }
    let (_, r) = head.split_at(from);
    assert(r.spec_bytes() =~= s.spec_bytes().subrange(from as int, to as int));
    r
}

/// The part of `s` from the byte offset `from` on.
pub fn cut_from<'a>(s: &'a str, from: usize) -> (r: &'a str)
    requires
        from <= s.spec_bytes().len(),
        is_char_boundary(s.spec_bytes(), from as int),
    ensures
        r.spec_bytes() == s.spec_bytes().subrange(from as int, s.spec_bytes().len() as int),
{
    let (_, r) = s.split_at(from);
    r
}

/// What stands before and behind the first occurrence of `delim` in `text`.
pub fn split_text<'a>(text: &'a str, delim: &str) -> (r: Option<(&'a str, &'a str)>)
    requires
        delim.spec_bytes().len() > 0,
        plain(delim.spec_bytes()),
    ensures
        match r {
            Some((before, behind)) => split_once(text.spec_bytes(), delim.spec_bytes()) == Some(
                (before.spec_bytes(), behind.spec_bytes()),
            ),
            None => split_once(text.spec_bytes(), delim.spec_bytes()) is None,
        },
{
    match find_text(text, delim) {
        Some(at) => {
            proof {
                lemma_text_valid(text);
                lemma_boundary_around_occurrence(
                    text.spec_bytes(),
                    delim.spec_bytes(),
                    at as int,
                );
                is_char_boundary_start_end_of_seq(text.spec_bytes());
            }
            Some((cut(text, 0, at), cut_from(text, at + delim.len())))
        },
        None => None,
    }
}

/// The text behind the first character of `s`, if `s` has one.
pub fn drop_first_char<'a>(s: &'a str) -> (r: Option<&'a str>)
    ensures
        match r {
            Some(t) => s.spec_bytes().len() > 0 && t.spec_bytes() == without_first_char(
                s.spec_bytes(),
            ),
            None => s.spec_bytes().len() == 0,
        },
{
    let bytes = s.as_bytes();
    if bytes.len() == 0 {
        return None;
    }
    let lead: u8 = bytes[0];
    let width: usize = if lead <= 0x7f {
        1
    } else if 0xc0 <= lead && lead <= 0xdf {
        2
    } else if 0xe0 <= lead && lead <= 0xef {
        3
    } else {
        4
    };
    proof {
        lemma_text_valid(s);
        lemma_boundary_after_first(s.spec_bytes());
    }
    Some(cut_from(s, width))
}

/// The encoding of two pieces of text put together is their encodings put
/// together.
pub proof fn lemma_utf8_concat(a: Seq<char>, b: Seq<char>)
    ensures
        encode_utf8(a + b) == encode_utf8(a) + encode_utf8(b),
    decreases a.len(),
{
    if a.len() == 0 {
        assert(a + b =~= b);
        assert(encode_utf8(a) + encode_utf8(b) =~= encode_utf8(b));
    } else {
        lemma_utf8_concat(a.drop_first(), b);
        assert((a + b).drop_first() =~= a.drop_first() + b);
        assert(encode_utf8(a + b) =~= encode_utf8(a) + encode_utf8(b));
    }
}

/// Appends `s` to `out`.
pub fn push_text(out: &mut String, s: &str)
    ensures
        encode_utf8(final(out)@) == encode_utf8(old(out)@) + s.spec_bytes(),
{
    proof {
        lemma_utf8_concat(out@, s@);
    }
    out.append(s);
}

/// An occurrence, byte by byte.
pub proof fn lemma_occurs_bytes(hay: Seq<u8>, needle: Seq<u8>, i: int)
    ensures
        occurs_at(hay, needle, i) <==> (0 <= i && i + needle.len() <= hay.len() && forall|k: int|
            0 <= k < needle.len() ==> hay[i + k] == #[trigger] needle[k]),
{
    if 0 <= i && i + needle.len() <= hay.len() {
        let part = hay.subrange(i, i + needle.len());
        if occurs_at(hay, needle, i) {
            assert forall|k: int| 0 <= k < needle.len() implies hay[i + k]
                == #[trigger] needle[k] by {
                assert(part[k] == hay[i + k]);
            }
        }
        if forall|k: int| 0 <= k < needle.len() ==> hay[i + k] == #[trigger] needle[k] {
            assert(part =~= needle);
        }
    }
}

/// An occurrence begins with the first byte of the needle.
pub proof fn lemma_occurs_first(hay: Seq<u8>, needle: Seq<u8>, i: int)
    requires
        occurs_at(hay, needle, i),
        needle.len() > 0,
    ensures
        0 <= i < hay.len(),
        hay[i] == needle[0],
{
    lemma_occurs_bytes(hay, needle, i);
    assert(hay[i + 0] == needle[0]);
}

/// An occurrence in a part of the text is an occurrence in the text.
pub proof fn lemma_occurs_in_part(hay: Seq<u8>, from: int, to: int, needle: Seq<u8>, i: int)
    requires
        0 <= from <= to <= hay.len(),
        from <= i,
        i + needle.len() <= to,
    ensures
        occurs_at(hay, needle, i) == occurs_at(hay.subrange(from, to), needle, i - from),
{
    assert(hay.subrange(from, to).subrange(i - from, i - from + needle.len()) =~= hay.subrange(
        i,
        i + needle.len(),
    ));
}

/// A needle whose first byte does not stand in `head` is first found right
/// behind `head`.
pub proof fn lemma_split_clean_head(head: Seq<u8>, needle: Seq<u8>, tail: Seq<u8>)
    requires
        needle.len() > 0,
        forall|k: int| 0 <= k < head.len() ==> #[trigger] head[k] != needle[0],
    ensures
        split_once(head + needle + tail, needle) == Some((head, tail)),
        find(head + needle + tail, needle) == Some(head.len() as int),
{
    let hay = head + needle + tail;
    let at = head.len() as int;
    assert(hay.subrange(at, at + needle.len()) =~= needle);
    assert forall|j: int| 0 <= j < at implies !occurs_at(hay, needle, j) by {
        lemma_occurs_bytes(hay, needle, j);
        assert(hay[j] == head[j]);
    }
    lemma_find_first(hay, needle, at);
    assert(hay.subrange(0, at) =~= head);
    assert(hay.subrange(at + needle.len(), hay.len() as int) =~= tail);
}

/// A needle that does not stand in `head`, and whose first byte stands
/// nowhere else in it, is first found right behind `head`.
pub proof fn lemma_split_junction(head: Seq<u8>, needle: Seq<u8>, tail: Seq<u8>)
    requires
        needle.len() > 0,
        !contains(head, needle),
        forall|k: int| 0 < k < needle.len() ==> #[trigger] needle[k] != needle[0],
    ensures
        split_once(head + needle + tail, needle) == Some((head, tail)),
        find(head + needle + tail, needle) == Some(head.len() as int),
{
    let hay = head + needle + tail;
    let at = head.len() as int;
    assert(hay.subrange(at, at + needle.len()) =~= needle);
    assert forall|j: int| 0 <= j < at implies !occurs_at(hay, needle, j) by {
        if occurs_at(hay, needle, j) {
            if j + needle.len() <= at {
                lemma_occurs_in_part(hay, 0, at, needle, j);
                assert(hay.subrange(0, at) =~= head);
                assert(occurs_at(head, needle, j));
            } else {
                lemma_occurs_bytes(hay, needle, j);
                let k = at - j;
                assert(hay[j + k] == needle[k]);
                assert(hay[at] == needle[0]);
            }
        }
    }
    lemma_find_first(hay, needle, at);
    assert(hay.subrange(0, at) =~= head);
    assert(hay.subrange(at + needle.len(), hay.len() as int) =~= tail);
}

/// A needle stands in `head + rest` only inside `rest`, where its first byte
/// does not stand in `head`.
pub proof fn lemma_occurs_behind(head: Seq<u8>, rest: Seq<u8>, needle: Seq<u8>, i: int)
    requires
        needle.len() > 0,
        forall|k: int| 0 <= k < head.len() ==> #[trigger] head[k] != needle[0],
        occurs_at(head + rest, needle, i),
    ensures
        i >= head.len(),
        occurs_at(rest, needle, i - head.len()),
{
    let hay = head + rest;
    lemma_occurs_bytes(hay, needle, i);
    if i < head.len() {
        assert(hay[i] == head[i]);
    }
    lemma_occurs_in_part(hay, head.len() as int, hay.len() as int, needle, i);
    assert(hay.subrange(head.len() as int, hay.len() as int) =~= rest);
}

/// A needle that does not stand in `rest` does not stand in `head + rest`,
/// where its first byte does not stand in `head`.
pub proof fn lemma_absent_behind(head: Seq<u8>, rest: Seq<u8>, needle: Seq<u8>)
    requires
        needle.len() > 0,
        forall|k: int| 0 <= k < head.len() ==> #[trigger] head[k] != needle[0],
        !contains(rest, needle),
    ensures
        !contains(head + rest, needle),
        find(head + rest, needle) is None,
        split_once(head + rest, needle) is None,
{
    assert forall|i: int| !occurs_at(head + rest, needle, i) by {
        if occurs_at(head + rest, needle, i) {
            lemma_occurs_behind(head, rest, needle, i);
        }
    }
}

/// A needle that holds no byte `sep` stands in `a`, `sep`, `b` only inside
/// `a` or inside `b`.
pub proof fn lemma_absent_around_byte(a: Seq<u8>, sep: u8, b: Seq<u8>, needle: Seq<u8>)
    requires
        needle.len() > 0,
        !contains(a, needle),
        !contains(b, needle),
        forall|k: int| 0 <= k < needle.len() ==> #[trigger] needle[k] != sep,
    ensures
        !contains(a + seq![sep] + b, needle),
{
    let hay = a + seq![sep] + b;
    let at = a.len() as int;
    assert forall|i: int| !occurs_at(hay, needle, i) by {
        if occurs_at(hay, needle, i) {
            if i + needle.len() <= at {
                lemma_occurs_in_part(hay, 0, at, needle, i);
                assert(hay.subrange(0, at) =~= a);
                assert(occurs_at(a, needle, i));
            } else if i > at {
                lemma_occurs_in_part(hay, at + 1, hay.len() as int, needle, i);
                assert(hay.subrange(at + 1, hay.len() as int) =~= b);
                assert(occurs_at(b, needle, i - at - 1));
            } else {
                lemma_occurs_bytes(hay, needle, i);
                let k = at - i;
                assert(hay[i + k] == needle[k]);
                assert(hay[at] == sep);
            }
        }
    }
}

} // verus!
