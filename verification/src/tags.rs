//! The tags of a message: typed values, and the mapping from key to value.

use vstd::prelude::*;
use vstd::slice::slice_subrange;
use vstd::std_specs::cmp::PartialEqSpecImpl;
use vstd::string::*;
use vstd::utf8::*;
use crate::hash::{fnv1a, hash_bytes, FNV_OFFSET};
use crate::number::{decimal, parse_unsigned, push_decimal, read_unsigned};
use crate::text::{push_text, same_text};

verus! {

/// The byte `#`, which begins a colour written in hexadecimal.
pub const HASH: u8 = 0x23;

/// The value of one tag.
#[derive(Debug, Clone, Copy)]
pub enum TagValue<'a> {
    /// A number that fits in 32 bits, written in decimal, or in hexadecimal
    /// behind a `#`.
    Number(u32),
    /// A decimal number that needs more than 32 bits.
    Timestamp(u64),
    /// The literal `1` (true) or `0` (false). A tag whose number happens to
    /// be 0 or 1 is read as a boolean too.
    Boolean(bool),
    /// Any other text.
    String(&'a str),
    /// The empty text.
    Empty,
}

/// What a [`TagValue`] stands for, with text as bytes.
pub enum TagValueView {
    Number(u32),
    Timestamp(u64),
    Boolean(bool),
    String(Seq<u8>),
    Empty,
}

impl<'a> View for TagValue<'a> {
    type V = TagValueView;

    open spec fn view(&self) -> TagValueView {
        match *self {
            TagValue::Number(n) => TagValueView::Number(n),
            TagValue::Timestamp(t) => TagValueView::Timestamp(t),
            TagValue::Boolean(b) => TagValueView::Boolean(b),
            TagValue::String(s) => TagValueView::String(s.spec_bytes()),
            TagValue::Empty => TagValueView::Empty,
        }
    }
}

/// The typed value that the text of a tag value denotes. The first case that
/// fits decides: the empty text; `0` and `1`; a decimal number of 32 bits;
/// one of 64 bits; `#` and a hexadecimal number of 32 bits; any other text.
pub open spec fn infer(raw: Seq<u8>) -> TagValueView {
    if raw.len() == 0 {
        TagValueView::Empty
    } else if raw == "0".spec_bytes() {
        TagValueView::Boolean(false)
    } else if raw == "1".spec_bytes() {
        TagValueView::Boolean(true)
    } else if let Some(n) = parse_unsigned(raw, 10, u32::MAX as nat) {
        TagValueView::Number(n as u32)
    } else if let Some(t) = parse_unsigned(raw, 10, u64::MAX as nat) {
        TagValueView::Timestamp(t as u64)
    } else if raw[0] == HASH && parse_unsigned(raw.drop_first(), 16, u32::MAX as nat) is Some {
        TagValueView::Number(parse_unsigned(raw.drop_first(), 16, u32::MAX as nat).unwrap() as u32)
    } else {
        TagValueView::String(raw)
    }
}

/// The text that a tag value is written as: numbers in decimal, booleans as
/// `1` and `0`, text as it is.
pub open spec fn value_text(value: TagValueView) -> Seq<u8> {
    match value {
        TagValueView::Number(n) => decimal(n as nat),
        TagValueView::Timestamp(t) => decimal(t as nat),
        TagValueView::Boolean(b) => if b {
            "1".spec_bytes()
        } else {
            "0".spec_bytes()
        },
        TagValueView::String(s) => s,
        TagValueView::Empty => Seq::empty(),
    }
}

impl<'a> TagValue<'a> {
    /// The typed value that `val` denotes.
    pub fn new(val: &'a str) -> (r: TagValue<'a>)
        ensures
            r@ == infer(val.spec_bytes()),
    {
        let bytes = val.as_bytes();
        if bytes.len() == 0 {
            return TagValue::Empty;
        }
        if same_text(val, "0") {
            return TagValue::Boolean(false);
        }
        if same_text(val, "1") {
            return TagValue::Boolean(true);
        }
        if let Some(n) = read_unsigned(bytes, 10, 0xffff_ffff) {
            return TagValue::Number(n as u32);
        }
        if let Some(t) = read_unsigned(bytes, 10, 0xffff_ffff_ffff_ffff) {
            return TagValue::Timestamp(t);
        }
        if bytes[0] == HASH {
            let digits = slice_subrange(bytes, 1, bytes.len());
            assert(digits@ =~= bytes@.drop_first());
            if let Some(n) = read_unsigned(digits, 16, 0xffff_ffff) {
                return TagValue::Number(n as u32);
            }
        }
        TagValue::String(val)
    }

    /// Appends the text that the value is written as to `out`.
    pub fn write_to(&self, out: &mut String)
        ensures
            encode_utf8(final(out)@) == encode_utf8(old(out)@) + value_text(self@),
    {
        match self {
            TagValue::Number(n) => push_decimal(out, *n as u64),
            TagValue::Timestamp(t) => push_decimal(out, *t),
            TagValue::Boolean(b) => {
                if *b {
                    push_text(out, "1")
                } else {
                    push_text(out, "0")
                }
            },
            TagValue::String(s) => push_text(out, s),
            TagValue::Empty => {
                assert(encode_utf8(out@) + Seq::<u8>::empty() =~= encode_utf8(out@));
            },
        }
    }

    /// The text that the value is written as.
    pub fn to_string(&self) -> (r: String)
        ensures
            encode_utf8(r@) == value_text(self@),
    {
        let mut out = String::new();
        self.write_to(&mut out);
        assert(Seq::<u8>::empty() + value_text(self@) =~= value_text(self@));
        out
    }
}

impl<'a> PartialEq for TagValue<'a> {
    fn eq(&self, other: &Self) -> (r: bool) {
        match (self, other) {
            (TagValue::Number(a), TagValue::Number(b)) => *a == *b,
            (TagValue::Timestamp(a), TagValue::Timestamp(b)) => *a == *b,
            (TagValue::Boolean(a), TagValue::Boolean(b)) => *a == *b,
            (TagValue::String(a), TagValue::String(b)) => same_text(a, b),
            (TagValue::Empty, TagValue::Empty) => true,
            _ => false,
        }
    }
}

impl<'a> PartialEqSpecImpl for TagValue<'a> {
    open spec fn obeys_eq_spec() -> bool {
        true
    }

    open spec fn eq_spec(&self, other: &Self) -> bool {
        self@ == other@
    }
}

/// The entries of a tag mapping in the order in which their keys first came,
/// as plain values.
pub type TagList = Seq<(Seq<u8>, TagValueView)>;

/// `key` is one of the keys of `list`.
pub open spec fn has_key(list: TagList, key: Seq<u8>) -> bool {
    exists|i: int| 0 <= i < list.len() && (#[trigger] list[i]).0 == key
}

/// An offset in `list` at which `key` stands: the only one where the keys
/// are distinct.
pub open spec fn key_index(list: TagList, key: Seq<u8>) -> int {
    choose|i: int| 0 <= i < list.len() && (#[trigger] list[i]).0 == key
}

/// No key stands twice in `list`.
pub open spec fn distinct_keys(list: TagList) -> bool {
    forall|i: int, j: int|
        0 <= i < j < list.len() ==> (#[trigger] list[i]).0 != (#[trigger] list[j]).0
}

/// The value that `list` gives `key`.
pub open spec fn lookup(list: TagList, key: Seq<u8>) -> Option<TagValueView> {
    if has_key(list, key) {
        Some(list[key_index(list, key)].1)
    } else {
        None
    }
}

/// `list` after `key` has been given `value`: a key that is there keeps its
/// place and gets the new value, a new key goes to the end.
pub open spec fn insert_tag(list: TagList, key: Seq<u8>, value: TagValueView) -> TagList {
    if has_key(list, key) {
        list.update(key_index(list, key), (key, value))
    } else {
        list.push((key, value))
    }
}

/// Two lists give every key the same value.
pub open spec fn same_mapping(a: TagList, b: TagList) -> bool {
    forall|key: Seq<u8>| lookup(a, key) == lookup(b, key)
}

/// Where the keys are distinct, a key stands at one offset only.
pub proof fn lemma_key_index(list: TagList, i: int)
    requires
        distinct_keys(list),
        0 <= i < list.len(),
    ensures
        has_key(list, list[i].0),
        key_index(list, list[i].0) == i,
        lookup(list, list[i].0) == Some(list[i].1),
{
    let k = key_index(list, list[i].0);
    assert(0 <= k < list.len() && list[k].0 == list[i].0);
}

/// Giving a key a value keeps the keys distinct.
pub proof fn lemma_insert_distinct(list: TagList, key: Seq<u8>, value: TagValueView)
    requires
        distinct_keys(list),
    ensures
        distinct_keys(insert_tag(list, key, value)),
        insert_tag(list, key, value).len() > 0,
        lookup(insert_tag(list, key, value), key) == Some(value),
{
    let after = insert_tag(list, key, value);
    if has_key(list, key) {
        let k = key_index(list, key);
        assert forall|i: int, j: int| 0 <= i < j < after.len() implies (#[trigger] after[i]).0 != (
        #[trigger] after[j]).0 by {
            assert(after[i].0 == list[i].0);
            assert(after[j].0 == list[j].0);
        }
        lemma_key_index(after, k);
    } else {
        assert forall|i: int, j: int| 0 <= i < j < after.len() implies (#[trigger] after[i]).0 != (
        #[trigger] after[j]).0 by {
            if j == list.len() {
                assert(list[i].0 != key);
            }
        }
        lemma_key_index(after, list.len() as int);
    }
}

/// One entry of a tag mapping, with the hash of its key.
#[derive(Debug, Clone, Copy)]
struct Entry<'a> {
    hash: u64,
    key: &'a str,
    value: TagValue<'a>,
}

/// The tags of a message: a mapping from key to [`TagValue`].
///
/// The entries are kept in the order in which their keys were first inserted,
/// and are written out in that order. Each entry carries the FNV-1a hash of
/// its key, so that a lookup compares hashes before it compares text.
#[derive(Debug)]
pub struct Tags<'a> {
    entries: Vec<Entry<'a>>,
}

/// The entries as plain values.
spec fn list_of(entries: Seq<Entry>) -> TagList {
    Seq::new(entries.len(), |i: int| (entries[i].key.spec_bytes(), entries[i].value@))
}

/// The keys are distinct, and each entry carries the hash of its key.
spec fn well_formed_entries(entries: Seq<Entry>) -> bool {
    &&& distinct_keys(list_of(entries))
    &&& forall|i: int|
        0 <= i < entries.len() ==> (#[trigger] entries[i]).hash == fnv1a(
            FNV_OFFSET,
            entries[i].key.spec_bytes(),
        )
}

impl<'a> View for Tags<'a> {
    type V = TagList;

    closed spec fn view(&self) -> TagList {
        list_of(self.entries@)
    }
}

impl<'a> Tags<'a> {
    #[verifier::type_invariant]
    spec fn well_formed(&self) -> bool {
        well_formed_entries(self.entries@)
    }

    /// A mapping without entries.
    pub fn new() -> (r: Tags<'a>)
        ensures
            r@ == TagList::empty(),
    {
        let entries: Vec<Entry<'a>> = Vec::new();
        assert(list_of(entries@) =~= TagList::empty());
        Tags { entries }
    }

    /// The number of entries, each with a key of its own.
    pub fn len(&self) -> (r: usize)
        ensures
            r == self@.len(),
            distinct_keys(self@),
    {
        proof {
            use_type_invariant(self);
        }
        self.entries.len()
    }

    /// Whether the mapping has no entry.
    pub fn is_empty(&self) -> (r: bool)
        ensures
            r == (self@.len() == 0),
    {
        self.entries.len() == 0
    }

    /// The offset of the entry of `key`, whose hash is `hash`.
    fn position(&self, key: &str, hash: u64) -> (r: Option<usize>)
        requires
            hash == fnv1a(FNV_OFFSET, key.spec_bytes()),
        ensures
            match r {
                Some(i) => i < self@.len() && self@[i as int].0 == key.spec_bytes() && key_index(
                    self@,
                    key.spec_bytes(),
                ) == i,
                None => true,
            },
            r is Some == has_key(self@, key.spec_bytes()),
    {
        proof {
            use_type_invariant(self);
        }
        let mut i: usize = 0;
        while i < self.entries.len()
            invariant
                i <= self.entries@.len(),
                hash == fnv1a(FNV_OFFSET, key.spec_bytes()),
                self.well_formed(),
                forall|k: int| 0 <= k < i ==> (#[trigger] self@[k]).0 != key.spec_bytes(),
            decreases self.entries@.len() - i,
        {
            let entry = &self.entries[i];
            if entry.hash == hash && same_text(entry.key, key) {
                proof {
                    lemma_key_index(self@, i as int);
                }
                return Some(i);
            }
            i += 1;
        }
        None
    }

    /// The value of `key`, if the mapping has one.
    pub fn get(&self, key: &str) -> (r: Option<&TagValue<'a>>)
        ensures
            match r {
                Some(value) => lookup(self@, key.spec_bytes()) == Some(value@),
                None => lookup(self@, key.spec_bytes()) is None,
            },
    {
        match self.position(key, hash_bytes(key.as_bytes())) {
            Some(i) => Some(&self.entries[i].value),
            None => None,
        }
    }

    /// Whether the mapping has a value for `key`.
    pub fn contains_key(&self, key: &str) -> (r: bool)
        ensures
            r == has_key(self@, key.spec_bytes()),
    {
        self.position(key, hash_bytes(key.as_bytes())).is_some()
    }

    /// The entry at offset `i` in the order of insertion.
    pub fn entry(&self, i: usize) -> (r: Option<(&'a str, TagValue<'a>)>)
        ensures
            match r {
                Some((key, value)) => i < self@.len() && self@[i as int] == (
                    key.spec_bytes(),
                    value@,
                ),
                None => i >= self@.len(),
            },
    {
        if i < self.entries.len() {
            Some((self.entries[i].key, self.entries[i].value))
        } else {
            None
        }
    }

    /// Gives `key` the value `value`, and returns the value it had.
    pub fn insert(&mut self, key: &'a str, value: TagValue<'a>) -> (r: Option<TagValue<'a>>)
        ensures
            final(self)@ == insert_tag(old(self)@, key.spec_bytes(), value@),
            match r {
                Some(before) => lookup(old(self)@, key.spec_bytes()) == Some(before@),
                None => lookup(old(self)@, key.spec_bytes()) is None,
            },
    {
        proof {
            use_type_invariant(&*self);
            lemma_insert_distinct(self@, key.spec_bytes(), value@);
        }
        let hash = hash_bytes(key.as_bytes());
        let found = self.position(key, hash);
        // The entries are taken out while they change, so that the mapping is
        // well formed whenever it is looked at.
        let mut entries: Vec<Entry<'a>> = Vec::new();
        assert(list_of(entries@) =~= TagList::empty());
        std::mem::swap(&mut self.entries, &mut entries);
        let r = match found {
            Some(i) => {
                let before = entries[i];
                entries[i] = Entry { hash, key: before.key, value };
                Some(before.value)
            },
            None => {
                entries.push(Entry { hash, key, value });
                None
            },
        };
        assert(list_of(entries@) =~= insert_tag(old(self)@, key.spec_bytes(), value@));
        std::mem::swap(&mut self.entries, &mut entries);
        r
    }
}

/// Every entry of `a` is an entry of `b`.
pub open spec fn entries_within(a: TagList, b: TagList) -> bool {
    forall|i: int| 0 <= i < a.len() ==> lookup(b, (#[trigger] a[i]).0) == Some(a[i].1)
}

/// Two lists with distinct keys give every key the same value where each
/// holds the entries of the other, and only there.
pub proof fn lemma_same_mapping(a: TagList, b: TagList)
    requires
        distinct_keys(a),
        distinct_keys(b),
    ensures
        same_mapping(a, b) == (entries_within(a, b) && entries_within(b, a)),
{
    if entries_within(a, b) && entries_within(b, a) {
        assert forall|key: Seq<u8>| lookup(a, key) == lookup(b, key) by {
            if has_key(a, key) {
                let i = key_index(a, key);
                lemma_key_index(a, i);
                assert(lookup(b, a[i].0) == Some(a[i].1));
            } else if has_key(b, key) {
                let j = key_index(b, key);
                lemma_key_index(b, j);
                assert(lookup(a, b[j].0) == Some(b[j].1));
            }
        }
    }
    if same_mapping(a, b) {
        assert forall|i: int| 0 <= i < a.len() implies lookup(b, (#[trigger] a[i]).0) == Some(
            a[i].1,
        ) by {
            lemma_key_index(a, i);
        }
        assert forall|i: int| 0 <= i < b.len() implies lookup(a, (#[trigger] b[i]).0) == Some(
            b[i].1,
        ) by {
            lemma_key_index(b, i);
        }
    }
}

impl<'a> Tags<'a> {
    /// Whether every entry of `self` is an entry of `other`.
    fn within(&self, other: &Tags<'a>) -> (r: bool)
        ensures
            r == entries_within(self@, other@),
    {
        proof {
            use_type_invariant(self);
        }
        let mut i: usize = 0;
        while i < self.entries.len()
            invariant
                i <= self.entries@.len(),
                self.well_formed(),
                forall|k: int|
                    0 <= k < i ==> lookup(other@, (#[trigger] self@[k]).0) == Some(self@[k].1),
            decreases self.entries@.len() - i,
        {
            let entry = &self.entries[i];
            assert(self@[i as int] == (entry.key.spec_bytes(), entry.value@));
            match other.position(entry.key, entry.hash) {
                Some(k) => {
                    assert(other@[k as int] == (
                        other.entries@[k as int].key.spec_bytes(),
                        other.entries@[k as int].value@,
                    ));
                    if !(other.entries[k].value == entry.value) {
                        return false;
                    }
                },
                None => {
                    return false;
                },
            }
            i += 1;
        }
        true
    }
}

impl<'a> PartialEq for Tags<'a> {
    /// Two mappings are equal where they give every key the same value, in
    /// whatever order the keys were inserted.
    fn eq(&self, other: &Self) -> (r: bool) {
        proof {
            use_type_invariant(self);
            use_type_invariant(other);
            lemma_same_mapping(self@, other@);
        }
        self.within(other) && other.within(self)
    }
}

impl<'a> PartialEqSpecImpl for Tags<'a> {
    open spec fn obeys_eq_spec() -> bool {
        true
    }

    open spec fn eq_spec(&self, other: &Self) -> bool {
        same_mapping(self@, other@)
    }
}

impl<'a> Default for Tags<'a> {
    fn default() -> (r: Tags<'a>)
        ensures
            r@ == TagList::empty(),
    {
        Tags::new()
    }
}

} // verus!
