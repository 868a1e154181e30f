//! The shape of what is read: lemmas for [`crate::laws::law_parsed_shape`].

use vstd::prelude::*;
use vstd::string::*;
use crate::laws::{ends_clean, key_fits, tags_fit, value_fits, well_shaped};
use crate::space::{space_at_end, trim, trim_end};
use crate::tags::{
    distinct_keys, has_key, infer, insert_tag, key_index, lemma_insert_distinct, TagList,
    TagValueView,
};
use crate::text::{
    contains, first_char_width, lemma_find, lemma_occurs_bytes, lemma_occurs_in_part, occurs_at,
    split_once, without_first_char,
};
use crate::wire::{
    channel_and_text, channel_of, dispatch, lemma_delimiters, lit, parse_cap, parse_clearchat,
    parse_entries, parse_entry, parse_host_end, parse_host_start, parse_hosttarget, parse_line,
    parse_tag_block, parse_untagged, skip_source, split_command, AT, MIN_LINE_LEN, SPACE,
};

verus! {

/// What is left when the white space at the end is dropped does not end with
/// white space.
pub proof fn lemma_trim_end_clean(s: Seq<u8>)
    ensures
        ends_clean(trim_end(s)),
    decreases s.len(),
{
    reveal(ends_clean);
    if space_at_end(s) > 0 {
        lemma_trim_end_clean(s.subrange(0, s.len() - space_at_end(s)));
    }
}

/// The end of a text that does not end with white space does not do so
/// either.
pub proof fn lemma_suffix_clean(text: Seq<u8>, from: int)
    requires
        ends_clean(text),
        0 <= from <= text.len(),
    ensures
        ends_clean(text.subrange(from, text.len() as int)),
{
    reveal(ends_clean);
    let part = text.subrange(from, text.len() as int);
    let n = text.len() as int;
    let m = part.len() as int;
    if m >= 1 {
        assert(part[m - 1] == text[n - 1]);
    }
    if m >= 2 {
        assert(part[m - 2] == text[n - 2]);
    }
    if m >= 3 {
        assert(part[m - 3] == text[n - 3]);
    }
}

/// A needle that does not stand in a text does not stand in a part of it.
pub proof fn lemma_absent_in_part(text: Seq<u8>, from: int, to: int, needle: Seq<u8>)
    requires
        0 <= from <= to <= text.len(),
        !contains(text, needle),
    ensures
        !contains(text.subrange(from, to), needle),
{
    assert forall|i: int| !occurs_at(text.subrange(from, to), needle, i) by {
        if occurs_at(text.subrange(from, to), needle, i) {
            lemma_occurs_in_part(text, from, to, needle, i + from);
            assert(occurs_at(text, needle, i + from));
        }
    }
}

/// The two parts that a text is split into: the text is the first part, the
/// delimiter and the second part, and the first part holds no delimiter.
/// A text that is not split holds none.
pub proof fn lemma_split_parts(text: Seq<u8>, delim: Seq<u8>)
    requires
        delim.len() > 0,
    ensures
        match split_once(text, delim) {
            Some((before, behind)) => {
                &&& text == before + delim + behind
                &&& !contains(before, delim)
                &&& before == text.subrange(0, before.len() as int)
                &&& behind == text.subrange(text.len() - behind.len(), text.len() as int)
            },
            None => !contains(text, delim),
        },
{
    lemma_find(text, delim);
    match split_once(text, delim) {
        Some((before, behind)) => {
            let at = before.len() as int;
            assert(text =~= before + delim + behind);
            assert forall|i: int| !occurs_at(before, delim, i) by {
                if occurs_at(before, delim, i) {
                    lemma_occurs_in_part(text, 0, at, delim, i);
                    assert(occurs_at(text, delim, i));
                }
            }
        },
        None => {},
    }
}

/// The text behind the first character is the end of the text.
pub proof fn lemma_without_first_char(text: Seq<u8>)
    ensures
        0 <= first_char_width(text) <= text.len(),
        text.len() > 0 ==> first_char_width(text) >= 1,
        without_first_char(text) == text.subrange(first_char_width(text), text.len() as int),
{
}

/// Every key and every value of the list can stand in a tag block.
pub open spec fn entries_fit(list: TagList) -> bool {
    forall|i: int| 0 <= i < list.len() ==> key_fits((#[trigger] list[i]).0) && value_fits(list[i].1)
}

/// A list whose entries can stand in a tag block stays one when a key that
/// can is given a value that can.
proof fn lemma_insert_fits(list: TagList, key: Seq<u8>, value: TagValueView)
    requires
        entries_fit(list),
        key_fits(key),
        value_fits(value),
    ensures
        entries_fit(insert_tag(list, key, value)),
{
    let after = insert_tag(list, key, value);
    assert forall|i: int| 0 <= i < after.len() implies key_fits((#[trigger] after[i]).0)
        && value_fits(after[i].1) by {
        if has_key(list, key) {
            if i != key_index(list, key) {
                assert(after[i] == list[i]);
            }
        } else {
            if i < list.len() {
                assert(after[i] == list[i]);
            }
        }
    }
}

/// What is inferred from a text that holds no delimiter of a tag block can
/// stand in one.
proof fn lemma_inferred_fits(text: Seq<u8>)
    requires
        !contains(text, lit(";")),
        !contains(text, lit(" :")),
    ensures
        value_fits(infer(text)),
{
}

/// What is read from a token that holds no `;` and no ` :` can stand in a tag
/// block.
proof fn lemma_entry_fits(tags: TagList, token: Seq<u8>)
    requires
        entries_fit(tags),
        distinct_keys(tags),
        !contains(token, lit(";")),
        !contains(token, lit(" :")),
    ensures
        match parse_entry(tags, token) {
            Some(next) => entries_fit(next) && distinct_keys(next) && next.len() > 0,
            None => true,
        },
{
    lemma_delimiters();
    lemma_split_parts(token, lit("="));
    match split_once(token, lit("=")) {
        Some((key, text)) => {
            let n = token.len() as int;
            lemma_absent_in_part(token, 0, key.len() as int, lit(";"));
            lemma_absent_in_part(token, 0, key.len() as int, lit(" :"));
            lemma_absent_in_part(token, n - text.len(), n, lit(";"));
            lemma_absent_in_part(token, n - text.len(), n, lit(" :"));
            lemma_inferred_fits(text);
            lemma_insert_fits(tags, key, infer(text));
            lemma_insert_distinct(tags, key, infer(text));
        },
        None => {},
    }
}

/// What is read from a block that holds no ` :` can stand in a tag block: the
/// list is not empty, its keys are distinct, and its keys and values hold no
/// delimiter.
proof fn lemma_entries_fit(tags: TagList, block: Seq<u8>)
    requires
        entries_fit(tags),
        distinct_keys(tags),
        !contains(block, lit(" :")),
    ensures
        match parse_entries(tags, block) {
            Some(list) => entries_fit(list) && distinct_keys(list) && list.len() > 0,
            None => true,
        },
    decreases block.len(),
{
    lemma_delimiters();
    lemma_split_parts(block, lit(";"));
    match split_once(block, lit(";")) {
        Some((token, rest)) => {
            let n = block.len() as int;
            lemma_absent_in_part(block, 0, token.len() as int, lit(" :"));
            lemma_absent_in_part(block, n - rest.len(), n, lit(" :"));
            lemma_entry_fits(tags, token);
            match parse_entry(tags, token) {
                Some(next) => {
                    lemma_entries_fit(next, rest);
                },
                None => {},
            }
        },
        None => {
            lemma_entry_fits(tags, block);
        },
    }
}

/// The tags that are read from a tag block can stand in one, and the block
/// takes three bytes or more, and no more than the text and its `@`.
pub proof fn lemma_tag_block_fits(text: Seq<u8>)
    ensures
        match parse_tag_block(text) {
            Ok((tags, used)) => tags_fit(tags) && 3 <= used <= text.len() + 1,
            Err(_) => true,
        },
{
    assert(lit(" :").len() == 2) by {
        lemma_delimiters();
    }
    lemma_split_parts(text, lit(" :"));
    match split_once(text, lit(" :")) {
        Some((block, behind)) => {
            assert(text.len() == block.len() + 2 + behind.len());
            if block.len() > 0 {
                assert(entries_fit(TagList::empty()));
                assert(distinct_keys(TagList::empty()));
                lemma_entries_fit(TagList::empty(), block);
                match parse_entries(TagList::empty(), block) {
                    Some(list) => {
                        assert(entries_fit(list));
                        assert(tags_fit(Some(list)));
                    },
                    None => {},
                }
            }
        },
        None => {},
    }
}

/// The channel that is read from the end of a text that does not end with
/// white space does not end with white space.
proof fn lemma_channel_clean(part: Seq<u8>)
    requires
        ends_clean(part),
    ensures
        channel_of(part) matches Some(chan) ==> ends_clean(chan),
{
    lemma_without_first_char(part);
    lemma_suffix_clean(part, first_char_width(part));
}

/// The channel that is read from a text that holds no `needle` holds none.
proof fn lemma_channel_holds_no(part: Seq<u8>, needle: Seq<u8>)
    requires
        !contains(part, needle),
    ensures
        channel_of(part) matches Some(chan) ==> !contains(chan, needle),
{
    lemma_without_first_char(part);
    lemma_absent_in_part(part, first_char_width(part), part.len() as int, needle);
}

/// The channel and the text that are read from `#channel :text`: the
/// channel holds no ` :`, and the text does not end with white space where
/// the body does not.
proof fn lemma_channel_and_text_shape(body: Seq<u8>)
    requires
        ends_clean(body),
    ensures
        channel_and_text(body) matches Some((chan, text)) ==> {
            &&& !contains(chan, lit(" :"))
            &&& ends_clean(text)
            &&& text == body.subrange(body.len() - text.len(), body.len() as int)
            &&& split_once(body, lit(" :")) matches Some((part, behind)) && behind == text
        },
{
    assert(lit(" :").len() == 2) by {
        lemma_delimiters();
    }
    lemma_split_parts(body, lit(" :"));
    match split_once(body, lit(" :")) {
        Some((part, text)) => {
            lemma_channel_holds_no(part, lit(" :"));
            lemma_suffix_clean(body, body.len() - text.len());
        },
        None => {},
    }
}

/// The message that is read from the body of `CAP` has the shape of a message
/// that was read.
proof fn lemma_cap_shape(body: Seq<u8>)
    requires
        ends_clean(body),
    ensures
        parse_cap(body) matches Some(m) ==> well_shaped(m),
{
    assert(lit(" :").len() == 2) by {
        lemma_delimiters();
    }
    lemma_split_parts(body, lit(" :"));
    match split_once(body, lit(" :")) {
        Some((kind, req)) => {
            lemma_suffix_clean(body, body.len() - req.len());
        },
        None => {},
    }
}

/// The message that is read from the body of `CLEARCHAT` has the shape of a
/// message that was read.
proof fn lemma_clearchat_shape(body: Seq<u8>, tags: Option<TagList>)
    requires
        ends_clean(body),
        tags_fit(tags),
    ensures
        parse_clearchat(body, tags) matches Some(m) ==> well_shaped(m),
{
    assert(lit(" :").len() == 2) by {
        lemma_delimiters();
    }
    lemma_split_parts(body, lit(" :"));
    match split_once(body, lit(" :")) {
        Some((part, user)) => {
            lemma_channel_holds_no(part, lit(" :"));
            lemma_suffix_clean(body, body.len() - user.len());
        },
        None => {
            lemma_channel_holds_no(body, lit(" :"));
            lemma_channel_clean(body);
        },
    }
}

/// The end of a host that is read has the shape of a message that was read.
proof fn lemma_host_end_shape(body: Seq<u8>)
    ensures
        split_once(body, lit(" :-")) matches Some((part, tail)) ==> (channel_of(part) matches Some(
            host,
        ) ==> (parse_host_end(host, tail) matches Some(m) ==> well_shaped(m))),
{
    assert(lit(" :-").len() == 3) by {
        lemma_delimiters();
    }
    lemma_split_parts(body, lit(" :-"));
    match split_once(body, lit(" :-")) {
        Some((part, tail)) => {
            lemma_channel_holds_no(part, lit(" :-"));
        },
        None => {},
    }
}

/// ` :-` stands where its three bytes stand.
proof fn lemma_end_mark_at(body: Seq<u8>, at: int)
    requires
        0 <= at,
        at + 3 <= body.len(),
        body[at] == SPACE,
        body[at + 1] == 0x3a,
        body[at + 2] == 0x2d,
    ensures
        occurs_at(body, lit(" :-"), at),
{
    lemma_delimiters();
    let mark = lit(" :-");
    lemma_occurs_bytes(body, mark, at);
    assert forall|k: int| 0 <= k < 3 implies body[at + k] == #[trigger] mark[k] by {
        assert(k == 0 || k == 1 || k == 2);
    }
}

/// What stands behind ` :` does not begin with `-` where the text holds no
/// ` :-`.
proof fn lemma_no_dash_behind(part: Seq<u8>, target: Seq<u8>)
    requires
        !contains(part + lit(" :") + target, lit(" :-")),
        target.len() > 0,
    ensures
        target[0] != 0x2d,
{
    lemma_delimiters();
    let body = part + lit(" :") + target;
    let at = part.len() as int;
    assert(body[at] == lit(" :")[0]);
    assert(body[at + 1] == lit(" :")[1]);
    assert(body[at + 2] == target[0]);
    if target[0] == 0x2d {
        lemma_end_mark_at(body, at);
    }
}

/// The start of a host that is read from a host without ` :` and from what
/// stands behind ` :` has the shape of a message that was read, where that
/// does not begin with `-` and does not end with white space.
proof fn lemma_host_target_shape(host: Seq<u8>, target: Seq<u8>)
    requires
        !contains(host, lit(" :")),
        ends_clean(target),
        target.len() > 0 ==> target[0] != 0x2d,
    ensures
        parse_host_start(host, target) matches Some(m) ==> well_shaped(m),
{
    assert(lit(" ").len() == 1) by {
        lemma_delimiters();
    }
    lemma_split_parts(target, lit(" "));
    match split_once(target, lit(" ")) {
        Some((chan, count)) => {
            if chan.len() > 0 {
                assert(chan[0] == target[0]);
            }
        },
        None => {},
    }
}

/// The start of a host that is read has the shape of a message that was
/// read, where it is read from a body without ` :-`.
proof fn lemma_host_start_shape(body: Seq<u8>)
    requires
        ends_clean(body),
        !contains(body, lit(" :-")),
    ensures
        channel_and_text(body) matches Some((host, target)) ==> (parse_host_start(host, target)
            matches Some(m) ==> well_shaped(m)),
{
    lemma_channel_and_text_shape(body);
    assert(lit(" :").len() == 2) by {
        lemma_delimiters();
    }
    lemma_split_parts(body, lit(" :"));
    match split_once(body, lit(" :")) {
        Some((part, target)) => {
            if target.len() > 0 {
                lemma_no_dash_behind(part, target);
            }
            match channel_of(part) {
                Some(host) => {
                    lemma_host_target_shape(host, target);
                },
                None => {},
            }
        },
        None => {},
    }
}

/// The message that is read from the body of `HOSTTARGET` has the shape of a
/// message that was read.
proof fn lemma_hosttarget_shape(body: Seq<u8>)
    requires
        ends_clean(body),
    ensures
        parse_hosttarget(body) matches Some(m) ==> well_shaped(m),
{
    assert(lit(" :-").len() == 3) by {
        lemma_delimiters();
    }
    lemma_split_parts(body, lit(" :-"));
    lemma_host_end_shape(body);
    if split_once(body, lit(" :-")) is None {
        lemma_host_start_shape(body);
    }
}

/// The message that is read from a verb, a body that does not end with white
/// space and tags that can stand in a tag block has the shape of a message
/// that was read.
pub proof fn lemma_dispatch_shape(cmd: Seq<u8>, body: Seq<u8>, tags: Option<TagList>)
    requires
        ends_clean(body),
        tags_fit(tags),
    ensures
        dispatch(cmd, body, tags) matches Ok(m) ==> well_shaped(m),
{
    lemma_cap_shape(body);
    lemma_channel_clean(body);
    lemma_channel_and_text_shape(body);
    lemma_clearchat_shape(body, tags);
    lemma_hosttarget_shape(body);
}

/// The message that is read from a line behind its tags has the shape of a
/// message that was read, where the line does not end with white space.
proof fn lemma_untagged_shape(text: Seq<u8>, tags: Option<TagList>)
    requires
        ends_clean(text),
        tags_fit(tags),
    ensures
        parse_untagged(text, tags) matches Ok(m) ==> well_shaped(m),
{
    assert(lit("tmi.twitch.tv ").len() == 14 && lit(" ").len() == 1) by {
        lemma_delimiters();
    }
    lemma_split_parts(text, lit("tmi.twitch.tv "));
    let rest = skip_source(text);
    assert(ends_clean(rest)) by {
        match split_once(text, lit("tmi.twitch.tv ")) {
            Some((_, behind)) => {
                lemma_suffix_clean(text, text.len() - behind.len());
            },
            None => {},
        }
    }
    lemma_split_parts(rest, lit(" "));
    let (cmd, body) = split_command(rest);
    assert(ends_clean(body)) by {
        match split_once(rest, lit(" ")) {
            Some((_, behind)) => {
                lemma_suffix_clean(rest, rest.len() - behind.len());
            },
            None => {
                reveal(ends_clean);
            },
        }
    }
    lemma_dispatch_shape(cmd, body, tags);
}

/// Every message that is read has the shape of a message that was read.
pub proof fn lemma_line_shape(line: Seq<u8>)
    ensures
        parse_line(line) matches Ok(m) ==> well_shaped(m),
{
    if line.len() >= MIN_LINE_LEN {
        let text = trim(line);
        lemma_trim_end_clean(crate::space::trim_start(line));
        if text.len() > 0 && text[0] == AT {
            lemma_tag_block_fits(text.drop_first());
            match parse_tag_block(text.drop_first()) {
                Ok((tags, used)) => {
                    lemma_suffix_clean(text, used);
                    lemma_untagged_shape(text.subrange(used, text.len() as int), tags);
                },
                Err(_) => {},
            }
        } else {
            lemma_untagged_shape(text, None);
        }
    }
}

} // verus!
