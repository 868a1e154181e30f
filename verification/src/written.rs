//! What a written line is read as: lemmas for
//! [`crate::laws::law_written_line_read`] and
//! [`crate::laws::law_round_trip_only`].

use vstd::prelude::*;
use vstd::string::*;
use crate::laws::{
    ends_clean, key_fits, reread, reread_list, reread_tags, source_free, tags_fit, value_fits,
    well_shaped,
};
use crate::number::{decimal, digits_value, lemma_decimal, lemma_parse_decimal};
use crate::parsed::{lemma_split_parts, lemma_without_first_char};
use crate::space::{is_space1, trim, trim_end};
use crate::tags::{distinct_keys, has_key, infer, value_text, TagList, TagValueView};
use crate::text::{
    contains, lemma_absent_around_byte, lemma_absent_behind, lemma_occurs_bytes,
    lemma_occurs_first, lemma_occurs_in_part, lemma_split_clean_head, lemma_split_junction,
    occurs_at, split_once, without_first_char,
};
use crate::wire::{
    channel, channel_and_text, channel_of, channel_text, command, dispatch, from_server,
    lemma_delimiters, lit, parse_cap, parse_clearchat, parse_entries, parse_entry,
    parse_host_end, parse_host_start, parse_hosttarget, parse_line, parse_tag_block,
    skip_source, split_command, tag_text, tags_text, unparse_line, viewers, with_tags,
    with_viewers, MessageView, ParseErrorView, AT, MIN_LINE_LEN, SPACE,
};

verus! {

// ---------------------------------------------------------------------------
// Literals
// ---------------------------------------------------------------------------

/// The bytes of the texts of the booleans.
pub proof fn lemma_boolean_text()
    ensures
        lit("0") == seq![0x30u8],
        lit("1") == seq![0x31u8],
{
    reveal_strlit("0");
    reveal_strlit("1");
    assert(is_ascii("0") && is_ascii("1"));
    is_ascii_spec_bytes("0");
    is_ascii_spec_bytes("1");
    assert(lit("0") =~= seq![0x30u8]);
    assert(lit("1") =~= seq![0x31u8]);
}

/// The bytes of the other literals of the grammar.
proof fn lemma_literals()
    ensures
        lit("#") == seq![0x23u8],
        lit("-") == seq![0x2du8],
        lit(":") == seq![0x3au8],
        lit("REQ") == seq![0x52u8, 0x45u8, 0x51u8],
        lit("* ACK") == seq![0x2au8, 0x20u8, 0x41u8, 0x43u8, 0x4bu8],
        lit("tmi.twitch.tv").len() == 13,
        lit("tmi.twitch.tv")[12] == 0x76,
        forall|k: int| 0 <= k < 14 ==> #[trigger] lit("tmi.twitch.tv ")[k] != 0x3a,
{
    reveal_strlit("#");
    reveal_strlit("-");
    reveal_strlit(":");
    reveal_strlit("REQ");
    reveal_strlit("* ACK");
    reveal_strlit("tmi.twitch.tv");
    reveal_strlit("tmi.twitch.tv ");
    assert(is_ascii("#") && is_ascii("-") && is_ascii(":") && is_ascii("REQ"));
    assert(is_ascii("* ACK") && is_ascii("tmi.twitch.tv") && is_ascii("tmi.twitch.tv "));
    is_ascii_spec_bytes("#");
    is_ascii_spec_bytes("-");
    is_ascii_spec_bytes(":");
    is_ascii_spec_bytes("REQ");
    is_ascii_spec_bytes("* ACK");
    is_ascii_spec_bytes("tmi.twitch.tv");
    is_ascii_spec_bytes("tmi.twitch.tv ");
    assert(lit("#") =~= seq![0x23u8]);
    assert(lit("-") =~= seq![0x2du8]);
    assert(lit(":") =~= seq![0x3au8]);
    assert(lit("REQ") =~= seq![0x52u8, 0x45u8, 0x51u8]);
    assert(lit("* ACK") =~= seq![0x2au8, 0x20u8, 0x41u8, 0x43u8, 0x4bu8]);
}

/// ` :-` is ` :` and `-`.
pub proof fn lemma_end_mark()
    ensures
        lit(" :-") == lit(" :") + lit("-"),
        lit(" :-").len() == 3,
        lit(" :-")[0] == SPACE,
        lit(" :-")[1] == 0x3a,
        lit(" :-")[2] == 0x2d,
{
    lemma_delimiters();
    lemma_literals();
    assert(lit(" :-") =~= lit(" :") + lit("-"));
}

/// A command verb: one or more capital letters.
pub open spec fn is_verb(verb: Seq<u8>) -> bool {
    &&& verb.len() > 0
    &&& forall|i: int| 0 <= i < verb.len() ==> 0x41 <= #[trigger] verb[i] <= 0x5a
}

/// The length and the first three bytes of a literal, and that it is a verb.
pub open spec fn verb_begins(verb: Seq<u8>, len: nat, a: u8, b: u8, c: u8) -> bool {
    &&& is_verb(verb)
    &&& verb.len() == len
    &&& verb[0] == a
    &&& verb[1] == b
    &&& verb[2] == c
}

/// The command verbs are verbs, and their lengths and first three bytes tell
/// them apart.
pub proof fn lemma_verbs()
    ensures
        verb_begins(lit("PING"), 4, 0x50, 0x49, 0x4e),
        verb_begins(lit("PONG"), 4, 0x50, 0x4f, 0x4e),
        verb_begins(lit("CAP"), 3, 0x43, 0x41, 0x50),
        verb_begins(lit("PASS"), 4, 0x50, 0x41, 0x53),
        verb_begins(lit("NICK"), 4, 0x4e, 0x49, 0x43),
        verb_begins(lit("JOIN"), 4, 0x4a, 0x4f, 0x49),
        verb_begins(lit("PART"), 4, 0x50, 0x41, 0x52),
        verb_begins(lit("PRIVMSG"), 7, 0x50, 0x52, 0x49),
        verb_begins(lit("CLEARCHAT"), 9, 0x43, 0x4c, 0x45),
        verb_begins(lit("CLEARMSG"), 8, 0x43, 0x4c, 0x45),
        verb_begins(lit("HOSTTARGET"), 10, 0x48, 0x4f, 0x53),
        verb_begins(lit("NOTICE"), 6, 0x4e, 0x4f, 0x54),
        verb_begins(lit("RECONNECT"), 9, 0x52, 0x45, 0x43),
        verb_begins(lit("ROOMSTATE"), 9, 0x52, 0x4f, 0x4f),
        verb_begins(lit("USERNOTICE"), 10, 0x55, 0x53, 0x45),
        verb_begins(lit("USERSTATE"), 9, 0x55, 0x53, 0x45),
        verb_begins(lit("GLOBALUSERSTATE"), 15, 0x47, 0x4c, 0x4f),
{
    reveal_strlit("PING");
    reveal_strlit("PONG");
    reveal_strlit("CAP");
    reveal_strlit("PASS");
    reveal_strlit("NICK");
    reveal_strlit("JOIN");
    reveal_strlit("PART");
    reveal_strlit("PRIVMSG");
    reveal_strlit("CLEARCHAT");
    reveal_strlit("CLEARMSG");
    reveal_strlit("HOSTTARGET");
    reveal_strlit("NOTICE");
    reveal_strlit("RECONNECT");
    reveal_strlit("ROOMSTATE");
    reveal_strlit("USERNOTICE");
    reveal_strlit("USERSTATE");
    reveal_strlit("GLOBALUSERSTATE");
    assert(is_ascii("PING") && is_ascii("PONG") && is_ascii("CAP") && is_ascii("PASS"));
    assert(is_ascii("NICK") && is_ascii("JOIN") && is_ascii("PART") && is_ascii("PRIVMSG"));
    assert(is_ascii("CLEARCHAT") && is_ascii("CLEARMSG") && is_ascii("HOSTTARGET"));
    assert(is_ascii("NOTICE") && is_ascii("RECONNECT") && is_ascii("ROOMSTATE"));
    assert(is_ascii("USERNOTICE") && is_ascii("USERSTATE") && is_ascii("GLOBALUSERSTATE"));
    is_ascii_spec_bytes("PING");
    is_ascii_spec_bytes("PONG");
    is_ascii_spec_bytes("CAP");
    is_ascii_spec_bytes("PASS");
    is_ascii_spec_bytes("NICK");
    is_ascii_spec_bytes("JOIN");
    is_ascii_spec_bytes("PART");
    is_ascii_spec_bytes("PRIVMSG");
    is_ascii_spec_bytes("CLEARCHAT");
    is_ascii_spec_bytes("CLEARMSG");
    is_ascii_spec_bytes("HOSTTARGET");
    is_ascii_spec_bytes("NOTICE");
    is_ascii_spec_bytes("RECONNECT");
    is_ascii_spec_bytes("ROOMSTATE");
    is_ascii_spec_bytes("USERNOTICE");
    is_ascii_spec_bytes("USERSTATE");
    is_ascii_spec_bytes("GLOBALUSERSTATE");
}

// ---------------------------------------------------------------------------
// Verbs
// ---------------------------------------------------------------------------

/// `MalformedCommand` with the verb where there is no message.
spec fn or_malformed(m: Option<MessageView>, cmd: Seq<u8>) -> Result<MessageView, ParseErrorView> {
    match m {
        Some(m) => Ok(m),
        None => Err(ParseErrorView::MalformedCommand(cmd)),
    }
}

/// What the verbs without a body are read as.
proof fn lemma_dispatch_bare(body: Seq<u8>, tags: Option<TagList>)
    ensures
        is_verb(lit("PING")) && lit("PING").len() == 4,
        is_verb(lit("PONG")) && lit("PONG").len() == 4,
        is_verb(lit("RECONNECT")) && lit("RECONNECT").len() == 9,
        is_verb(lit("GLOBALUSERSTATE")) && lit("GLOBALUSERSTATE").len() == 15,
        dispatch(lit("PING"), body, tags) == Ok::<_, ParseErrorView>(MessageView::Ping),
        dispatch(lit("PONG"), body, tags) == Ok::<_, ParseErrorView>(MessageView::Pong),
        dispatch(lit("RECONNECT"), body, tags) == Ok::<_, ParseErrorView>(MessageView::Reconnect),
        dispatch(lit("GLOBALUSERSTATE"), body, tags) == Ok::<_, ParseErrorView>(
            MessageView::GlobalUserstate { tags },
        ),
{
    lemma_verbs();
}

/// What the verbs of the client are read as.
proof fn lemma_dispatch_client(body: Seq<u8>, tags: Option<TagList>)
    ensures
        is_verb(lit("PASS")) && lit("PASS").len() == 4,
        is_verb(lit("NICK")) && lit("NICK").len() == 4,
        is_verb(lit("JOIN")) && lit("JOIN").len() == 4,
        is_verb(lit("PART")) && lit("PART").len() == 4,
        is_verb(lit("CAP")) && lit("CAP").len() == 3,
        dispatch(lit("PASS"), body, tags) == Ok::<_, ParseErrorView>(
            MessageView::Pass { pass: body },
        ),
        dispatch(lit("NICK"), body, tags) == Ok::<_, ParseErrorView>(
            MessageView::Nick { nick: body },
        ),
        channel_of(body) matches Some(chan) ==> dispatch(lit("JOIN"), body, tags) == Ok::<
            _,
            ParseErrorView,
        >(MessageView::Join { chan }) && dispatch(lit("PART"), body, tags) == Ok::<
            _,
            ParseErrorView,
        >(MessageView::Part { chan }),
        dispatch(lit("CAP"), body, tags) == or_malformed(parse_cap(body), lit("CAP")),
{
    lemma_verbs();
}

/// What the verbs with a channel and a text are read as.
proof fn lemma_dispatch_text(body: Seq<u8>, tags: Option<TagList>)
    ensures
        is_verb(lit("PRIVMSG")) && lit("PRIVMSG").len() == 7,
        is_verb(lit("CLEARMSG")),
        is_verb(lit("NOTICE")),
        is_verb(lit("USERNOTICE")),
        channel_and_text(body) matches Some((chan, msg)) ==> {
            &&& dispatch(lit("PRIVMSG"), body, tags) == Ok::<_, ParseErrorView>(
                MessageView::Privmsg { tags, chan, msg },
            )
            &&& dispatch(lit("CLEARMSG"), body, tags) == Ok::<_, ParseErrorView>(
                MessageView::Clearmsg { tags, chan, msg },
            )
            &&& dispatch(lit("NOTICE"), body, tags) == Ok::<_, ParseErrorView>(
                MessageView::Notice { tags, chan, msg },
            )
            &&& dispatch(lit("USERNOTICE"), body, tags) == Ok::<_, ParseErrorView>(
                MessageView::Usernotice { tags, chan, msg },
            )
        },
{
    lemma_verbs();
}

/// What the verbs with a channel are read as.
proof fn lemma_dispatch_channel(body: Seq<u8>, tags: Option<TagList>)
    ensures
        is_verb(lit("CLEARCHAT")),
        is_verb(lit("ROOMSTATE")),
        is_verb(lit("USERSTATE")),
        is_verb(lit("HOSTTARGET")),
        dispatch(lit("CLEARCHAT"), body, tags) == or_malformed(
            parse_clearchat(body, tags),
            lit("CLEARCHAT"),
        ),
        dispatch(lit("HOSTTARGET"), body, tags) == or_malformed(
            parse_hosttarget(body),
            lit("HOSTTARGET"),
        ),
        channel_of(body) matches Some(chan) ==> {
            &&& dispatch(lit("ROOMSTATE"), body, tags) == Ok::<_, ParseErrorView>(
                MessageView::Roomstate { tags, chan },
            )
            &&& dispatch(lit("USERSTATE"), body, tags) == Ok::<_, ParseErrorView>(
                MessageView::Userstate { tags, chan },
            )
        },
{
    lemma_verbs();
}

// ---------------------------------------------------------------------------
// Tags
// ---------------------------------------------------------------------------

/// A text of decimal digits holds no delimiter of a tag block.
proof fn lemma_digits_hold_no_delimiter(s: Seq<u8>)
    requires
        forall|i: int| 0 <= i < s.len() ==> 0x30 <= #[trigger] s[i] <= 0x39,
    ensures
        !contains(s, lit(";")),
        !contains(s, lit(" :")),
        !contains(s, lit(" ")),
{
    lemma_delimiters();
    assert forall|i: int| !occurs_at(s, lit(";"), i) by {
        if occurs_at(s, lit(";"), i) {
            lemma_occurs_first(s, lit(";"), i);
        }
    }
    assert forall|i: int| !occurs_at(s, lit(" :"), i) by {
        if occurs_at(s, lit(" :"), i) {
            lemma_occurs_first(s, lit(" :"), i);
        }
    }
    assert forall|i: int| !occurs_at(s, lit(" "), i) by {
        if occurs_at(s, lit(" "), i) {
            lemma_occurs_first(s, lit(" "), i);
        }
    }
}

/// The decimal digits of a number are read as that number: as a boolean for
/// 0 and 1, as a number up to 32 bits, as a timestamp above.
pub proof fn lemma_infer_decimal(n: nat)
    requires
        n <= u64::MAX,
    ensures
        infer(decimal(n)) == (if n == 0 {
            TagValueView::Boolean(false)
        } else if n == 1 {
            TagValueView::Boolean(true)
        } else if n <= u32::MAX {
            TagValueView::Number(n as u32)
        } else {
            TagValueView::Timestamp(n as u64)
        }),
{
    lemma_boolean_text();
    lemma_decimal(n);
    lemma_parse_decimal(n, u32::MAX as nat);
    lemma_parse_decimal(n, u64::MAX as nat);
    reveal_with_fuel(digits_value, 2);
    assert(seq![0x30u8].drop_last() =~= Seq::<u8>::empty());
    assert(seq![0x31u8].drop_last() =~= Seq::<u8>::empty());
    assert(digits_value(seq![0x30u8], 10) == 0);
    assert(digits_value(seq![0x31u8], 10) == 1);
    if n == 0 {
        assert(decimal(n) =~= seq![0x30u8]);
    } else if n == 1 {
        assert(decimal(n) =~= seq![0x31u8]);
    }
}

/// The text of a value that can stand in a tag block holds no delimiter of
/// the block.
proof fn lemma_value_fits(value: TagValueView)
    requires
        value_fits(value),
    ensures
        !contains(value_text(value), lit(";")),
        !contains(value_text(value), lit(" :")),
{
    lemma_boolean_text();
    match value {
        TagValueView::Number(n) => {
            lemma_decimal(n as nat);
            lemma_digits_hold_no_delimiter(decimal(n as nat));
        },
        TagValueView::Timestamp(t) => {
            lemma_decimal(t as nat);
            lemma_digits_hold_no_delimiter(decimal(t as nat));
        },
        TagValueView::Boolean(b) => {
            lemma_digits_hold_no_delimiter(value_text(value));
        },
        TagValueView::String(s) => {},
        TagValueView::Empty => {
            lemma_digits_hold_no_delimiter(value_text(value));
        },
    }
}

/// The text of a tag holds a delimiter of a tag block only where its key or
/// its value does.
proof fn lemma_tag_text_holds_no(key: Seq<u8>, value: Seq<u8>, needle: Seq<u8>)
    requires
        needle == lit(";") || needle == lit(" :"),
        !contains(key, needle),
        !contains(value, needle),
    ensures
        !contains(tag_text(key, value), needle),
{
    lemma_delimiters();
    lemma_absent_around_byte(key, 0x3du8, value, needle);
}

/// The first tag of a list of two or more is written before `;` and the
/// other tags.
proof fn lemma_tags_text_front(tags: TagList)
    requires
        tags.len() >= 2,
    ensures
        tags_text(tags) == tag_text(tags[0].0, value_text(tags[0].1)) + lit(";") + tags_text(
            tags.drop_first(),
        ),
    decreases tags.len(),
{
    let first = tag_text(tags[0].0, value_text(tags[0].1));
    let last = tag_text(tags.last().0, value_text(tags.last().1));
    let rest = tags.drop_first();
    if tags.len() == 2 {
        assert(tags.drop_last().len() == 1);
        assert(tags.drop_last()[0] == tags[0]);
        assert(rest.len() == 1);
        assert(rest[0] == tags.last());
        assert(tags_text(tags.drop_last()) == first);
        assert(tags_text(rest) == last);
    } else {
        lemma_tags_text_front(tags.drop_last());
        assert(tags.drop_last().drop_first() =~= rest.drop_last());
        assert(tags.drop_last()[0] == tags[0]);
        assert(rest.last() == tags.last());
        let middle = tags_text(rest.drop_last());
        assert(tags_text(tags) == (first + lit(";") + middle) + lit(";") + last);
        assert(tags_text(rest) == middle + lit(";") + last);
        assert((first + lit(";") + middle) + lit(";") + last =~= first + lit(";") + (middle + lit(
            ";",
        ) + last));
    }
}

/// The text of tags that can stand in a tag block holds no ` :`, and is not
/// empty.
proof fn lemma_tags_text_holds_no_end(tags: TagList)
    requires
        tags.len() > 0,
        forall|i: int|
            0 <= i < tags.len() ==> key_fits((#[trigger] tags[i]).0) && value_fits(tags[i].1),
    ensures
        !contains(tags_text(tags), lit(" :")),
        tags_text(tags).len() > 0,
    decreases tags.len(),
{
    lemma_delimiters();
    let last = tags.last();
    assert(key_fits(last.0) && value_fits(last.1));
    lemma_value_fits(last.1);
    lemma_tag_text_holds_no(last.0, value_text(last.1), lit(" :"));
    if tags.len() == 1 {
        assert(tags[0] == last);
    } else {
        let before = tags.drop_last();
        assert forall|i: int| 0 <= i < before.len() implies key_fits((#[trigger] before[i]).0)
            && value_fits(before[i].1) by {
            assert(before[i] == tags[i]);
        }
        lemma_tags_text_holds_no_end(before);
        lemma_absent_around_byte(
            tags_text(before),
            0x3bu8,
            tag_text(last.0, value_text(last.1)),
            lit(" :"),
        );
    }
}

/// One tag that can stand in a tag block, read into tags that lack its key,
/// goes to their end with its value as it is inferred.
proof fn lemma_entry_reread(tags: TagList, key: Seq<u8>, value: TagValueView)
    requires
        key_fits(key),
        value_fits(value),
        !has_key(tags, key),
    ensures
        parse_entry(tags, tag_text(key, value_text(value))) == Some(
            tags.push((key, infer(value_text(value)))),
        ),
        !contains(tag_text(key, value_text(value)), lit(";")),
{
    lemma_delimiters();
    lemma_value_fits(value);
    lemma_tag_text_holds_no(key, value_text(value), lit(";"));
    lemma_split_junction(key, lit("="), value_text(value));
}

/// Tags that can stand in a tag block, read behind `before`, whose keys they
/// lack, go to its end in their order, with their values as they are
/// inferred.
proof fn lemma_entries_reread(before: TagList, tags: TagList)
    requires
        tags.len() > 0,
        distinct_keys(before + tags),
        forall|i: int|
            0 <= i < tags.len() ==> key_fits((#[trigger] tags[i]).0) && value_fits(tags[i].1),
    ensures
        parse_entries(before, tags_text(tags)) == Some(before + reread_list(tags)),
    decreases tags.len(),
{
    lemma_delimiters();
    let all = before + tags;
    let first = tags[0];
    let text = tag_text(first.0, value_text(first.1));
    let next = before.push((first.0, infer(value_text(first.1))));
    assert(key_fits(first.0) && value_fits(first.1));
    assert(!has_key(before, first.0)) by {
        if has_key(before, first.0) {
            let i = choose|i: int| 0 <= i < before.len() && (#[trigger] before[i]).0 == first.0;
            assert(all[i] == before[i]);
            assert(all[before.len() as int] == first);
        }
    }
    lemma_entry_reread(before, first.0, first.1);
    if tags.len() == 1 {
        assert(tags_text(tags) == text);
        assert forall|i: int| !occurs_at(text, lit(";"), i) by {}
        assert(next =~= before + reread_list(tags));
    } else {
        let rest = tags.drop_first();
        lemma_tags_text_front(tags);
        lemma_split_junction(text, lit(";"), tags_text(rest));
        assert forall|i: int, j: int| 0 <= i < j < (next + rest).len() implies (#[trigger] (next
            + rest)[i]).0 != (#[trigger] (next + rest)[j]).0 by {
            assert((next + rest)[i].0 == all[i].0);
            assert((next + rest)[j].0 == all[j].0);
        }
        assert forall|i: int| 0 <= i < rest.len() implies key_fits((#[trigger] rest[i]).0)
            && value_fits(rest[i].1) by {
            assert(rest[i] == tags[i + 1]);
        }
        lemma_entries_reread(next, rest);
        assert(next + reread_list(rest) =~= before + reread_list(tags));
    }
}

/// A tag block that is written is read as its tags, with their values as
/// they are inferred, and takes the bytes of `@`, the tags and ` :`.
proof fn lemma_tag_block_reread(tags: TagList, rest: Seq<u8>)
    requires
        tags_fit(Some(tags)),
    ensures
        parse_tag_block(tags_text(tags) + lit(" :") + rest) == Ok::<_, ParseErrorView>(
            (Some(reread_list(tags)), tags_text(tags).len() as int + 3),
        ),
{
    lemma_delimiters();
    lemma_tags_text_holds_no_end(tags);
    lemma_split_junction(tags_text(tags), lit(" :"), rest);
    assert(TagList::empty() + tags =~= tags);
    assert(TagList::empty() + reread_list(tags) =~= reread_list(tags));
    lemma_entries_reread(TagList::empty(), tags);
}

// ---------------------------------------------------------------------------
// White space
// ---------------------------------------------------------------------------

/// A line that begins with an ASCII byte that is no white space, and does
/// not end with white space, has none to drop.
proof fn lemma_trim_unchanged(line: Seq<u8>)
    requires
        line.len() > 0,
        line[0] < 0x80,
        !is_space1(line[0]),
        ends_clean(line),
    ensures
        trim(line) == line,
{
    reveal(ends_clean);
}

/// A text that is empty, or ends with an ASCII byte that is no white space,
/// does not end with white space.
proof fn lemma_ends_plain(text: Seq<u8>)
    requires
        text.len() > 0 ==> text.last() < 0x80 && !is_space1(text.last()),
    ensures
        ends_clean(text),
{
    reveal(ends_clean);
}

/// A text of three bytes or more ends with white space behind any other
/// text just where it does alone.
proof fn lemma_ends_clean_behind(before: Seq<u8>, text: Seq<u8>)
    requires
        text.len() >= 3,
    ensures
        ends_clean(before + text) == ends_clean(text),
{
    reveal(ends_clean);
    let all = before + text;
    let n = all.len() as int;
    let m = text.len() as int;
    assert(all[n - 1] == text[m - 1]);
    assert(all[n - 2] == text[m - 2]);
    assert(all[n - 3] == text[m - 3]);
}

/// A field that does not end with white space does not do so behind a head
/// that ends with an ASCII byte, where that byte is no white space or the
/// field is not empty.
proof fn lemma_ends_clean(head: Seq<u8>, field: Seq<u8>)
    requires
        head.len() > 0,
        head.last() < 0x80,
        field.len() > 0 || !is_space1(head.last()),
        ends_clean(field),
    ensures
        ends_clean(head + field),
{
    reveal(ends_clean);
    let all = head + field;
    let n = all.len() as int;
    let m = field.len() as int;
    if m >= 1 {
        assert(all[n - 1] == field[m - 1]);
    }
    if m >= 2 {
        assert(all[n - 2] == field[m - 2]);
    }
    if m >= 3 {
        assert(all[n - 3] == field[m - 3]);
    }
    assert(all[n - m - 1] == head.last());
}

/// A text that ends with ` :` ends with an ASCII byte that is no white space.
proof fn lemma_ends_with_colon(before: Seq<u8>)
    ensures
        (before + lit(" :")).len() > 0,
        (before + lit(" :")).last() == 0x3a,
{
    lemma_delimiters();
    let all = before + lit(" :");
    assert(all[all.len() - 1] == lit(" :")[1]);
}

// ---------------------------------------------------------------------------
// Lines
// ---------------------------------------------------------------------------

/// A verb and a body are split at the space between them.
proof fn lemma_command_splits(verb: Seq<u8>, body: Seq<u8>)
    requires
        is_verb(verb),
    ensures
        split_command(command(verb, body)) == (verb, body),
{
    lemma_delimiters();
    lemma_split_clean_head(verb, lit(" "), body);
}

/// A verb alone has an empty body, and holds no source.
proof fn lemma_verb_alone(verb: Seq<u8>)
    requires
        is_verb(verb),
    ensures
        split_command(verb) == (verb, Seq::<u8>::empty()),
        skip_source(verb) == verb,
{
    lemma_delimiters();
    let none = Seq::<u8>::empty();
    assert(verb + none =~= verb);
    lemma_absent_behind(verb, none, lit(" "));
    lemma_absent_behind(verb, none, lit("tmi.twitch.tv "));
}

/// What follows the source is what is left when the source is skipped.
proof fn lemma_source_skipped(rest: Seq<u8>)
    ensures
        skip_source(from_server(rest)) == rest,
        skip_source(lit("tmi.twitch.tv ") + rest) == rest,
{
    lemma_delimiters();
    reveal_strlit(":");
    assert(is_ascii(":"));
    is_ascii_spec_bytes(":");
    lemma_split_clean_head(lit(":"), lit("tmi.twitch.tv "), rest);
    let none = Seq::<u8>::empty();
    lemma_split_clean_head(none, lit("tmi.twitch.tv "), rest);
    assert(none + lit("tmi.twitch.tv ") + rest =~= lit("tmi.twitch.tv ") + rest);
}

/// A command of the client is read as its verb and its body, where the body
/// holds no source and does not end with white space.
proof fn lemma_client_line(verb: Seq<u8>, body: Seq<u8>)
    requires
        is_verb(verb),
        verb.len() + 1 + body.len() >= MIN_LINE_LEN,
        !contains(body, lit("tmi.twitch.tv ")),
        ends_clean(body),
    ensures
        parse_line(command(verb, body)) == dispatch(verb, body, None),
{
    lemma_delimiters();
    let line = command(verb, body);
    assert(line[0] == verb[0]);
    if body.len() == 0 {
        assert(line =~= verb + lit(" "));
        assert(line.subrange(0, line.len() - 1) =~= verb);
        assert(verb.last() == verb[verb.len() - 1]);
        assert(trim_end(line) == trim_end(verb));
        assert(trim(line) == verb);
        lemma_verb_alone(verb);
        assert(body =~= Seq::<u8>::empty());
    } else {
        assert(line =~= (verb + lit(" ")) + body);
        lemma_ends_clean(verb + lit(" "), body);
        lemma_trim_unchanged(line);
        lemma_absent_behind(verb + lit(" "), body, lit("tmi.twitch.tv "));
        lemma_command_splits(verb, body);
    }
}

/// A verb alone, as a line of the client, is read as the verb without a
/// body.
proof fn lemma_client_bare(verb: Seq<u8>)
    requires
        is_verb(verb),
        verb.len() >= MIN_LINE_LEN,
    ensures
        parse_line(verb) == dispatch(verb, Seq::<u8>::empty(), None),
{
    assert(verb.last() == verb[verb.len() - 1]);
    lemma_ends_plain(verb);
    lemma_trim_unchanged(verb);
    lemma_verb_alone(verb);
}

/// A line of the server, with tags that can stand in a tag block or with
/// none, is read as the command behind its source, with the tags as they
/// are read again.
proof fn lemma_server_line(tags: Option<TagList>, cmd: Seq<u8>)
    requires
        tags_fit(tags),
        cmd.len() >= 3,
        ends_clean(cmd),
    ensures
        parse_line(with_tags(tags, from_server(cmd))) == dispatch(
            split_command(cmd).0,
            split_command(cmd).1,
            reread_tags(tags),
        ),
{
    lemma_delimiters();
    reveal_strlit(":");
    assert(is_ascii(":"));
    is_ascii_spec_bytes(":");
    lemma_source_skipped(cmd);
    let source = lit("tmi.twitch.tv ");
    let line = with_tags(tags, from_server(cmd));
    match tags {
        Some(list) => {
            let block = tags_text(list);
            let head = lit("@") + block + lit(" ") + lit(":") + source;
            assert(line =~= head + cmd);
            lemma_ends_clean_behind(head, cmd);
            assert(line[0] == AT);
            lemma_trim_unchanged(line);
            assert(line.drop_first() =~= block + lit(" :") + (source + cmd));
            lemma_tag_block_reread(list, source + cmd);
            let used = block.len() as int + 3;
            assert(line.subrange(used, line.len() as int) =~= source + cmd);
        },
        None => {
            let head = lit(":") + source;
            assert(line =~= head + cmd);
            lemma_ends_clean_behind(head, cmd);
            assert(line[0] == 0x3a);
            lemma_trim_unchanged(line);
        },
    }
}

/// A line of the server whose body does not end with white space is read as
/// its verb and its body, with the tags as they are read again.
proof fn lemma_server_command(tags: Option<TagList>, verb: Seq<u8>, body: Seq<u8>)
    requires
        tags_fit(tags),
        is_verb(verb),
        body.len() > 0,
        ends_clean(body),
    ensures
        parse_line(with_tags(tags, from_server(command(verb, body)))) == dispatch(
            verb,
            body,
            reread_tags(tags),
        ),
{
    lemma_delimiters();
    let cmd = command(verb, body);
    assert(cmd =~= (verb + lit(" ")) + body);
    lemma_ends_clean(verb + lit(" "), body);
    lemma_server_line(tags, cmd);
    lemma_command_splits(verb, body);
}

// ---------------------------------------------------------------------------
// Bodies
// ---------------------------------------------------------------------------

/// A text without a space holds no byte that is one.
proof fn lemma_no_space(text: Seq<u8>)
    requires
        !contains(text, lit(" ")),
    ensures
        forall|i: int| 0 <= i < text.len() ==> #[trigger] text[i] != SPACE,
{
    lemma_delimiters();
    assert forall|i: int| 0 <= i < text.len() implies #[trigger] text[i] != SPACE by {
        lemma_occurs_bytes(text, lit(" "), i);
        if text[i] == SPACE {
            assert(lit(" ")[0] == SPACE);
            assert(occurs_at(text, lit(" "), i));
        }
    }
}

/// The decimal digits of a number do not end with white space, and are read
/// as a number of viewers where the number has 32 bits.
proof fn lemma_viewers(n: u32)
    ensures
        viewers(decimal(n as nat)) == Some(n),
        ends_clean(decimal(n as nat)),
        decimal(n as nat).len() > 0,
        0x30 <= decimal(n as nat)[0] <= 0x39,
        !contains(decimal(n as nat), lit(" ")),
{
    lemma_decimal(n as nat);
    lemma_parse_decimal(n as nat, u32::MAX as nat);
    lemma_digits_hold_no_delimiter(decimal(n as nat));
    reveal(ends_clean);
    let d = decimal(n as nat);
    assert(0x30 <= d[d.len() - 1] <= 0x39);
}

/// `#channel` is read as the channel.
proof fn lemma_channel(chan: Seq<u8>)
    ensures
        channel_of(channel(chan)) == Some(chan),
        channel(chan).len() == chan.len() + 1,
        channel(chan)[0] == 0x23,
{
    lemma_literals();
    let text = channel(chan);
    assert(text[0] == 0x23);
    assert(without_first_char(text) =~= chan);
}

/// `#channel :text` is read as the channel and the text, where the channel
/// holds no ` :`.
proof fn lemma_channel_text(chan: Seq<u8>, text: Seq<u8>)
    requires
        !contains(chan, lit(" :")),
    ensures
        split_once(channel_text(chan, text), lit(" :")) == Some((channel(chan), text)),
        channel_and_text(channel_text(chan, text)) == Some((chan, text)),
{
    lemma_delimiters();
    lemma_literals();
    lemma_channel(chan);
    lemma_absent_behind(lit("#"), chan, lit(" :"));
    lemma_split_junction(channel(chan), lit(" :"), text);
}

/// A body `#channel :text` does not end with white space where the text
/// does not.
proof fn lemma_channel_text_body(chan: Seq<u8>, text: Seq<u8>)
    requires
        ends_clean(text),
    ensures
        channel_text(chan, text).len() > 0,
        ends_clean(channel_text(chan, text)),
{
    let head = channel(chan) + lit(" :");
    lemma_ends_with_colon(channel(chan));
    lemma_ends_clean(head, text);
}

/// A body `#channel` does not end with white space where the channel does
/// not, and is read as the channel.
proof fn lemma_channel_body(chan: Seq<u8>)
    requires
        ends_clean(chan),
    ensures
        channel(chan).len() > 0,
        ends_clean(channel(chan)),
        channel_of(channel(chan)) == Some(chan),
{
    lemma_literals();
    lemma_channel(chan);
    lemma_ends_clean(lit("#"), chan);
}

/// A body `#channel` of the client holds no source and does not end with
/// white space where the channel does neither, and is read as the channel.
proof fn lemma_channel_body_client(chan: Seq<u8>)
    requires
        ends_clean(chan),
        !contains(chan, lit("tmi.twitch.tv ")),
    ensures
        ends_clean(channel(chan)),
        !contains(channel(chan), lit("tmi.twitch.tv ")),
        channel_of(channel(chan)) == Some(chan),
{
    lemma_delimiters();
    lemma_literals();
    lemma_channel(chan);
    lemma_ends_clean(lit("#"), chan);
    lemma_absent_behind(lit("#"), chan, lit("tmi.twitch.tv "));
}

/// A body `#channel :text` of the client holds no source where the
/// channel with a space behind it and the text hold none.
proof fn lemma_channel_text_client(chan: Seq<u8>, msg: Seq<u8>)
    requires
        !contains(chan + lit(" "), lit("tmi.twitch.tv ")),
        !contains(msg, lit("tmi.twitch.tv ")),
    ensures
        !contains(channel_text(chan, msg), lit("tmi.twitch.tv ")),
{
    lemma_delimiters();
    lemma_literals();
    let before = lit("#") + (chan + lit(" "));
    lemma_absent_behind(lit("#"), chan + lit(" "), lit("tmi.twitch.tv "));
    lemma_absent_around_byte(before, 0x3au8, msg, lit("tmi.twitch.tv "));
    assert(channel_text(chan, msg) =~= before + seq![0x3au8] + msg);
}

/// The name of the server, as the body of `PING` and `PONG`, holds no source
/// and does not end with white space.
proof fn lemma_server_name()
    ensures
        ends_clean(lit("tmi.twitch.tv")),
        !contains(lit("tmi.twitch.tv"), lit("tmi.twitch.tv ")),
        lit("tmi.twitch.tv").len() == 13,
{
    lemma_literals();
    lemma_delimiters();
    let body = lit("tmi.twitch.tv");
    assert forall|i: int| !occurs_at(body, lit("tmi.twitch.tv "), i) by {}
    assert(body.last() == body[12]);
    lemma_ends_plain(body);
}

/// The body `REQ :capability` is read as a request; it holds no source and
/// does not end with white space where the capability does neither.
proof fn lemma_cap_req_body(req: Seq<u8>)
    requires
        ends_clean(req),
        !contains(req, lit("tmi.twitch.tv ")),
    ensures
        (lit("REQ") + lit(" :") + req).len() >= 5,
        ends_clean(lit("REQ") + lit(" :") + req),
        !contains(lit("REQ") + lit(" :") + req, lit("tmi.twitch.tv ")),
        parse_cap(lit("REQ") + lit(" :") + req) == Some(MessageView::CapReq { req }),
{
    lemma_delimiters();
    lemma_literals();
    let head = lit("REQ") + lit(" :");
    lemma_ends_with_colon(lit("REQ"));
    lemma_ends_clean(head, req);
    lemma_absent_behind(head, req, lit("tmi.twitch.tv "));
    lemma_split_clean_head(lit("REQ"), lit(" :"), req);
}

/// The body `* ACK :capability` is read as an acknowledgement; it does not
/// end with white space where the capability does not.
proof fn lemma_cap_ack_body(req: Seq<u8>)
    requires
        ends_clean(req),
    ensures
        (lit("* ACK") + lit(" :") + req).len() > 0,
        ends_clean(lit("* ACK") + lit(" :") + req),
        parse_cap(lit("* ACK") + lit(" :") + req) == Some(MessageView::CapAck { req }),
{
    lemma_delimiters();
    lemma_literals();
    let kind = lit("* ACK");
    let head = kind + lit(" :");
    lemma_ends_with_colon(kind);
    lemma_ends_clean(head, req);
    assert forall|i: int| !occurs_at(kind, lit(" :"), i) by {
        if occurs_at(kind, lit(" :"), i) {
            lemma_occurs_bytes(kind, lit(" :"), i);
            assert(kind[i + 0] == lit(" :")[0]);
            assert(kind[i + 1] == lit(" :")[1]);
        }
    }
    lemma_split_junction(kind, lit(" :"), req);
    assert(kind.len() != lit("REQ").len());
}

/// A body `#channel` without ` :` in the channel is read as a chat cleared
/// of all users.
proof fn lemma_clearchat_all(chan: Seq<u8>, tags: Option<TagList>)
    requires
        !contains(chan, lit(" :")),
    ensures
        parse_clearchat(channel(chan), tags) == Some(
            MessageView::Clearchat { tags, chan, usr: None },
        ),
{
    lemma_delimiters();
    lemma_literals();
    lemma_channel(chan);
    lemma_absent_behind(lit("#"), chan, lit(" :"));
}

// ---------------------------------------------------------------------------
// Hosts
// ---------------------------------------------------------------------------

/// The body that ends a host, in its parts.
spec fn host_end_tail(view: Option<u32>) -> Seq<u8> {
    match view {
        Some(n) => lit(" ") + decimal(n as nat),
        None => Seq::<u8>::empty(),
    }
}

/// The body that ends a host is `#host`, ` :-` and what follows.
proof fn lemma_host_end_parts(host: Seq<u8>, view: Option<u32>)
    ensures
        with_viewers(channel_text(host, lit("-")), view) == channel(host) + lit(" :-")
            + host_end_tail(view),
{
    lemma_end_mark();
    let body = with_viewers(channel_text(host, lit("-")), view);
    assert(body =~= channel(host) + (lit(" :") + lit("-")) + host_end_tail(view));
}

/// The body that ends a host does not end with white space.
proof fn lemma_host_end_clean(host: Seq<u8>, view: Option<u32>)
    ensures
        with_viewers(channel_text(host, lit("-")), view).len() > 0,
        ends_clean(with_viewers(channel_text(host, lit("-")), view)),
{
    lemma_host_end_parts(host, view);
    lemma_end_mark();
    let head = channel(host) + lit(" :-");
    assert(head.last() == 0x2d) by {
        assert(head[head.len() - 1] == lit(" :-")[2]);
    }
    match view {
        Some(n) => {
            lemma_viewers(n);
            lemma_delimiters();
            let longer = head + lit(" ");
            assert(longer.last() == SPACE) by {
                assert(longer[longer.len() - 1] == lit(" ")[0]);
            }
            lemma_ends_clean(longer, decimal(n as nat));
            assert(head + host_end_tail(view) =~= longer + decimal(n as nat));
        },
        None => {
            lemma_ends_plain(Seq::<u8>::empty());
            lemma_ends_clean(head, Seq::<u8>::empty());
        },
    }
}

/// What follows ` :-` where a host ends is read as the number of viewers.
proof fn lemma_host_end_tail(host: Seq<u8>, view: Option<u32>)
    ensures
        parse_host_end(host, host_end_tail(view)) == Some(
            MessageView::HosttargetEnd { host, view },
        ),
{
    let tail = host_end_tail(view);
    match view {
        Some(n) => {
            lemma_viewers(n);
            assert(tail[0] == SPACE && tail.len() > 0) by {
                lemma_delimiters();
                assert(tail[0] == lit(" ")[0]);
            }
            assert(tail.drop_first() =~= decimal(n as nat)) by {
                lemma_delimiters();
            }
        },
        None => {},
    }
}

/// The body that ends a host is split at its ` :-`.
proof fn lemma_host_end_split(host: Seq<u8>, tail: Seq<u8>)
    requires
        !contains(host, lit(" :-")),
    ensures
        split_once(channel(host) + lit(" :-") + tail, lit(" :-")) == Some((channel(host), tail)),
{
    lemma_end_mark();
    let mark = lit(" :-");
    assert(!contains(channel(host), mark)) by {
        lemma_literals();
        lemma_absent_behind(lit("#"), host, mark);
    }
    lemma_split_junction(channel(host), mark, tail);
}

/// The body that ends a host is read as the end of that host.
proof fn lemma_host_end_read(host: Seq<u8>, view: Option<u32>)
    requires
        !contains(host, lit(" :-")),
    ensures
        parse_hosttarget(with_viewers(channel_text(host, lit("-")), view)) == Some(
            MessageView::HosttargetEnd { host, view },
        ),
{
    lemma_host_end_parts(host, view);
    lemma_host_end_split(host, host_end_tail(view));
    lemma_host_end_tail(host, view);
    lemma_channel(host);
}

/// What stands behind ` :` where a host starts is read as the channel and
/// the number of viewers.
proof fn lemma_host_target_read(host: Seq<u8>, chan: Seq<u8>, view: Option<u32>)
    requires
        !contains(chan, lit(" ")),
    ensures
        parse_host_start(host, with_viewers(chan, view)) == Some(
            MessageView::HosttargetStart { host, chan, view },
        ),
{
    lemma_delimiters();
    lemma_no_space(chan);
    match view {
        Some(n) => {
            lemma_viewers(n);
            lemma_split_clean_head(chan, lit(" "), decimal(n as nat));
        },
        None => {},
    }
}

/// What stands behind ` :` where a host starts does not end with white
/// space.
proof fn lemma_host_target_clean(chan: Seq<u8>, view: Option<u32>)
    requires
        view is None ==> ends_clean(chan),
    ensures
        ends_clean(with_viewers(chan, view)),
{
    match view {
        Some(n) => {
            lemma_viewers(n);
            lemma_delimiters();
            let head = chan + lit(" ");
            assert(head.last() == SPACE) by {
                assert(head[head.len() - 1] == lit(" ")[0]);
            }
            lemma_ends_clean(head, decimal(n as nat));
        },
        None => {},
    }
}

/// What stands behind ` :` where a host starts holds no `:` behind a space.
proof fn lemma_host_target_bytes(chan: Seq<u8>, view: Option<u32>, i: int)
    requires
        !contains(chan, lit(" ")),
        0 <= i,
        i + 1 < with_viewers(chan, view).len(),
        with_viewers(chan, view)[i] == SPACE,
    ensures
        with_viewers(chan, view)[i + 1] != 0x3a,
{
    lemma_delimiters();
    lemma_no_space(chan);
    let target = with_viewers(chan, view);
    match view {
        Some(n) => {
            lemma_decimal(n as nat);
            let digits = decimal(n as nat);
            assert(target =~= chan + lit(" ") + digits);
            if i < chan.len() {
                assert(target[i] == chan[i]);
            } else if i == chan.len() {
                assert(target[i + 1] == digits[0]);
            } else {
                assert(target[i] == digits[i - chan.len() - 1]);
            }
        },
        None => {},
    }
}

/// Where a host starts, the first byte behind ` :` is the first of the
/// channel, or a space where the channel is empty.
proof fn lemma_host_target_first(chan: Seq<u8>, view: Option<u32>)
    requires
        with_viewers(chan, view).len() > 0,
    ensures
        with_viewers(chan, view)[0] == (if chan.len() > 0 {
            chan[0]
        } else {
            SPACE
        }),
{
    lemma_delimiters();
    match view {
        Some(n) => {
            let target = with_viewers(chan, view);
            assert(target =~= chan + lit(" ") + decimal(n as nat));
            if chan.len() == 0 {
                assert(target[0] == lit(" ")[0]);
            }
        },
        None => {},
    }
}

/// The body that starts a host holds no ` :-`.
proof fn lemma_host_start_mark(host: Seq<u8>, chan: Seq<u8>, view: Option<u32>)
    requires
        !contains(host, lit(" :")),
        !contains(chan, lit(" ")),
        chan.len() > 0 ==> chan[0] != 0x2d,
    ensures
        !contains(channel_text(host, with_viewers(chan, view)), lit(" :-")),
        !contains(with_viewers(chan, view), lit(" :")),
{
    lemma_end_mark();
    lemma_delimiters();
    lemma_literals();
    let mark = lit(" :-");
    let target = with_viewers(chan, view);
    let front = channel(host);
    let body = channel_text(host, target);
    let at = front.len() as int;
    lemma_absent_behind(lit("#"), host, lit(" :"));
    assert(body =~= front + lit(" :") + target);
    assert(body[at] == SPACE && body[at + 1] == 0x3a) by {
        assert(body[at] == lit(" :")[0]);
        assert(body[at + 1] == lit(" :")[1]);
    }
    assert forall|i: int| !occurs_at(target, lit(" :"), i) by {
        if occurs_at(target, lit(" :"), i) {
            lemma_occurs_bytes(target, lit(" :"), i);
            assert(target[i + 0] == lit(" :")[0]);
            assert(target[i + 1] == lit(" :")[1]);
            lemma_host_target_bytes(chan, view, i);
        }
    }
    assert forall|i: int| !occurs_at(body, mark, i) by {
        if occurs_at(body, mark, i) {
            lemma_occurs_bytes(body, mark, i);
            assert(body[i + 0] == mark[0]);
            assert(body[i + 1] == mark[1]);
            assert(body[i + 2] == mark[2]);
            if i + 2 <= at {
                let delim = lit(" :");
                lemma_occurs_bytes(front, delim, i);
                assert forall|k: int| 0 <= k < 2 implies front[i + k] == #[trigger] delim[k] by {
                    assert(body[i + k] == front[i + k]);
                }
                assert(occurs_at(front, lit(" :"), i));
            } else if i + 1 == at {
            } else if i == at {
                lemma_host_target_first(chan, view);
                assert(body[at + 2] == target[0]);
            } else if i == at + 1 {
            } else {
                assert(body[i] == target[i - at - 2]);
                assert(body[i + 1] == target[i - at - 2 + 1]);
                lemma_host_target_bytes(chan, view, i - at - 2);
            }
        }
    }
}

// ---------------------------------------------------------------------------
// Messages
// ---------------------------------------------------------------------------

/// `PING`, `PONG` and `RECONNECT`, written, are read as themselves.
pub proof fn lemma_written_bare(m: MessageView)
    requires
        m is Ping || m is Pong || m is Reconnect,
    ensures
        parse_line(unparse_line(m)) == Ok::<MessageView, ParseErrorView>(m),
{
    let body = lit("tmi.twitch.tv");
    lemma_server_name();
    lemma_dispatch_bare(body, None);
    lemma_dispatch_bare(Seq::<u8>::empty(), None);
    match m {
        MessageView::Ping => lemma_client_line(lit("PING"), body),
        MessageView::Pong => lemma_client_line(lit("PONG"), body),
        _ => lemma_client_bare(lit("RECONNECT")),
    }
}

/// `CAP REQ` and `CAP * ACK`, written, are read as themselves.
pub proof fn lemma_written_cap(m: MessageView)
    requires
        m is CapReq || m is CapAck,
        well_shaped(m),
        source_free(m),
    ensures
        parse_line(unparse_line(m)) == Ok::<MessageView, ParseErrorView>(reread(m)),
{
    let verb = lit("CAP");
    match m {
        MessageView::CapReq { req } => {
            let body = lit("REQ") + lit(" :") + req;
            lemma_cap_req_body(req);
            lemma_dispatch_client(body, None);
            lemma_client_line(verb, body);
        },
        MessageView::CapAck { req } => {
            let body = lit("* ACK") + lit(" :") + req;
            lemma_cap_ack_body(req);
            lemma_dispatch_client(body, None);
            lemma_server_command(None, verb, body);
        },
        _ => {},
    }
}

/// `PASS`, `NICK`, `JOIN` and `PART`, written, are read as themselves.
pub proof fn lemma_written_client(m: MessageView)
    requires
        m is Pass || m is Nick || m is Join || m is Part,
        well_shaped(m),
        source_free(m),
    ensures
        parse_line(unparse_line(m)) == Ok::<MessageView, ParseErrorView>(reread(m)),
{
    match m {
        MessageView::Pass { pass } => {
            lemma_dispatch_client(pass, None);
            lemma_client_line(lit("PASS"), pass);
        },
        MessageView::Nick { nick } => {
            lemma_dispatch_client(nick, None);
            lemma_client_line(lit("NICK"), nick);
        },
        MessageView::Join { chan } => {
            lemma_channel_body_client(chan);
            lemma_dispatch_client(channel(chan), None);
            lemma_client_line(lit("JOIN"), channel(chan));
        },
        MessageView::Part { chan } => {
            lemma_channel_body_client(chan);
            lemma_dispatch_client(channel(chan), None);
            lemma_client_line(lit("PART"), channel(chan));
        },
        _ => {},
    }
}

/// `PRIVMSG`, written, is read as itself, with its tags as they are read
/// again.
pub proof fn lemma_written_privmsg(m: MessageView)
    requires
        m is Privmsg,
        well_shaped(m),
        source_free(m),
    ensures
        parse_line(unparse_line(m)) == Ok::<MessageView, ParseErrorView>(reread(m)),
{
    match m {
        MessageView::Privmsg { tags, chan, msg } => {
            let verb = lit("PRIVMSG");
            let body = channel_text(chan, msg);
            lemma_channel_text_body(chan, msg);
            lemma_channel_text(chan, msg);
            lemma_dispatch_text(body, reread_tags(tags));
            match tags {
                Some(list) => {
                    lemma_server_command(tags, verb, body);
                },
                None => {
                    lemma_channel_text_client(chan, msg);
                    lemma_client_line(verb, body);
                },
            }
        },
        _ => {},
    }
}

/// `CLEARMSG`, `NOTICE` and `USERNOTICE`, written, are read as themselves,
/// with their tags as they are read again.
pub proof fn lemma_written_text(m: MessageView)
    requires
        m is Clearmsg || m is Notice || m is Usernotice,
        well_shaped(m),
        source_free(m),
    ensures
        parse_line(unparse_line(m)) == Ok::<MessageView, ParseErrorView>(reread(m)),
{
    match m {
        MessageView::Clearmsg { tags, chan, msg } => {
            lemma_channel_text_body(chan, msg);
            lemma_channel_text(chan, msg);
            lemma_dispatch_text(channel_text(chan, msg), reread_tags(tags));
            lemma_server_command(tags, lit("CLEARMSG"), channel_text(chan, msg));
        },
        MessageView::Notice { tags, chan, msg } => {
            lemma_channel_text_body(chan, msg);
            lemma_channel_text(chan, msg);
            lemma_dispatch_text(channel_text(chan, msg), reread_tags(tags));
            lemma_server_command(tags, lit("NOTICE"), channel_text(chan, msg));
        },
        MessageView::Usernotice { tags, chan, msg } => {
            lemma_channel_text_body(chan, msg);
            lemma_channel_text(chan, msg);
            lemma_dispatch_text(channel_text(chan, msg), reread_tags(tags));
            lemma_server_command(tags, lit("USERNOTICE"), channel_text(chan, msg));
        },
        _ => {},
    }
}

/// `CLEARCHAT`, written, is read as itself, with its tags as they are read
/// again.
pub proof fn lemma_written_clearchat(m: MessageView)
    requires
        m is Clearchat,
        well_shaped(m),
        source_free(m),
    ensures
        parse_line(unparse_line(m)) == Ok::<MessageView, ParseErrorView>(reread(m)),
{
    match m {
        MessageView::Clearchat { tags, chan, usr } => {
            let verb = lit("CLEARCHAT");
            match usr {
                Some(user) => {
                    let body = channel_text(chan, user);
                    lemma_channel_text_body(chan, user);
                    lemma_channel_text(chan, user);
                    lemma_channel(chan);
                    lemma_dispatch_channel(body, reread_tags(tags));
                    lemma_server_command(tags, verb, body);
                },
                None => {
                    let body = channel(chan);
                    lemma_channel_body(chan);
                    lemma_clearchat_all(chan, reread_tags(tags));
                    lemma_dispatch_channel(body, reread_tags(tags));
                    lemma_server_command(tags, verb, body);
                },
            }
        },
        _ => {},
    }
}

/// `ROOMSTATE`, `USERSTATE` and `GLOBALUSERSTATE`, written, are read as
/// themselves, with their tags as they are read again.
pub proof fn lemma_written_state(m: MessageView)
    requires
        m is Roomstate || m is Userstate || m is GlobalUserstate,
        well_shaped(m),
        source_free(m),
    ensures
        parse_line(unparse_line(m)) == Ok::<MessageView, ParseErrorView>(reread(m)),
{
    match m {
        MessageView::Roomstate { tags, chan } => {
            lemma_channel_body(chan);
            lemma_dispatch_channel(channel(chan), reread_tags(tags));
            lemma_server_command(tags, lit("ROOMSTATE"), channel(chan));
        },
        MessageView::Userstate { tags, chan } => {
            lemma_channel_body(chan);
            lemma_dispatch_channel(channel(chan), reread_tags(tags));
            lemma_server_command(tags, lit("USERSTATE"), channel(chan));
        },
        MessageView::GlobalUserstate { tags } => {
            let verb = lit("GLOBALUSERSTATE");
            lemma_dispatch_bare(Seq::<u8>::empty(), reread_tags(tags));
            assert(verb.last() == verb[14]);
            lemma_ends_plain(verb);
            lemma_server_line(tags, verb);
            lemma_verb_alone(verb);
        },
        _ => {},
    }
}

/// The end of a host, written, is read as itself.
pub proof fn lemma_written_host_end(host: Seq<u8>, view: Option<u32>)
    requires
        !contains(host, lit(" :-")),
    ensures
        parse_line(unparse_line(MessageView::HosttargetEnd { host, view }))
            == Ok::<MessageView, ParseErrorView>(MessageView::HosttargetEnd { host, view }),
{
    let body = with_viewers(channel_text(host, lit("-")), view);
    lemma_host_end_clean(host, view);
    lemma_host_end_read(host, view);
    lemma_dispatch_channel(body, None);
    lemma_server_command(None, lit("HOSTTARGET"), body);
}

/// The start of a host, written, is read as itself.
pub proof fn lemma_written_host_start(host: Seq<u8>, chan: Seq<u8>, view: Option<u32>)
    requires
        well_shaped(MessageView::HosttargetStart { host, chan, view }),
    ensures
        parse_line(unparse_line(MessageView::HosttargetStart { host, chan, view }))
            == Ok::<MessageView, ParseErrorView>(MessageView::HosttargetStart { host, chan, view }),
{
    let target = with_viewers(chan, view);
    let body = with_viewers(channel_text(host, chan), view);
    assert(body =~= channel_text(host, target));
    lemma_host_target_read(host, chan, view);
    lemma_host_target_clean(chan, view);
    lemma_host_start_mark(host, chan, view);
    lemma_channel_text_body(host, target);
    lemma_channel_text(host, target);
    lemma_dispatch_channel(body, None);
    lemma_server_command(None, lit("HOSTTARGET"), body);
}

// ---------------------------------------------------------------------------
// Lines that hold a source
// ---------------------------------------------------------------------------

/// The least number of bytes of verb and body that a command of the client
/// can be read from.
spec fn weight(m: MessageView) -> nat {
    match m {
        MessageView::CapReq { req } => 8 + req.len(),
        MessageView::Pass { pass } => 4 + pass.len(),
        MessageView::Nick { nick } => 4 + nick.len(),
        MessageView::Join { chan } => 5 + chan.len(),
        MessageView::Part { chan } => 5 + chan.len(),
        MessageView::Privmsg { tags, chan, msg } => 10 + chan.len() + msg.len(),
        _ => 0,
    }
}

/// The channel that is read from a text is shorter than the text.
proof fn lemma_channel_shorter(part: Seq<u8>)
    ensures
        channel_of(part) matches Some(chan) ==> chan.len() + 1 <= part.len(),
{
    lemma_without_first_char(part);
}

/// A command of the client is read from no fewer bytes than its weight.
proof fn lemma_dispatch_weight(cmd: Seq<u8>, body: Seq<u8>, tags: Option<TagList>)
    ensures
        dispatch(cmd, body, tags) matches Ok(m) ==> weight(m) <= cmd.len() + body.len(),
{
    lemma_verbs();
    lemma_literals();
    assert(lit(" :").len() == 2) by {
        lemma_delimiters();
    }
    lemma_channel_shorter(body);
    lemma_split_parts(body, lit(" :"));
    match split_once(body, lit(" :")) {
        Some((part, text)) => {
            lemma_channel_shorter(part);
            assert(body.len() == part.len() + 2 + text.len());
        },
        None => {},
    }
}

/// What stands in a part of a text stands in the text.
proof fn lemma_contains_in_whole(before: Seq<u8>, part: Seq<u8>, behind: Seq<u8>, needle: Seq<u8>)
    requires
        contains(part, needle),
    ensures
        contains(before + part + behind, needle),
{
    let whole = before + part + behind;
    let i = choose|i: int| occurs_at(part, needle, i);
    let from = before.len() as int;
    assert(whole.subrange(from, from + part.len()) =~= part);
    lemma_occurs_in_part(whole, from, from + part.len(), needle, i + from);
    assert(occurs_at(whole, needle, i + from));
}

/// A command of the client whose body holds a source is read as what stands
/// behind the source, which is shorter by the source at least.
proof fn lemma_client_line_with_source(verb: Seq<u8>, body: Seq<u8>)
    requires
        is_verb(verb),
        ends_clean(body),
        contains(body, lit("tmi.twitch.tv ")),
    ensures
        parse_line(command(verb, body)) == dispatch(
            split_command(skip_source(command(verb, body))).0,
            split_command(skip_source(command(verb, body))).1,
            None,
        ),
        split_command(skip_source(command(verb, body))).0.len() + split_command(
            skip_source(command(verb, body)),
        ).1.len() + 14 <= command(verb, body).len(),
        command(verb, body).len() == verb.len() + 1 + body.len(),
{
    lemma_delimiters();
    let source = lit("tmi.twitch.tv ");
    let line = command(verb, body);
    assert(line[0] == verb[0]);
    assert(body.len() >= 14) by {
        let i = choose|i: int| occurs_at(body, source, i);
        assert(occurs_at(body, source, i));
    }
    assert(line =~= (verb + lit(" ")) + body);
    lemma_ends_clean(verb + lit(" "), body);
    lemma_trim_unchanged(line);
    lemma_contains_in_whole(verb + lit(" "), body, Seq::<u8>::empty(), source);
    assert(line =~= (verb + lit(" ")) + body + Seq::<u8>::empty());
    lemma_split_parts(line, source);
    let rest = skip_source(line);
    assert(rest.len() + 14 <= line.len());
    lemma_split_parts(rest, lit(" "));
}

/// A command of the client whose line holds a source is not read back.
pub proof fn lemma_source_breaks(m: MessageView)
    requires
        well_shaped(m),
        !source_free(m),
    ensures
        parse_line(unparse_line(m)) != Ok::<MessageView, ParseErrorView>(m),
{
    let source = lit("tmi.twitch.tv ");
    let none = Seq::<u8>::empty();
    lemma_verbs();
    lemma_literals();
    assert(lit(" :").len() == 2 && lit(" ").len() == 1) by {
        lemma_delimiters();
    }
    let line = unparse_line(m);
    let (verb, body) = match m {
        MessageView::CapReq { req } => (lit("CAP"), lit("REQ") + lit(" :") + req),
        MessageView::Pass { pass } => (lit("PASS"), pass),
        MessageView::Nick { nick } => (lit("NICK"), nick),
        MessageView::Join { chan } => (lit("JOIN"), channel(chan)),
        MessageView::Part { chan } => (lit("PART"), channel(chan)),
        MessageView::Privmsg { tags, chan, msg } => (lit("PRIVMSG"), channel_text(chan, msg)),
        _ => (none, none),
    };
    assert(line == command(verb, body));
    assert(ends_clean(body) && contains(body, source) && weight(m) == verb.len() + body.len()) by {
        match m {
            MessageView::CapReq { req } => {
                lemma_ends_with_colon(lit("REQ"));
                lemma_ends_clean(lit("REQ") + lit(" :"), req);
                lemma_contains_in_whole(lit("REQ") + lit(" :"), req, none, source);
                assert(body =~= (lit("REQ") + lit(" :")) + req + none);
            },
            MessageView::Pass { pass } => {},
            MessageView::Nick { nick } => {},
            MessageView::Join { chan } => {
                lemma_ends_clean(lit("#"), chan);
                lemma_contains_in_whole(lit("#"), chan, none, source);
                assert(body =~= lit("#") + chan + none);
            },
            MessageView::Part { chan } => {
                lemma_ends_clean(lit("#"), chan);
                lemma_contains_in_whole(lit("#"), chan, none, source);
                assert(body =~= lit("#") + chan + none);
            },
            MessageView::Privmsg { tags, chan, msg } => {
                lemma_channel_text_body(chan, msg);
                if contains(msg, source) {
                    lemma_contains_in_whole(lit("#") + chan + lit(" :"), msg, none, source);
                    assert(body =~= (lit("#") + chan + lit(" :")) + msg + none);
                } else {
                    lemma_delimiters();
                    lemma_contains_in_whole(
                        lit("#"),
                        chan + lit(" "),
                        lit(":") + msg,
                        source,
                    );
                    assert(body =~= lit("#") + (chan + lit(" ")) + (lit(":") + msg));
                }
            },
            _ => {},
        }
    }
    lemma_client_line_with_source(verb, body);
    let (cmd, rest) = split_command(skip_source(line));
    lemma_dispatch_weight(cmd, rest, None);
}

} // verus!
