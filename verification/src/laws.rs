//! What holds of reading and writing together.
//!
//! The main law is the round trip: a message that is written and read again
//! comes back as it was, [`law_round_trip`]. It holds of the messages that
//! [`reads_back`] describes, and of no others, [`law_round_trip_only`]: the
//! other messages are written as lines that mean something else.

use vstd::prelude::*;
use vstd::string::*;
use crate::number::decimal;
use crate::parsed::lemma_line_shape;
use crate::space::{is_space1, space_at_end, space_at_start, trim, trim_end, trim_start};
use crate::tags::{distinct_keys, infer, value_text, TagList, TagValueView};
use crate::text::{contains, lemma_occurs_bytes, occurs_at};
use crate::wire::{
    dispatch, lit, parse_line, parse_tag_block, skip_source, split_command, unparse_line,
    MessageView, ParseErrorView, AT, MIN_LINE_LEN,
};
use crate::written::{
    lemma_boolean_text, lemma_end_mark, lemma_infer_decimal, lemma_source_breaks, lemma_verbs,
    lemma_written_bare, lemma_written_cap, lemma_written_clearchat, lemma_written_client,
    lemma_written_host_end, lemma_written_host_start, lemma_written_privmsg,
    lemma_written_state, lemma_written_text,
};

verus! {

/// The text does not end with white space.
#[verifier::opaque]
pub open spec fn ends_clean(s: Seq<u8>) -> bool {
    space_at_end(s) == 0
}

/// A key that can stand in a tag block: it holds none of `=`, `;` and ` :`.
pub open spec fn key_fits(key: Seq<u8>) -> bool {
    &&& !contains(key, lit("="))
    &&& !contains(key, lit(";"))
    &&& !contains(key, lit(" :"))
}

/// A value that can stand in a tag block: where it is a text, it holds
/// neither `;` nor ` :`.
pub open spec fn value_fits(value: TagValueView) -> bool {
    match value {
        TagValueView::String(s) => !contains(s, lit(";")) && !contains(s, lit(" :")),
        _ => true,
    }
}

/// Tags that can stand in a tag block: none, or a list that is not empty,
/// with distinct keys, of keys and values that can stand there.
pub open spec fn tags_fit(tags: Option<TagList>) -> bool {
    match tags {
        Some(list) => {
            &&& list.len() > 0
            &&& distinct_keys(list)
            &&& forall|i: int|
                0 <= i < list.len() ==> key_fits((#[trigger] list[i]).0) && value_fits(list[i].1)
        },
        None => true,
    }
}

/// A value that is inferred from its text as itself: not the numbers 0 and
/// 1, which are read as booleans; not a timestamp that fits in 32 bits, which
/// is read as a number; and a text only where it is read as a text.
pub open spec fn value_infers_back(value: TagValueView) -> bool {
    match value {
        TagValueView::Number(n) => n >= 2,
        TagValueView::Timestamp(t) => t > u32::MAX,
        TagValueView::Boolean(_) => true,
        TagValueView::String(s) => infer(s) == TagValueView::String(s),
        TagValueView::Empty => true,
    }
}

/// Every value of the tags is inferred from its text as itself.
pub open spec fn tags_infer_back(tags: Option<TagList>) -> bool {
    match tags {
        Some(list) => forall|i: int|
            0 <= i < list.len() ==> value_infers_back((#[trigger] list[i]).1),
        None => true,
    }
}

/// The tags with each value as it is inferred from its text.
pub open spec fn reread_list(list: TagList) -> TagList {
    Seq::new(list.len(), |i: int| (list[i].0, infer(value_text(list[i].1))))
}

/// The tags, where there are any, with each value as it is inferred from its
/// text.
pub open spec fn reread_tags(tags: Option<TagList>) -> Option<TagList> {
    match tags {
        Some(list) => Some(reread_list(list)),
        None => None,
    }
}

/// The messages that have the shape of a message that was read: every
/// message that [`parse_line`] gives has it, [`law_parsed_shape`].
///
/// A text at the end of the line does not end with white space. A channel
/// before ` :` holds no ` :`. Tags can stand in a tag block. The channel that
/// a host starts on holds no space and does not begin with `-`, and the host
/// that ends holds no ` :-`.
pub open spec fn well_shaped(m: MessageView) -> bool {
    match m {
        MessageView::Ping => true,
        MessageView::Pong => true,
        MessageView::CapReq { req } => ends_clean(req),
        MessageView::CapAck { req } => ends_clean(req),
        MessageView::Pass { pass } => ends_clean(pass),
        MessageView::Nick { nick } => ends_clean(nick),
        MessageView::Join { chan } => ends_clean(chan),
        MessageView::Part { chan } => ends_clean(chan),
        MessageView::Privmsg { tags, chan, msg } => {
            &&& tags_fit(tags)
            &&& !contains(chan, lit(" :"))
            &&& ends_clean(msg)
        },
        MessageView::Clearchat { tags, chan, usr } => {
            &&& tags_fit(tags)
            &&& !contains(chan, lit(" :"))
            &&& match usr {
                Some(user) => ends_clean(user),
                None => ends_clean(chan),
            }
        },
        MessageView::Clearmsg { tags, chan, msg } => {
            &&& tags_fit(tags)
            &&& !contains(chan, lit(" :"))
            &&& ends_clean(msg)
        },
        MessageView::HosttargetStart { host, chan, view } => {
            &&& !contains(host, lit(" :"))
            &&& !contains(chan, lit(" "))
            &&& chan.len() > 0 ==> chan[0] != 0x2d
            &&& view is None ==> ends_clean(chan)
        },
        MessageView::HosttargetEnd { host, view } => !contains(host, lit(" :-")),
        MessageView::Notice { tags, chan, msg } => {
            &&& tags_fit(tags)
            &&& !contains(chan, lit(" :"))
            &&& ends_clean(msg)
        },
        MessageView::Reconnect => true,
        MessageView::Roomstate { tags, chan } => tags_fit(tags) && ends_clean(chan),
        MessageView::Usernotice { tags, chan, msg } => {
            &&& tags_fit(tags)
            &&& !contains(chan, lit(" :"))
            &&& ends_clean(msg)
        },
        MessageView::Userstate { tags, chan } => tags_fit(tags) && ends_clean(chan),
        MessageView::GlobalUserstate { tags } => tags_fit(tags),
    }
}

/// The messages whose line, where it names no source, holds no
/// `tmi.twitch.tv ` behind which the command would be sought.
pub open spec fn source_free(m: MessageView) -> bool {
    match m {
        MessageView::CapReq { req } => !contains(req, lit("tmi.twitch.tv ")),
        MessageView::Pass { pass } => !contains(pass, lit("tmi.twitch.tv ")),
        MessageView::Nick { nick } => !contains(nick, lit("tmi.twitch.tv ")),
        MessageView::Join { chan } => !contains(chan, lit("tmi.twitch.tv ")),
        MessageView::Part { chan } => !contains(chan, lit("tmi.twitch.tv ")),
        MessageView::Privmsg { tags, chan, msg } => tags is None ==> !contains(
            chan + lit(" "),
            lit("tmi.twitch.tv "),
        ) && !contains(msg, lit("tmi.twitch.tv ")),
        _ => true,
    }
}

/// The tags that a message carries.
pub open spec fn tags_of(m: MessageView) -> Option<TagList> {
    match m {
        MessageView::Privmsg { tags, .. } => tags,
        MessageView::Clearchat { tags, .. } => tags,
        MessageView::Clearmsg { tags, .. } => tags,
        MessageView::Notice { tags, .. } => tags,
        MessageView::Roomstate { tags, .. } => tags,
        MessageView::Usernotice { tags, .. } => tags,
        MessageView::Userstate { tags, .. } => tags,
        MessageView::GlobalUserstate { tags } => tags,
        _ => None,
    }
}

/// The message with each value of its tags as it is inferred from its text.
pub open spec fn reread(m: MessageView) -> MessageView {
    match m {
        MessageView::Privmsg { tags, chan, msg } => MessageView::Privmsg {
            tags: reread_tags(tags),
            chan,
            msg,
        },
        MessageView::Clearchat { tags, chan, usr } => MessageView::Clearchat {
            tags: reread_tags(tags),
            chan,
            usr,
        },
        MessageView::Clearmsg { tags, chan, msg } => MessageView::Clearmsg {
            tags: reread_tags(tags),
            chan,
            msg,
        },
        MessageView::Notice { tags, chan, msg } => MessageView::Notice {
            tags: reread_tags(tags),
            chan,
            msg,
        },
        MessageView::Roomstate { tags, chan } => MessageView::Roomstate {
            tags: reread_tags(tags),
            chan,
        },
        MessageView::Usernotice { tags, chan, msg } => MessageView::Usernotice {
            tags: reread_tags(tags),
            chan,
            msg,
        },
        MessageView::Userstate { tags, chan } => MessageView::Userstate {
            tags: reread_tags(tags),
            chan,
        },
        MessageView::GlobalUserstate { tags } => MessageView::GlobalUserstate {
            tags: reread_tags(tags),
        },
        _ => m,
    }
}

/// The messages that are read back as themselves from the line they are
/// written as: they have the shape of a message that was read, their line
/// holds no source where it should name none, and the values of their tags
/// are inferred from their text as themselves.
pub open spec fn reads_back(m: MessageView) -> bool {
    &&& well_shaped(m)
    &&& source_free(m)
    &&& tags_infer_back(tags_of(m))
}

/// A value is inferred from the text it is written as just where
/// [`value_infers_back`] says so.
pub proof fn law_value_round_trip(value: TagValueView)
    ensures
        infer(value_text(value)) == value <==> value_infers_back(value),
{
    lemma_boolean_text();
    match value {
        TagValueView::Number(n) => {
            lemma_infer_decimal(n as nat);
        },
        TagValueView::Timestamp(t) => {
            lemma_infer_decimal(t as nat);
        },
        TagValueView::Boolean(b) => {
            lemma_infer_decimal(0);
            lemma_infer_decimal(1);
            assert(decimal(0) =~= lit("0"));
            assert(decimal(1) =~= lit("1"));
        },
        TagValueView::String(s) => {},
        TagValueView::Empty => {},
    }
}

/// The values that are inferred as themselves stay as they are when the
/// tags are read again.
proof fn lemma_reread_same(m: MessageView)
    requires
        tags_infer_back(tags_of(m)),
    ensures
        reread(m) == m,
{
    match tags_of(m) {
        Some(list) => {
            assert forall|i: int| 0 <= i < list.len() implies reread_list(list)[i] == list[i] by {
                assert(value_infers_back(list[i].1));
                law_value_round_trip(list[i].1);
            }
            assert(reread_list(list) =~= list);
        },
        None => {},
    }
}

/// The tags that stay as they are when they are read again hold only values
/// that are inferred as themselves.
proof fn lemma_reread_differs(m: MessageView)
    requires
        reread(m) == m,
    ensures
        tags_infer_back(tags_of(m)),
{
    match tags_of(m) {
        Some(list) => {
            assert(reread_list(list) == list);
            assert forall|i: int| 0 <= i < list.len() implies value_infers_back(
                (#[trigger] list[i]).1,
            ) by {
                assert(reread_list(list)[i] == list[i]);
                law_value_round_trip(list[i].1);
            }
        },
        None => {},
    }
}

/// What a message that is written is read as: the message itself, with each
/// value of its tags as it is inferred from its text.
///
/// This holds of the messages that have the shape of a message that was
/// read, and whose line holds no source where it should name none.
pub proof fn law_written_line_read(m: MessageView)
    requires
        well_shaped(m),
        source_free(m),
    ensures
        parse_line(unparse_line(m)) == Ok::<MessageView, ParseErrorView>(reread(m)),
{
    match m {
        MessageView::Ping => lemma_written_bare(m),
        MessageView::Pong => lemma_written_bare(m),
        MessageView::CapReq { .. } => lemma_written_cap(m),
        MessageView::CapAck { .. } => lemma_written_cap(m),
        MessageView::Pass { .. } => lemma_written_client(m),
        MessageView::Nick { .. } => lemma_written_client(m),
        MessageView::Join { .. } => lemma_written_client(m),
        MessageView::Part { .. } => lemma_written_client(m),
        MessageView::Privmsg { .. } => lemma_written_privmsg(m),
        MessageView::Clearchat { .. } => lemma_written_clearchat(m),
        MessageView::Clearmsg { .. } => lemma_written_text(m),
        MessageView::HosttargetStart { host, chan, view } => lemma_written_host_start(
            host,
            chan,
            view,
        ),
        MessageView::HosttargetEnd { host, view } => lemma_written_host_end(host, view),
        MessageView::Notice { .. } => lemma_written_text(m),
        MessageView::Reconnect => lemma_written_bare(m),
        MessageView::Roomstate { .. } => lemma_written_state(m),
        MessageView::Usernotice { .. } => lemma_written_text(m),
        MessageView::Userstate { .. } => lemma_written_state(m),
        MessageView::GlobalUserstate { .. } => lemma_written_state(m),
    }
}

/// A message that is written and read again is the message it was.
///
/// This holds of the messages that [`reads_back`] describes. It holds with
/// the tags in their order: they are written in the order in which their
/// keys were inserted, and are read in the order in which they are written.
pub proof fn law_round_trip(m: MessageView)
    requires
        reads_back(m),
    ensures
        parse_line(unparse_line(m)) == Ok::<MessageView, ParseErrorView>(m),
{
    law_written_line_read(m);
    lemma_reread_same(m);
}

/// Only the messages that [`reads_back`] describes are read back as
/// themselves from the line they are written as.
pub proof fn law_round_trip_only(m: MessageView)
    requires
        parse_line(unparse_line(m)) == Ok::<MessageView, ParseErrorView>(m),
    ensures
        reads_back(m),
{
    lemma_line_shape(unparse_line(m));
    if !source_free(m) {
        lemma_source_breaks(m);
    }
    law_written_line_read(m);
    lemma_reread_differs(m);
}

/// Every message that is read has the shape of a message that was read.
pub proof fn law_parsed_shape(line: Seq<u8>)
    ensures
        parse_line(line) matches Ok(m) ==> well_shaped(m),
{
    lemma_line_shape(line);
}

/// A message that is read carries no tags or some: never an empty mapping,
/// and never a key twice.
pub proof fn law_tags_never_empty(line: Seq<u8>)
    ensures
        match parse_line(line) {
            Ok(m) => match tags_of(m) {
                Some(list) => list.len() > 0 && distinct_keys(list),
                None => true,
            },
            Err(_) => true,
        },
{
    lemma_line_shape(line);
}

/// The text is white space and nothing else: nothing is left of it when the
/// white space it begins with is dropped.
pub open spec fn all_space(s: Seq<u8>) -> bool {
    trim_start(s).len() == 0
}

/// White space begins with a white-space character, and white space is left
/// behind that.
proof fn lemma_space_starts(s: Seq<u8>)
    requires
        all_space(s),
        s.len() > 0,
    ensures
        1 <= space_at_start(s) <= s.len(),
        all_space(s.subrange(space_at_start(s), s.len() as int)),
        !(0x80 <= s[0] <= 0xbf),
{
}

/// A white-space character begins a text with whatever stands behind it.
proof fn lemma_space_at_start_of_more(s: Seq<u8>, more: Seq<u8>)
    requires
        space_at_start(s) > 0,
    ensures
        space_at_start(s + more) == space_at_start(s),
{
    let all = s + more;
    assert(all[0] == s[0]);
    if s.len() >= 2 {
        assert(all[1] == s[1]);
    }
    if s.len() >= 3 {
        assert(all[2] == s[2]);
    }
}

/// White space before a text is dropped with the white space that the text
/// begins with.
proof fn lemma_trim_start_space(before: Seq<u8>, text: Seq<u8>)
    requires
        all_space(before),
    ensures
        trim_start(before + text) == trim_start(text),
    decreases before.len(),
{
    let all = before + text;
    if before.len() == 0 {
        assert(all =~= text);
    } else {
        lemma_space_starts(before);
        lemma_space_at_start_of_more(before, text);
        let w = space_at_start(before);
        assert(all.subrange(w, all.len() as int) =~= before.subrange(w, before.len() as int)
            + text);
        lemma_trim_start_space(before.subrange(w, before.len() as int), text);
    }
}

/// White space behind a text stays behind what is left of the text when the
/// white space it begins with is dropped; where nothing is left of the
/// text, nothing is left of the white space.
proof fn lemma_trim_start_before_space(text: Seq<u8>, behind: Seq<u8>)
    requires
        all_space(behind),
    ensures
        trim_start(text + behind) == (if trim_start(text).len() > 0 {
            trim_start(text) + behind
        } else {
            Seq::<u8>::empty()
        }),
    decreases text.len(),
{
    let all = text + behind;
    if text.len() == 0 {
        assert(all =~= behind);
    } else {
        let w = space_at_start(text);
        if behind.len() > 0 {
            lemma_space_starts(behind);
        }
        assert(all[0] == text[0]);
        if text.len() >= 2 {
            assert(all[1] == text[1]);
        } else if behind.len() >= 1 {
            assert(all[1] == behind[0]);
        }
        if text.len() >= 3 {
            assert(all[2] == text[2]);
        } else if text.len() == 2 && behind.len() >= 1 {
            assert(all[2] == behind[0]);
        }
        assert(space_at_start(all) == w);
        if w > 0 {
            let rest = text.subrange(w, text.len() as int);
            assert(all.subrange(w, all.len() as int) =~= rest + behind);
            lemma_trim_start_before_space(rest, behind);
        }
    }
}

/// White space ends with a white-space character, and white space is left
/// before that.
proof fn lemma_space_ends(s: Seq<u8>)
    requires
        all_space(s),
        s.len() > 0,
    ensures
        1 <= space_at_end(s) <= s.len(),
        all_space(s.subrange(0, s.len() - space_at_end(s))),
    decreases s.len(),
{
    lemma_space_starts(s);
    let n = s.len() as int;
    let p = space_at_start(s);
    let first = s.subrange(0, p);
    let rest = s.subrange(p, n);
    let none = Seq::<u8>::empty();
    assert(all_space(first)) by {
        assert(first[0] == s[0]);
        if p >= 2 {
            assert(first[1] == s[1]);
        }
        if p >= 3 {
            assert(first[2] == s[2]);
        }
        assert(space_at_start(first) == p);
        assert(first.subrange(p, first.len() as int) =~= none);
        assert(trim_start(none) == none);
        assert(trim_start(first) == trim_start(first.subrange(p, first.len() as int)));
    }
    if rest.len() == 0 {
        assert(s.subrange(0, 0) =~= none);
    } else {
        lemma_space_ends(rest);
        let w = space_at_end(rest);
        let m = rest.len() as int;
        assert(s[n - 1] == rest[m - 1]);
        if m >= 2 {
            assert(s[n - 2] == rest[m - 2]);
        }
        if m >= 3 {
            assert(s[n - 3] == rest[m - 3]);
        }
        assert(space_at_end(s) == w);
        let shorter = rest.subrange(0, m - w);
        assert(s.subrange(0, n - w) =~= first + shorter);
        lemma_trim_start_space(first, shorter);
    }
}

/// White space behind a text is dropped with the white space that the text
/// ends with.
proof fn lemma_trim_end_space(text: Seq<u8>, behind: Seq<u8>)
    requires
        all_space(behind),
    ensures
        trim_end(text + behind) == trim_end(text),
    decreases behind.len(),
{
    let all = text + behind;
    if behind.len() == 0 {
        assert(all =~= text);
    } else {
        lemma_space_ends(behind);
        let w = space_at_end(behind);
        let n = all.len() as int;
        let m = behind.len() as int;
        assert(all[n - 1] == behind[m - 1]);
        if m >= 2 {
            assert(all[n - 2] == behind[m - 2]);
        }
        if m >= 3 {
            assert(all[n - 3] == behind[m - 3]);
        }
        assert(space_at_end(all) == w);
        let shorter = behind.subrange(0, m - w);
        assert(all.subrange(0, n - w) =~= text + shorter);
        lemma_trim_end_space(text, shorter);
    }
}

/// White space around a line does not change what it is read as, where the
/// line itself has five bytes or more: blanks, tabs, line ends, and the
/// white space of more than one byte.
pub proof fn law_padding_ignored(before: Seq<u8>, line: Seq<u8>, behind: Seq<u8>)
    requires
        all_space(before),
        all_space(behind),
        line.len() >= MIN_LINE_LEN,
    ensures
        parse_line(before + line + behind) == parse_line(line),
{
    let padded = before + line + behind;
    assert(padded =~= before + (line + behind));
    lemma_trim_start_space(before, line + behind);
    lemma_trim_start_before_space(line, behind);
    lemma_trim_end_space(trim_start(line), behind);
    assert(trim(padded) == trim(line));
}

/// The command verbs that are known.
pub open spec fn known_verb(cmd: Seq<u8>) -> bool {
    ||| cmd == lit("PING")
    ||| cmd == lit("PONG")
    ||| cmd == lit("CAP")
    ||| cmd == lit("PASS")
    ||| cmd == lit("NICK")
    ||| cmd == lit("JOIN")
    ||| cmd == lit("PART")
    ||| cmd == lit("PRIVMSG")
    ||| cmd == lit("CLEARCHAT")
    ||| cmd == lit("CLEARMSG")
    ||| cmd == lit("HOSTTARGET")
    ||| cmd == lit("NOTICE")
    ||| cmd == lit("RECONNECT")
    ||| cmd == lit("ROOMSTATE")
    ||| cmd == lit("USERNOTICE")
    ||| cmd == lit("USERSTATE")
    ||| cmd == lit("GLOBALUSERSTATE")
}

/// The command verbs whose body must hold ` :`.
pub open spec fn verb_with_text(cmd: Seq<u8>) -> bool {
    ||| cmd == lit("CAP")
    ||| cmd == lit("PRIVMSG")
    ||| cmd == lit("CLEARMSG")
    ||| cmd == lit("HOSTTARGET")
    ||| cmd == lit("NOTICE")
    ||| cmd == lit("USERNOTICE")
}

/// An error is `MalformedCommand` only with the verb of the line, and only
/// for a known verb.
pub proof fn law_malformed_names_verb(cmd: Seq<u8>, body: Seq<u8>, tags: Option<TagList>)
    ensures
        match dispatch(cmd, body, tags) {
            Err(ParseErrorView::MalformedCommand(name)) => name == cmd && known_verb(cmd),
            Err(ParseErrorView::UnknownCommand) => !known_verb(cmd),
            Err(_) => false,
            Ok(_) => known_verb(cmd),
        },
{
}

/// What is read behind the tags is never `TooShort` nor `MalformedTags`.
proof fn lemma_never_too_short(line: Seq<u8>)
    ensures
        line.len() >= MIN_LINE_LEN ==> parse_line(line) != Err::<MessageView, ParseErrorView>(
            ParseErrorView::TooShort,
        ),
{
    if line.len() >= MIN_LINE_LEN {
        let text = trim(line);
        if text.len() > 0 && text[0] == AT {
            match parse_tag_block(text.drop_first()) {
                Ok((tags, used)) => {
                    let rest = text.subrange(used, text.len() as int);
                    let (cmd, body) = split_command(skip_source(rest));
                    law_malformed_names_verb(cmd, body, tags);
                },
                Err(e) => {},
            }
        } else {
            let (cmd, body) = split_command(skip_source(text));
            law_malformed_names_verb(cmd, body, None);
        }
    }
}

/// A line of fewer than five bytes is too short, whatever it holds, and no
/// other line is.
pub proof fn law_too_short(line: Seq<u8>)
    ensures
        parse_line(line) == Err::<MessageView, ParseErrorView>(ParseErrorView::TooShort)
            <==> line.len() < MIN_LINE_LEN,
{
    lemma_never_too_short(line);
}

/// A verb is unknown just where it is none of the known verbs, whatever the
/// body and the tags.
pub proof fn law_unknown_verb(cmd: Seq<u8>, body: Seq<u8>, tags: Option<TagList>)
    ensures
        dispatch(cmd, body, tags) == Err::<MessageView, ParseErrorView>(
            ParseErrorView::UnknownCommand,
        ) <==> !known_verb(cmd),
{
}

/// The body of `PRIVMSG`, and of the other verbs that ask for a text behind
/// ` :`, is malformed where it holds no ` :`; the error names the verb.
pub proof fn law_text_needed(cmd: Seq<u8>, body: Seq<u8>, tags: Option<TagList>)
    requires
        verb_with_text(cmd),
        !contains(body, lit(" :")),
    ensures
        dispatch(cmd, body, tags) == Err::<MessageView, ParseErrorView>(
            ParseErrorView::MalformedCommand(cmd),
        ),
{
    lemma_verbs();
    lemma_end_mark();
    assert forall|i: int| !occurs_at(body, lit(" :-"), i) by {
        if occurs_at(body, lit(" :-"), i) {
            lemma_occurs_bytes(body, lit(" :-"), i);
            lemma_occurs_bytes(body, lit(" :"), i);
            assert(forall|k: int| 0 <= k < 2 ==> lit(" :")[k] == lit(" :-")[k]);
            assert(occurs_at(body, lit(" :"), i));
        }
    }
}

} // verus!
