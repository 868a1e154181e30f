//! The wire grammar, as functions on bytes.
//!
//! A line is `["@" tags " :"] [source " "] command [" " body]`. The functions
//! here say what a line means ([`parse_line`]) and how a message is written
//! ([`unparse_line`]); the executable code in [`crate::message`] is proved
//! against them.

use vstd::prelude::*;
use vstd::string::*;
use crate::number::{decimal, parse_unsigned};
use crate::space::trim;
use crate::tags::{infer, insert_tag, value_text, TagList};
use crate::text::{lemma_find, plain, split_once, without_first_char};

verus! {

/// The least number of bytes that a line can have.
pub const MIN_LINE_LEN: usize = 5;

/// The byte `@`, which begins a tag block.
pub const AT: u8 = 0x40;

/// The byte ` `.
pub const SPACE: u8 = 0x20;

/// What a [`crate::message::Message`] stands for, with text as bytes.
pub enum MessageView {
    Ping,
    Pong,
    CapReq { req: Seq<u8> },
    CapAck { req: Seq<u8> },
    Pass { pass: Seq<u8> },
    Nick { nick: Seq<u8> },
    Join { chan: Seq<u8> },
    Part { chan: Seq<u8> },
    Privmsg { tags: Option<TagList>, chan: Seq<u8>, msg: Seq<u8> },
    Clearchat { tags: Option<TagList>, chan: Seq<u8>, usr: Option<Seq<u8>> },
    Clearmsg { tags: Option<TagList>, chan: Seq<u8>, msg: Seq<u8> },
    HosttargetStart { host: Seq<u8>, chan: Seq<u8>, view: Option<u32> },
    HosttargetEnd { host: Seq<u8>, view: Option<u32> },
    Notice { tags: Option<TagList>, chan: Seq<u8>, msg: Seq<u8> },
    Reconnect,
    Roomstate { tags: Option<TagList>, chan: Seq<u8> },
    Usernotice { tags: Option<TagList>, chan: Seq<u8>, msg: Seq<u8> },
    Userstate { tags: Option<TagList>, chan: Seq<u8> },
    GlobalUserstate { tags: Option<TagList> },
}

/// What a [`crate::message::ParseError`] stands for, with text as bytes.
pub enum ParseErrorView {
    TooShort,
    MalformedTags,
    MalformedCommand(Seq<u8>),
    UnknownCommand,
}

/// What an error says of itself.
pub open spec fn error_text(e: ParseErrorView) -> Seq<u8> {
    match e {
        ParseErrorView::TooShort => lit("Malformed message."),
        ParseErrorView::MalformedTags => lit("Parsing message tags failed."),
        ParseErrorView::MalformedCommand(cmd) => lit("Malformed ") + cmd + lit(" command."),
        ParseErrorView::UnknownCommand => lit("Parsing message command failed."),
    }
}

/// The bytes of a literal.
#[verifier::inline]
pub open spec fn lit(s: &str) -> Seq<u8> {
    s.spec_bytes()
}

/// The bytes of the delimiters of the grammar.
pub proof fn lemma_delimiters()
    ensures
        lit("@") == seq![AT],
        lit(" ") == seq![SPACE],
        lit("=") == seq![0x3du8],
        lit(";") == seq![0x3bu8],
        lit(" :") == seq![SPACE, 0x3au8],
        lit(" :-") == seq![SPACE, 0x3au8, 0x2du8],
        lit("tmi.twitch.tv ").len() == 14,
        plain(lit("tmi.twitch.tv ")),
        lit("tmi.twitch.tv ")[0] == 0x74,
        lit("tmi.twitch.tv ")[13] == SPACE,
{
    reveal_strlit("@");
    reveal_strlit(" ");
    reveal_strlit("=");
    reveal_strlit(";");
    reveal_strlit(" :");
    reveal_strlit(" :-");
    reveal_strlit("tmi.twitch.tv ");
    assert(is_ascii("@") && is_ascii(" ") && is_ascii("=") && is_ascii(";"));
    assert(is_ascii(" :") && is_ascii(" :-") && is_ascii("tmi.twitch.tv "));
    is_ascii_spec_bytes("@");
    is_ascii_spec_bytes(" ");
    is_ascii_spec_bytes("=");
    is_ascii_spec_bytes(";");
    is_ascii_spec_bytes(" :");
    is_ascii_spec_bytes(" :-");
    is_ascii_spec_bytes("tmi.twitch.tv ");
    assert(lit("@") =~= seq![AT]);
    assert(lit(" ") =~= seq![SPACE]);
    assert(lit("=") =~= seq![0x3du8]);
    assert(lit(";") =~= seq![0x3bu8]);
    assert(lit(" :") =~= seq![SPACE, 0x3au8]);
    assert(lit(" :-") =~= seq![SPACE, 0x3au8, 0x2du8]);
}

// ---------------------------------------------------------------------------
// Reading
// ---------------------------------------------------------------------------

/// `tags` after the token `key=value` has been read: the key is what stands
/// before the first `=`, the value is inferred from what stands behind it.
/// `None` where the token holds no `=`.
pub open spec fn parse_entry(tags: TagList, token: Seq<u8>) -> Option<TagList> {
    match split_once(token, lit("=")) {
        Some((key, value)) => Some(insert_tag(tags, key, infer(value))),
        None => None,
    }
}

/// `tags` after the tokens of `block`, which `;` separates, have been read
/// from left to right. `None` where one of them holds no `=`.
pub open spec fn parse_entries(tags: TagList, block: Seq<u8>) -> Option<TagList>
    decreases block.len(),
    via parse_entries_decreases
{
    match split_once(block, lit(";")) {
        Some((token, rest)) => match parse_entry(tags, token) {
            Some(next) => parse_entries(next, rest),
            None => None,
        },
        None => parse_entry(tags, block),
    }
}

#[via_fn]
proof fn parse_entries_decreases(tags: TagList, block: Seq<u8>) {
    lemma_find(block, lit(";"));
    lemma_delimiters();
}

/// The tags of a line and the number of bytes of the line that they take,
/// from the text behind the `@`. The block ends before the first ` :`; the
/// bytes taken are the `@`, the block and the ` :`. An empty block gives no
/// tags. `MalformedTags` where there is no ` :` or a token holds no `=`.
pub open spec fn parse_tag_block(text: Seq<u8>) -> Result<(Option<TagList>, int), ParseErrorView> {
    match split_once(text, lit(" :")) {
        Some((block, _)) => if block.len() == 0 {
            Ok((None, 3))
        } else {
            match parse_entries(TagList::empty(), block) {
                Some(tags) => Ok((Some(tags), block.len() as int + 3)),
                None => Err(ParseErrorView::MalformedTags),
            }
        },
        None => Err(ParseErrorView::MalformedTags),
    }
}

/// The line behind its source: what follows the first `tmi.twitch.tv `, or
/// the whole text where that marker is absent.
pub open spec fn skip_source(text: Seq<u8>) -> Seq<u8> {
    match split_once(text, lit("tmi.twitch.tv ")) {
        Some((_, rest)) => rest,
        None => text,
    }
}

/// The command verb and the body: what stands before and behind the first
/// space. Without a space the body is empty.
pub open spec fn split_command(text: Seq<u8>) -> (Seq<u8>, Seq<u8>) {
    match split_once(text, lit(" ")) {
        Some(parts) => parts,
        None => (text, Seq::empty()),
    }
}

/// The channel in `#channel`: the text behind the first character. `None`
/// where the text is empty.
pub open spec fn channel_of(part: Seq<u8>) -> Option<Seq<u8>> {
    if part.len() == 0 {
        None
    } else {
        Some(without_first_char(part))
    }
}

/// The channel and the text in `#channel :text`.
pub open spec fn channel_and_text(body: Seq<u8>) -> Option<(Seq<u8>, Seq<u8>)> {
    match split_once(body, lit(" :")) {
        Some((part, text)) => match channel_of(part) {
            Some(chan) => Some((chan, text)),
            None => None,
        },
        None => None,
    }
}

/// A number of viewers: a decimal number of 32 bits.
pub open spec fn viewers(text: Seq<u8>) -> Option<u32> {
    match parse_unsigned(text, 10, u32::MAX as nat) {
        Some(n) => Some(n as u32),
        None => None,
    }
}

/// The body of `CAP`: `REQ :capability` or `* ACK :capability`.
pub open spec fn parse_cap(body: Seq<u8>) -> Option<MessageView> {
    match split_once(body, lit(" :")) {
        Some((kind, req)) => if kind == lit("REQ") {
            Some(MessageView::CapReq { req })
        } else if kind == lit("* ACK") {
            Some(MessageView::CapAck { req })
        } else {
            None
        },
        None => None,
    }
}

/// The body of `CLEARCHAT`: `#channel`, or `#channel :user`.
pub open spec fn parse_clearchat(body: Seq<u8>, tags: Option<TagList>) -> Option<MessageView> {
    match split_once(body, lit(" :")) {
        Some((part, user)) => match channel_of(part) {
            Some(chan) => Some(MessageView::Clearchat { tags, chan, usr: Some(user) }),
            None => None,
        },
        None => match channel_of(body) {
            Some(chan) => Some(MessageView::Clearchat { tags, chan, usr: None }),
            None => None,
        },
    }
}

/// The end of a host, from what stands behind ` :-`: nothing, or a space and
/// a number of viewers.
pub open spec fn parse_host_end(host: Seq<u8>, tail: Seq<u8>) -> Option<MessageView> {
    if tail.len() == 0 {
        Some(MessageView::HosttargetEnd { host, view: None })
    } else if tail[0] == SPACE {
        match viewers(tail.drop_first()) {
            Some(n) => Some(MessageView::HosttargetEnd { host, view: Some(n) }),
            None => None,
        }
    } else {
        None
    }
}

/// The start of a host, from what stands behind ` :`: the channel, or the
/// channel, a space and a number of viewers.
pub open spec fn parse_host_start(host: Seq<u8>, target: Seq<u8>) -> Option<MessageView> {
    match split_once(target, lit(" ")) {
        Some((chan, count)) => match viewers(count) {
            Some(n) => Some(MessageView::HosttargetStart { host, chan, view: Some(n) }),
            None => None,
        },
        None => Some(MessageView::HosttargetStart { host, chan: target, view: None }),
    }
}

/// The body of `HOSTTARGET`. With ` :-` in it, it ends a host:
/// `#host :-` or `#host :- viewers`. Otherwise it starts one:
/// `#host :channel` or `#host :channel viewers`.
pub open spec fn parse_hosttarget(body: Seq<u8>) -> Option<MessageView> {
    match split_once(body, lit(" :-")) {
        Some((part, tail)) => match channel_of(part) {
            Some(host) => parse_host_end(host, tail),
            None => None,
        },
        None => match channel_and_text(body) {
            Some((host, target)) => parse_host_start(host, target),
            None => None,
        },
    }
}

/// The message of a command verb, its body and the tags of the line.
/// `MalformedCommand` with the verb where the body has not the shape that
/// the verb asks for, `UnknownCommand` where the verb is not known.
pub open spec fn dispatch(cmd: Seq<u8>, body: Seq<u8>, tags: Option<TagList>) -> Result<
    MessageView,
    ParseErrorView,
> {
    let malformed = Err(ParseErrorView::MalformedCommand(cmd));
    if cmd == lit("PING") {
        Ok(MessageView::Ping)
    } else if cmd == lit("PONG") {
        Ok(MessageView::Pong)
    } else if cmd == lit("CAP") {
        match parse_cap(body) {
            Some(m) => Ok(m),
            None => malformed,
        }
    } else if cmd == lit("PASS") {
        Ok(MessageView::Pass { pass: body })
    } else if cmd == lit("NICK") {
        Ok(MessageView::Nick { nick: body })
    } else if cmd == lit("JOIN") {
        match channel_of(body) {
            Some(chan) => Ok(MessageView::Join { chan }),
            None => malformed,
        }
    } else if cmd == lit("PART") {
        match channel_of(body) {
            Some(chan) => Ok(MessageView::Part { chan }),
            None => malformed,
        }
    } else if cmd == lit("PRIVMSG") {
        match channel_and_text(body) {
            Some((chan, msg)) => Ok(MessageView::Privmsg { tags, chan, msg }),
            None => malformed,
        }
    } else if cmd == lit("CLEARCHAT") {
        match parse_clearchat(body, tags) {
            Some(m) => Ok(m),
            None => malformed,
        }
    } else if cmd == lit("CLEARMSG") {
        match channel_and_text(body) {
            Some((chan, msg)) => Ok(MessageView::Clearmsg { tags, chan, msg }),
            None => malformed,
        }
    } else if cmd == lit("HOSTTARGET") {
        match parse_hosttarget(body) {
            Some(m) => Ok(m),
            None => malformed,
        }
    } else if cmd == lit("NOTICE") {
        match channel_and_text(body) {
            Some((chan, msg)) => Ok(MessageView::Notice { tags, chan, msg }),
            None => malformed,
        }
    } else if cmd == lit("RECONNECT") {
        Ok(MessageView::Reconnect)
    } else if cmd == lit("ROOMSTATE") {
        match channel_of(body) {
            Some(chan) => Ok(MessageView::Roomstate { tags, chan }),
            None => malformed,
        }
    } else if cmd == lit("USERNOTICE") {
        match channel_and_text(body) {
            Some((chan, msg)) => Ok(MessageView::Usernotice { tags, chan, msg }),
            None => malformed,
        }
    } else if cmd == lit("USERSTATE") {
        match channel_of(body) {
            Some(chan) => Ok(MessageView::Userstate { tags, chan }),
            None => malformed,
        }
    } else if cmd == lit("GLOBALUSERSTATE") {
        Ok(MessageView::GlobalUserstate { tags })
    } else {
        Err(ParseErrorView::UnknownCommand)
    }
}

/// The message of a line behind its tags: the source is skipped, the rest
/// is split into verb and body.
pub open spec fn parse_untagged(text: Seq<u8>, tags: Option<TagList>) -> Result<
    MessageView,
    ParseErrorView,
> {
    let (cmd, body) = split_command(skip_source(text));
    dispatch(cmd, body, tags)
}

/// The message of a line. `TooShort` where the line has fewer than
/// [`MIN_LINE_LEN`] bytes; otherwise white space at its ends is dropped, a
/// tag block is read where the line begins with `@`, and the rest is read as
/// a command.
pub open spec fn parse_line(line: Seq<u8>) -> Result<MessageView, ParseErrorView> {
    if line.len() < MIN_LINE_LEN {
        Err(ParseErrorView::TooShort)
    } else {
        let text = trim(line);
        if text.len() > 0 && text[0] == AT {
            match parse_tag_block(text.drop_first()) {
                Ok((tags, used)) => parse_untagged(text.subrange(used, text.len() as int), tags),
                Err(e) => Err(e),
            }
        } else {
            parse_untagged(text, None)
        }
    }
}

// ---------------------------------------------------------------------------
// Writing
// ---------------------------------------------------------------------------

/// One tag as `key=value`.
pub open spec fn tag_text(key: Seq<u8>, value: Seq<u8>) -> Seq<u8> {
    key + lit("=") + value
}

/// The tags as `key=value;key=value`, in the order of the list.
pub open spec fn tags_text(tags: TagList) -> Seq<u8>
    decreases tags.len(),
{
    if tags.len() == 0 {
        Seq::empty()
    } else if tags.len() == 1 {
        tag_text(tags[0].0, value_text(tags[0].1))
    } else {
        tags_text(tags.drop_last()) + lit(";") + tag_text(
            tags.last().0,
            value_text(tags.last().1),
        )
    }
}

/// What the tags put before the rest of a line: `@`, the tags and a space.
/// Nothing where there are no tags, or none in the list.
pub open spec fn tags_prefix(tags: Option<TagList>) -> Option<Seq<u8>> {
    match tags {
        Some(list) => if list.len() > 0 {
            Some(lit("@") + tags_text(list) + lit(" "))
        } else {
            None
        },
        None => None,
    }
}

/// `rest` behind the tags.
pub open spec fn with_tags(tags: Option<TagList>, rest: Seq<u8>) -> Seq<u8> {
    match tags_prefix(tags) {
        Some(prefix) => prefix + rest,
        None => rest,
    }
}

/// `rest`, and a space and the number of viewers where there is one.
pub open spec fn with_viewers(rest: Seq<u8>, view: Option<u32>) -> Seq<u8> {
    match view {
        Some(n) => rest + lit(" ") + decimal(n as nat),
        None => rest,
    }
}

/// A command with its body: `verb body`.
pub open spec fn command(verb: Seq<u8>, body: Seq<u8>) -> Seq<u8> {
    verb + lit(" ") + body
}

/// A line that names the server as its source: `:tmi.twitch.tv rest`.
pub open spec fn from_server(rest: Seq<u8>) -> Seq<u8> {
    lit(":") + lit("tmi.twitch.tv ") + rest
}

/// A channel: `#channel`.
pub open spec fn channel(chan: Seq<u8>) -> Seq<u8> {
    lit("#") + chan
}

/// A channel and a text: `#channel :text`.
pub open spec fn channel_text(chan: Seq<u8>, text: Seq<u8>) -> Seq<u8> {
    lit("#") + chan + lit(" :") + text
}

/// The line that a message is written as.
///
/// A command of the client is written as `verb body`. A message of the
/// server names `tmi.twitch.tv` as its source, and so does a `PRIVMSG` that
/// carries tags: a tag block ends with ` :`, which begins a source.
pub open spec fn unparse_line(m: MessageView) -> Seq<u8> {
    match m {
        MessageView::Ping => command(lit("PING"), lit("tmi.twitch.tv")),
        MessageView::Pong => command(lit("PONG"), lit("tmi.twitch.tv")),
        MessageView::CapReq { req } => command(lit("CAP"), lit("REQ") + lit(" :") + req),
        MessageView::CapAck { req } => from_server(
            command(lit("CAP"), lit("* ACK") + lit(" :") + req),
        ),
        MessageView::Pass { pass } => command(lit("PASS"), pass),
        MessageView::Nick { nick } => command(lit("NICK"), nick),
        MessageView::Join { chan } => command(lit("JOIN"), channel(chan)),
        MessageView::Part { chan } => command(lit("PART"), channel(chan)),
        MessageView::Privmsg { tags, chan, msg } => match tags_prefix(tags) {
            Some(prefix) => prefix + from_server(command(lit("PRIVMSG"), channel_text(chan, msg))),
            None => command(lit("PRIVMSG"), channel_text(chan, msg)),
        },
        MessageView::Clearchat { tags, chan, usr } => match usr {
            Some(user) => with_tags(
                tags,
                from_server(command(lit("CLEARCHAT"), channel_text(chan, user))),
            ),
            None => with_tags(tags, from_server(command(lit("CLEARCHAT"), channel(chan)))),
        },
        MessageView::Clearmsg { tags, chan, msg } => with_tags(
            tags,
            from_server(command(lit("CLEARMSG"), channel_text(chan, msg))),
        ),
        MessageView::HosttargetStart { host, chan, view } => from_server(
            command(lit("HOSTTARGET"), with_viewers(channel_text(host, chan), view)),
        ),
        MessageView::HosttargetEnd { host, view } => from_server(
            command(lit("HOSTTARGET"), with_viewers(channel_text(host, lit("-")), view)),
        ),
        MessageView::Notice { tags, chan, msg } => with_tags(
            tags,
            from_server(command(lit("NOTICE"), channel_text(chan, msg))),
        ),
        MessageView::Reconnect => lit("RECONNECT"),
        MessageView::Roomstate { tags, chan } => with_tags(
            tags,
            from_server(command(lit("ROOMSTATE"), channel(chan))),
        ),
        MessageView::Usernotice { tags, chan, msg } => with_tags(
            tags,
            from_server(command(lit("USERNOTICE"), channel_text(chan, msg))),
        ),
        MessageView::Userstate { tags, chan } => with_tags(
            tags,
            from_server(command(lit("USERSTATE"), channel(chan))),
        ),
        MessageView::GlobalUserstate { tags } => with_tags(
            tags,
            from_server(lit("GLOBALUSERSTATE")),
        ),
    }
}

} // verus!
