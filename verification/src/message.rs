//! Messages, and the reading and writing of lines.

use vstd::prelude::*;
use vstd::slice::slice_subrange;
use vstd::string::*;
use vstd::utf8::*;
use crate::number::{push_decimal, read_unsigned};
use crate::space::trim_text;
use crate::tags::{value_text, TagList, TagValue, Tags};
use crate::text::{
    cut_from, drop_first_char, lemma_boundary_around_ascii, lemma_find, lemma_text_valid,
    push_text, same_text, split_text,
};
use crate::wire::{
    channel_and_text, channel_of, dispatch, lemma_delimiters, lit, parse_cap, parse_clearchat,
    parse_entries, parse_entry, parse_host_end, parse_host_start, parse_hosttarget, parse_line,
    parse_tag_block, parse_untagged, skip_source, tag_text, tags_prefix, tags_text, unparse_line,
    viewers, with_tags, with_viewers, MessageView, ParseErrorView, AT, MIN_LINE_LEN, SPACE,
};
use crate::wire::{channel, channel_text, command, error_text, from_server};

verus! {

/// A message of the chat protocol.
///
/// Every text field is a part of the line that the message was read from.
/// Tags are optional on every message that can carry them: whether a command
/// has the tags it should have is for the caller to decide.
#[derive(Debug, PartialEq)]
pub enum Message<'a> {
    /// A ping request: `PING :<endpoint>`.
    Ping,
    /// A pong response: `PONG :<endpoint>`.
    Pong,
    /// A capability request: `CAP REQ :<capability>`.
    CapReq { req: &'a str },
    /// A capability acknowledgement: `:<endpoint> CAP * ACK :<capability>`.
    CapAck { req: &'a str },
    /// A password: `PASS <password>`.
    Pass { pass: &'a str },
    /// A nickname: `NICK <user>`.
    Nick { nick: &'a str },
    /// Joining a channel: `JOIN #<channel>`.
    Join { chan: &'a str },
    /// Leaving a channel: `PART #<channel>`.
    Part { chan: &'a str },
    /// A chat message: `[@<tags>] PRIVMSG #<channel> :<message>`.
    Privmsg { tags: Option<Tags<'a>>, chan: &'a str, msg: &'a str },
    /// A chat cleared, wholly or of one user:
    /// `[@<tags>] :<endpoint> CLEARCHAT #<channel> [:<user>]`.
    Clearchat { tags: Option<Tags<'a>>, chan: &'a str, usr: Option<&'a str> },
    /// One message removed: `[@<tags>] :<endpoint> CLEARMSG #<channel> :<message>`.
    Clearmsg { tags: Option<Tags<'a>>, chan: &'a str, msg: &'a str },
    /// A host started: `:<endpoint> HOSTTARGET #<host> :<channel> [<viewers>]`.
    HosttargetStart { host: &'a str, chan: &'a str, view: Option<u32> },
    /// A host ended: `:<endpoint> HOSTTARGET #<host> :- [<viewers>]`.
    HosttargetEnd { host: &'a str, view: Option<u32> },
    /// A notice: `[@<tags>] :<endpoint> NOTICE #<channel> :<message>`.
    Notice { tags: Option<Tags<'a>>, chan: &'a str, msg: &'a str },
    /// A request to connect again: `RECONNECT`.
    Reconnect,
    /// The state of a room: `[@<tags>] :<endpoint> ROOMSTATE #<channel>`.
    Roomstate { tags: Option<Tags<'a>>, chan: &'a str },
    /// A notice about a user: `[@<tags>] :<endpoint> USERNOTICE #<channel> :<message>`.
    Usernotice { tags: Option<Tags<'a>>, chan: &'a str, msg: &'a str },
    /// The state of a user in a room: `[@<tags>] :<endpoint> USERSTATE #<channel>`.
    Userstate { tags: Option<Tags<'a>>, chan: &'a str },
    /// The state of a user everywhere: `[@<tags>] :<endpoint> GLOBALUSERSTATE`.
    GlobalUserstate { tags: Option<Tags<'a>> },
}

/// Why a line could not be read.
#[derive(Debug, Clone, Copy, PartialEq)]
pub enum ParseError<'a> {
    /// The line has fewer bytes than any message has.
    TooShort,
    /// The tag block has no ` :` behind it, or one of its tags has no `=`.
    MalformedTags,
    /// The body has not the shape that this command verb asks for.
    MalformedCommand(&'a str),
    /// The command verb is not known.
    UnknownCommand,
}

/// The tags as plain values.
pub open spec fn tags_view(tags: Option<Tags>) -> Option<TagList> {
    match tags {
        Some(t) => Some(t@),
        None => None,
    }
}

/// The text as bytes.
pub open spec fn text_view(text: Option<&str>) -> Option<Seq<u8>> {
    match text {
        Some(t) => Some(t.spec_bytes()),
        None => None,
    }
}

impl<'a> View for Message<'a> {
    type V = MessageView;

    open spec fn view(&self) -> MessageView {
        match *self {
            Message::Ping => MessageView::Ping,
            Message::Pong => MessageView::Pong,
            Message::CapReq { req } => MessageView::CapReq { req: req.spec_bytes() },
            Message::CapAck { req } => MessageView::CapAck { req: req.spec_bytes() },
            Message::Pass { pass } => MessageView::Pass { pass: pass.spec_bytes() },
            Message::Nick { nick } => MessageView::Nick { nick: nick.spec_bytes() },
            Message::Join { chan } => MessageView::Join { chan: chan.spec_bytes() },
            Message::Part { chan } => MessageView::Part { chan: chan.spec_bytes() },
            Message::Privmsg { tags, chan, msg } => MessageView::Privmsg {
                tags: tags_view(tags),
                chan: chan.spec_bytes(),
                msg: msg.spec_bytes(),
            },
            Message::Clearchat { tags, chan, usr } => MessageView::Clearchat {
                tags: tags_view(tags),
                chan: chan.spec_bytes(),
                usr: text_view(usr),
            },
            Message::Clearmsg { tags, chan, msg } => MessageView::Clearmsg {
                tags: tags_view(tags),
                chan: chan.spec_bytes(),
                msg: msg.spec_bytes(),
            },
            Message::HosttargetStart { host, chan, view } => MessageView::HosttargetStart {
                host: host.spec_bytes(),
                chan: chan.spec_bytes(),
                view,
            },
            Message::HosttargetEnd { host, view } => MessageView::HosttargetEnd {
                host: host.spec_bytes(),
                view,
            },
            Message::Notice { tags, chan, msg } => MessageView::Notice {
                tags: tags_view(tags),
                chan: chan.spec_bytes(),
                msg: msg.spec_bytes(),
            },
            Message::Reconnect => MessageView::Reconnect,
            Message::Roomstate { tags, chan } => MessageView::Roomstate {
                tags: tags_view(tags),
                chan: chan.spec_bytes(),
            },
            Message::Usernotice { tags, chan, msg } => MessageView::Usernotice {
                tags: tags_view(tags),
                chan: chan.spec_bytes(),
                msg: msg.spec_bytes(),
            },
            Message::Userstate { tags, chan } => MessageView::Userstate {
                tags: tags_view(tags),
                chan: chan.spec_bytes(),
            },
            Message::GlobalUserstate { tags } => MessageView::GlobalUserstate {
                tags: tags_view(tags),
            },
        }
    }
}

impl<'a> View for ParseError<'a> {
    type V = ParseErrorView;

    open spec fn view(&self) -> ParseErrorView {
        match *self {
            ParseError::TooShort => ParseErrorView::TooShort,
            ParseError::MalformedTags => ParseErrorView::MalformedTags,
            ParseError::MalformedCommand(cmd) => ParseErrorView::MalformedCommand(cmd.spec_bytes()),
            ParseError::UnknownCommand => ParseErrorView::UnknownCommand,
        }
    }
}

impl<'a> ParseError<'a> {
    /// What the error says of itself, for a reader.
    pub fn to_string(&self) -> (r: String)
        ensures
            encode_utf8(r@) == error_text(self@),
    {
        let mut out = String::new();
        match self {
            ParseError::TooShort => push_text(&mut out, "Malformed message."),
            ParseError::MalformedTags => push_text(&mut out, "Parsing message tags failed."),
            ParseError::MalformedCommand(cmd) => {
                push_text(&mut out, "Malformed ");
                push_text(&mut out, cmd);
                push_text(&mut out, " command.");
            },
            ParseError::UnknownCommand => push_text(&mut out, "Parsing message command failed."),
        }
        assert(encode_utf8(out@) =~= error_text(self@));
        out
    }
}

/// The result of reading a line, as plain values.
pub open spec fn outcome(r: Result<Message, ParseError>) -> Result<MessageView, ParseErrorView> {
    match r {
        Ok(m) => Ok(m@),
        Err(e) => Err(e@),
    }
}

/// A message that may be missing, as plain values.
pub open spec fn message_view(m: Option<Message>) -> Option<MessageView> {
    match m {
        Some(m) => Some(m@),
        None => None,
    }
}

/// The channel in `#channel`.
fn read_channel<'a>(part: &'a str) -> (r: Option<&'a str>)
    ensures
        text_view(r) == channel_of(part.spec_bytes()),
{
    drop_first_char(part)
}

/// The channel and the text in `#channel :text`.
fn read_channel_and_text<'a>(body: &'a str) -> (r: Option<(&'a str, &'a str)>)
    ensures
        match r {
            Some((chan, text)) => channel_and_text(body.spec_bytes()) == Some(
                (chan.spec_bytes(), text.spec_bytes()),
            ),
            None => channel_and_text(body.spec_bytes()) is None,
        },
{
    proof {
        lemma_delimiters();
    }
    match split_text(body, " :") {
        Some((part, text)) => match read_channel(part) {
            Some(chan) => Some((chan, text)),
            None => None,
        },
        None => None,
    }
}

/// A number of viewers.
fn read_viewers(text: &str) -> (r: Option<u32>)
    ensures
        r == viewers(text.spec_bytes()),
{
    match read_unsigned(text.as_bytes(), 10, 0xffff_ffff) {
        Some(n) => Some(n as u32),
        None => None,
    }
}

/// The body of `CAP`.
fn read_cap<'a>(body: &'a str) -> (r: Option<Message<'a>>)
    ensures
        message_view(r) == parse_cap(body.spec_bytes()),
{
    proof {
        lemma_delimiters();
    }
    match split_text(body, " :") {
        Some((kind, req)) => {
            if same_text(kind, "REQ") {
                Some(Message::CapReq { req })
            } else if same_text(kind, "* ACK") {
                Some(Message::CapAck { req })
            } else {
                None
            }
        },
        None => None,
    }
}

/// The body of `CLEARCHAT`.
fn read_clearchat<'a>(body: &'a str, tags: Option<Tags<'a>>) -> (r: Option<Message<'a>>)
    ensures
        message_view(r) == parse_clearchat(body.spec_bytes(), tags_view(tags)),
{
    proof {
        lemma_delimiters();
    }
    match split_text(body, " :") {
        Some((part, user)) => match read_channel(part) {
            Some(chan) => Some(Message::Clearchat { tags, chan, usr: Some(user) }),
            None => None,
        },
        None => match read_channel(body) {
            Some(chan) => Some(Message::Clearchat { tags, chan, usr: None }),
            None => None,
        },
    }
}

/// The end of a host, from what stands behind ` :-`.
fn read_host_end<'a>(host: &'a str, tail: &'a str) -> (r: Option<Message<'a>>)
    ensures
        message_view(r) == parse_host_end(host.spec_bytes(), tail.spec_bytes()),
{
    let bytes = tail.as_bytes();
    if bytes.len() == 0 {
        Some(Message::HosttargetEnd { host, view: None })
    } else if bytes[0] == SPACE {
        let count = slice_subrange(bytes, 1, bytes.len());
        assert(count@ =~= tail.spec_bytes().drop_first());
        match read_unsigned(count, 10, 0xffff_ffff) {
            Some(n) => Some(Message::HosttargetEnd { host, view: Some(n as u32) }),
            None => None,
        }
    } else {
        None
    }
}

/// The start of a host, from what stands behind ` :`.
fn read_host_start<'a>(host: &'a str, target: &'a str) -> (r: Option<Message<'a>>)
    ensures
        message_view(r) == parse_host_start(host.spec_bytes(), target.spec_bytes()),
{
    proof {
        lemma_delimiters();
    }
    match split_text(target, " ") {
        Some((chan, count)) => match read_viewers(count) {
            Some(n) => Some(Message::HosttargetStart { host, chan, view: Some(n) }),
            None => None,
        },
        None => Some(Message::HosttargetStart { host, chan: target, view: None }),
    }
}

/// The body of `HOSTTARGET`.
fn read_hosttarget<'a>(body: &'a str) -> (r: Option<Message<'a>>)
    ensures
        message_view(r) == parse_hosttarget(body.spec_bytes()),
{
    proof {
        lemma_delimiters();
    }
    match split_text(body, " :-") {
        Some((part, tail)) => match read_channel(part) {
            Some(host) => read_host_end(host, tail),
            None => None,
        },
        None => match read_channel_and_text(body) {
            Some((host, target)) => read_host_start(host, target),
            None => None,
        },
    }
}

impl<'a> Message<'a> {
    /// The message of a command verb, its body and the tags of the line.
    ///
    /// `PING`, `PONG` and `RECONNECT` do not look at the body, and they and
    /// the commands of a client drop the tags. A body that has not the shape
    /// that the verb asks for gives `MalformedCommand` with the verb, a verb
    /// that is not known gives `UnknownCommand`.
    pub fn parse_command(cmd: &'a str, body: &'a str, tags: Option<Tags<'a>>) -> (r: Result<
        Message<'a>,
        ParseError<'a>,
    >)
        ensures
            outcome(r) == dispatch(cmd.spec_bytes(), body.spec_bytes(), tags_view(tags)),
    {
        let found = if same_text(cmd, "PING") {
            Some(Message::Ping)
        } else if same_text(cmd, "PONG") {
            Some(Message::Pong)
        } else if same_text(cmd, "CAP") {
            read_cap(body)
        } else if same_text(cmd, "PASS") {
            Some(Message::Pass { pass: body })
        } else if same_text(cmd, "NICK") {
            Some(Message::Nick { nick: body })
        } else if same_text(cmd, "JOIN") {
            match read_channel(body) {
                Some(chan) => Some(Message::Join { chan }),
                None => None,
            }
        } else if same_text(cmd, "PART") {
            match read_channel(body) {
                Some(chan) => Some(Message::Part { chan }),
                None => None,
            }
        } else if same_text(cmd, "PRIVMSG") {
            match read_channel_and_text(body) {
                Some((chan, msg)) => Some(Message::Privmsg { tags, chan, msg }),
                None => None,
            }
        } else if same_text(cmd, "CLEARCHAT") {
            read_clearchat(body, tags)
        } else if same_text(cmd, "CLEARMSG") {
            match read_channel_and_text(body) {
                Some((chan, msg)) => Some(Message::Clearmsg { tags, chan, msg }),
                None => None,
            }
        } else if same_text(cmd, "HOSTTARGET") {
            read_hosttarget(body)
        } else if same_text(cmd, "NOTICE") {
            match read_channel_and_text(body) {
                Some((chan, msg)) => Some(Message::Notice { tags, chan, msg }),
                None => None,
            }
        } else if same_text(cmd, "RECONNECT") {
            Some(Message::Reconnect)
        } else if same_text(cmd, "ROOMSTATE") {
            match read_channel(body) {
                Some(chan) => Some(Message::Roomstate { tags, chan }),
                None => None,
            }
        } else if same_text(cmd, "USERNOTICE") {
            match read_channel_and_text(body) {
                Some((chan, msg)) => Some(Message::Usernotice { tags, chan, msg }),
                None => None,
            }
        } else if same_text(cmd, "USERSTATE") {
            match read_channel(body) {
                Some(chan) => Some(Message::Userstate { tags, chan }),
                None => None,
            }
        } else if same_text(cmd, "GLOBALUSERSTATE") {
            Some(Message::GlobalUserstate { tags })
        } else {
            return Err(ParseError::UnknownCommand);
        };
        match found {
            Some(m) => Ok(m),
            None => Err(ParseError::MalformedCommand(cmd)),
        }
    }
}

/// One token `key=value` of a tag block, put into `tags`. Returns whether
/// the token held a `=`; without one `tags` stays as it was.
fn read_entry<'a>(tags: &mut Tags<'a>, token: &'a str) -> (r: bool)
    ensures
        match parse_entry(old(tags)@, token.spec_bytes()) {
            Some(next) => r && final(tags)@ == next,
            None => !r && final(tags)@ == old(tags)@,
        },
{
    proof {
        lemma_delimiters();
    }
    match split_text(token, "=") {
        Some((key, value)) => {
            tags.insert(key, TagValue::new(value));
            true
        },
        None => false,
    }
}

/// The tokens of a tag block, put into a mapping from left to right.
fn read_entries<'a>(block: &'a str) -> (r: Option<Tags<'a>>)
    ensures
        tags_view(r) == parse_entries(TagList::empty(), block.spec_bytes()),
{
    let mut tags = Tags::new();
    let mut rest = block;
    loop
        invariant
            parse_entries(tags@, rest.spec_bytes()) == parse_entries(
                TagList::empty(),
                block.spec_bytes(),
            ),
        decreases rest.spec_bytes().len(),
    {
        proof {
            lemma_delimiters();
            lemma_find(rest.spec_bytes(), lit(";"));
        }
        match split_text(rest, ";") {
            Some((token, more)) => {
                if !read_entry(&mut tags, token) {
                    return None;
                }
                rest = more;
            },
            None => {
                if !read_entry(&mut tags, rest) {
                    return None;
                }
                return Some(tags);
            },
        }
    }
}

/// The line behind its source.
fn read_past_source<'a>(text: &'a str) -> (r: &'a str)
    ensures
        r.spec_bytes() == skip_source(text.spec_bytes()),
{
    proof {
        lemma_delimiters();
    }
    match split_text(text, "tmi.twitch.tv ") {
        Some((_, rest)) => rest,
        None => text,
    }
}

/// The message of a line behind its tags.
fn read_untagged<'a>(text: &'a str, tags: Option<Tags<'a>>) -> (r: Result<
    Message<'a>,
    ParseError<'a>,
>)
    ensures
        outcome(r) == parse_untagged(text.spec_bytes(), tags_view(tags)),
{
    proof {
        lemma_delimiters();
    }
    let rest = read_past_source(text);
    match split_text(rest, " ") {
        Some((cmd, body)) => Message::parse_command(cmd, body, tags),
        None => {
            let len = rest.as_bytes().len();
            proof {
                lemma_text_valid(rest);
                is_char_boundary_start_end_of_seq(rest.spec_bytes());
            }
            let body = cut_from(rest, len);
            assert(body.spec_bytes() =~= Seq::<u8>::empty());
            Message::parse_command(rest, body, tags)
        },
    }
}

impl<'a> Message<'a> {
    /// Reads the tag block of a line from the text behind its `@`. Returns
    /// the tags and the number of bytes of the line that the block takes: the
    /// `@`, the tags and the ` :` behind them.
    ///
    /// An empty block gives no tags. A block without ` :` behind it, or with
    /// a tag that holds no `=`, gives `MalformedTags`.
    pub fn parse_tags(msg: &'a str) -> (r: Result<(Option<Tags<'a>>, usize), ParseError<'a>>)
        requires
            msg.spec_bytes().len() < usize::MAX,
        ensures
            match r {
                Ok((tags, used)) => parse_tag_block(msg.spec_bytes()) == Ok::<_, ParseErrorView>(
                    (tags_view(tags), used as int),
                ),
                Err(e) => parse_tag_block(msg.spec_bytes()) == Err::<(Option<TagList>, int), _>(
                    e@,
                ),
            },
    {
        proof {
            lemma_delimiters();
            lemma_find(msg.spec_bytes(), lit(" :"));
        }
        match split_text(msg, " :") {
            Some((block, _)) => {
                let len = block.as_bytes().len();
                if len == 0 {
                    Ok((None, 3))
                } else {
                    match read_entries(block) {
                        Some(tags) => Ok((Some(tags), len + 3)),
                        None => Err(ParseError::MalformedTags),
                    }
                }
            },
            None => Err(ParseError::MalformedTags),
        }
    }

    /// Reads one line, with or without white space and a line end around it.
    ///
    /// The result is what [`parse_line`] gives for the bytes of the line:
    /// the message, or the reason why the line is none.
    pub fn parse(msg: &'a str) -> (r: Result<Message<'a>, ParseError<'a>>)
        ensures
            outcome(r) == parse_line(msg.spec_bytes()),
    {
        if msg.as_bytes().len() < MIN_LINE_LEN {
            return Err(ParseError::TooShort);
        }
        let text = trim_text(msg);
        let bytes = text.as_bytes();
        if bytes.len() > 0 && bytes[0] == AT {
            proof {
                lemma_delimiters();
                lemma_text_valid(text);
                lemma_boundary_around_ascii(text.spec_bytes(), 0);
            }
            let behind = cut_from(text, 1);
            assert(behind.spec_bytes() =~= text.spec_bytes().drop_first());
            match Message::parse_tags(behind) {
                Ok((tags, used)) => {
                    proof {
                        let at = used - 3;
                        lemma_find(behind.spec_bytes(), lit(" :"));
                        assert(behind.spec_bytes().subrange(at, at + 2)[1] == 0x3a);
                        assert(text.spec_bytes()[used - 1] == 0x3a);
                        lemma_boundary_around_ascii(text.spec_bytes(), used - 1);
                    }
                    read_untagged(cut_from(text, used), tags)
                },
                Err(e) => Err(e),
            }
        } else {
            read_untagged(text, None)
        }
    }
}

/// Taking one tag more writes `;` and that tag behind the others.
proof fn lemma_tags_text_step(tags: TagList, i: int)
    requires
        0 <= i < tags.len(),
    ensures
        tags_text(tags.take(i + 1)) == (if i == 0 {
            tag_text(tags[0].0, value_text(tags[0].1))
        } else {
            tags_text(tags.take(i)) + lit(";") + tag_text(tags[i].0, value_text(tags[i].1))
        }),
{
    let longer = tags.take(i + 1);
    assert(longer.last() == tags[i]);
    assert(longer.drop_last() =~= tags.take(i));
    assert(longer[0] == tags[0]);
}

/// Appends `verb body` to `out`.
fn write_command(out: &mut String, verb: &str, body: &str)
    ensures
        encode_utf8(final(out)@) == encode_utf8(old(out)@) + command(
            verb.spec_bytes(),
            body.spec_bytes(),
        ),
{
    push_text(out, verb);
    push_text(out, " ");
    push_text(out, body);
    assert(encode_utf8(out@) =~= encode_utf8(old(out)@) + command(
        verb.spec_bytes(),
        body.spec_bytes(),
    ));
}

/// `#channel`, or `#channel :text` where there is a text.
fn write_channel(chan: &str, text: Option<&str>) -> (r: String)
    ensures
        encode_utf8(r@) == (match text {
            Some(t) => channel_text(chan.spec_bytes(), t.spec_bytes()),
            None => channel(chan.spec_bytes()),
        }),
{
    let mut out = String::new();
    push_text(&mut out, "#");
    push_text(&mut out, chan);
    assert(encode_utf8(out@) =~= channel(chan.spec_bytes()));
    match text {
        Some(t) => {
            push_text(&mut out, " :");
            push_text(&mut out, t);
        },
        None => {},
    }
    out
}

/// A line of the client: `verb body`.
fn write_client(verb: &str, body: &str) -> (r: String)
    ensures
        encode_utf8(r@) == command(verb.spec_bytes(), body.spec_bytes()),
{
    let mut out = String::new();
    write_command(&mut out, verb, body);
    assert(Seq::<u8>::empty() + command(verb.spec_bytes(), body.spec_bytes()) =~= command(
        verb.spec_bytes(),
        body.spec_bytes(),
    ));
    out
}

/// Appends the source, and `verb body` or the verb alone, to what the tags
/// have put before them.
fn write_source(prefix: String, verb: &str, body: Option<&str>) -> (r: String)
    ensures
        encode_utf8(r@) == encode_utf8(prefix@) + from_server(
            match body {
                Some(b) => command(verb.spec_bytes(), b.spec_bytes()),
                None => verb.spec_bytes(),
            },
        ),
{
    let mut out = prefix;
    push_text(&mut out, ":");
    push_text(&mut out, "tmi.twitch.tv ");
    match body {
        Some(b) => {
            write_command(&mut out, verb, b);
            assert(encode_utf8(out@) =~= encode_utf8(prefix@) + from_server(
                command(verb.spec_bytes(), b.spec_bytes()),
            ));
        },
        None => {
            push_text(&mut out, verb);
            assert(encode_utf8(out@) =~= encode_utf8(prefix@) + from_server(verb.spec_bytes()));
        },
    }
    out
}

/// A line of the server: the tags where there are any, the source, and
/// `verb body`, or the verb alone where there is no body.
fn write_server<'a>(tags: &Option<Tags<'a>>, verb: &str, body: Option<&str>) -> (r: String)
    ensures
        encode_utf8(r@) == with_tags(
            tags_view(*tags),
            from_server(
                match body {
                    Some(b) => command(verb.spec_bytes(), b.spec_bytes()),
                    None => verb.spec_bytes(),
                },
            ),
        ),
{
    match Message::unparse_tags(tags) {
        Some(prefix) => write_source(prefix, verb, body),
        None => {
            assert(forall|rest: Seq<u8>| Seq::<u8>::empty() + rest =~= rest);
            write_source(String::new(), verb, body)
        },
    }
}

/// `body`, and a space and the number of viewers where there is one.
fn write_viewers(body: String, view: Option<u32>) -> (r: String)
    ensures
        encode_utf8(r@) == with_viewers(encode_utf8(body@), view),
{
    let mut out = body;
    match view {
        Some(n) => {
            push_text(&mut out, " ");
            push_decimal(&mut out, n as u64);
        },
        None => {},
    }
    out
}

impl<'a> Message<'a> {
    /// What the tags put before the rest of a line: `@`, the tags as
    /// `key=value` with `;` between them, and a space. Nothing where there
    /// are no tags, or none in the mapping.
    pub fn unparse_tags(tags: &Option<Tags<'a>>) -> (r: Option<String>)
        ensures
            match r {
                Some(prefix) => tags_prefix(tags_view(*tags)) == Some(encode_utf8(prefix@)),
                None => tags_prefix(tags_view(*tags)) is None,
            },
    {
        match tags {
            Some(tags) => {
                let len = tags.len();
                if len == 0 {
                    return None;
                }
                let mut out = String::new();
                push_text(&mut out, "@");
                let mut i: usize = 0;
                assert(tags@.take(0) =~= TagList::empty());
                assert(encode_utf8(out@) =~= lit("@") + tags_text(TagList::empty()));
                while i < len
                    invariant
                        i <= len,
                        len == tags@.len(),
                        encode_utf8(out@) == lit("@") + tags_text(tags@.take(i as int)),
                    decreases len - i,
                {
                    if let Some((key, value)) = tags.entry(i) {
                        if i > 0 {
                            push_text(&mut out, ";");
                        }
                        push_text(&mut out, key);
                        push_text(&mut out, "=");
                        value.write_to(&mut out);
                        proof {
                            lemma_tags_text_step(tags@, i as int);
                            assert(encode_utf8(out@) =~= lit("@") + tags_text(
                                tags@.take(i + 1),
                            ));
                        }
                    }
                    i += 1;
                }
                assert(tags@.take(len as int) =~= tags@);
                push_text(&mut out, " ");
                Some(out)
            },
            None => None,
        }
    }

    /// Writes the message as one line, without a line end.
    ///
    /// The line is what [`unparse_line`] gives for the message.
    pub fn unparse(&self) -> (line: String)
        ensures
            encode_utf8(line@) == unparse_line(self@),
    {
        match self {
            Message::Ping => write_client("PING", "tmi.twitch.tv"),
            Message::Pong => write_client("PONG", "tmi.twitch.tv"),
            Message::CapReq { req } => {
                let mut body = String::new();
                push_text(&mut body, "REQ");
                push_text(&mut body, " :");
                push_text(&mut body, req);
                assert(encode_utf8(body@) =~= lit("REQ") + lit(" :") + req.spec_bytes());
                write_client("CAP", body.as_str())
            },
            Message::CapAck { req } => {
                let mut body = String::new();
                push_text(&mut body, "* ACK");
                push_text(&mut body, " :");
                push_text(&mut body, req);
                assert(encode_utf8(body@) =~= lit("* ACK") + lit(" :") + req.spec_bytes());
                write_server(&None, "CAP", Some(body.as_str()))
            },
            Message::Pass { pass } => write_client("PASS", pass),
            Message::Nick { nick } => write_client("NICK", nick),
            Message::Join { chan } => write_client("JOIN", write_channel(chan, None).as_str()),
            Message::Part { chan } => write_client("PART", write_channel(chan, None).as_str()),
            Message::Privmsg { tags, chan, msg } => {
                let body = write_channel(chan, Some(*msg));
                match Message::unparse_tags(tags) {
                    Some(prefix) => write_source(prefix, "PRIVMSG", Some(body.as_str())),
                    None => write_client("PRIVMSG", body.as_str()),
                }
            },
            Message::Clearchat { tags, chan, usr } => write_server(
                tags,
                "CLEARCHAT",
                Some(write_channel(chan, *usr).as_str()),
            ),
            Message::Clearmsg { tags, chan, msg } => write_server(
                tags,
                "CLEARMSG",
                Some(write_channel(chan, Some(*msg)).as_str()),
            ),
            Message::HosttargetStart { host, chan, view } => {
                let body = write_viewers(write_channel(host, Some(*chan)), *view);
                write_server(&None, "HOSTTARGET", Some(body.as_str()))
            },
            Message::HosttargetEnd { host, view } => {
                let body = write_viewers(write_channel(host, Some("-")), *view);
                write_server(&None, "HOSTTARGET", Some(body.as_str()))
            },
            Message::Notice { tags, chan, msg } => write_server(
                tags,
                "NOTICE",
                Some(write_channel(chan, Some(*msg)).as_str()),
            ),
            Message::Reconnect => {
                let mut out = String::new();
                push_text(&mut out, "RECONNECT");
                assert(encode_utf8(out@) =~= lit("RECONNECT"));
                out
            },
            Message::Roomstate { tags, chan } => write_server(
                tags,
                "ROOMSTATE",
                Some(write_channel(chan, None).as_str()),
            ),
            Message::Usernotice { tags, chan, msg } => write_server(
                tags,
                "USERNOTICE",
                Some(write_channel(chan, Some(*msg)).as_str()),
            ),
            Message::Userstate { tags, chan } => write_server(
                tags,
                "USERSTATE",
                Some(write_channel(chan, None).as_str()),
            ),
            Message::GlobalUserstate { tags } => write_server(tags, "GLOBALUSERSTATE", None),
        }
    }
}

} // verus!
