use tmi_parser::{Message, ParseError, TagValue, Tags};

#[test]
fn ping_pong_reconnect_with_white_space_around() {
    for pad in ["", " ", "\t", "\r\n", " \t \r\n", "\u{b}\u{c}"] {
        let ping = format!("{}PING :tmi.twitch.tv{}", pad, pad);
        assert_eq!(Message::parse(&ping), Ok(Message::Ping));
        let pong = format!("{}PONG :tmi.twitch.tv{}", pad, pad);
        assert_eq!(Message::parse(&pong), Ok(Message::Pong));
        let reconnect = format!("{}RECONNECT{}", pad, pad);
        assert_eq!(Message::parse(&reconnect), Ok(Message::Reconnect));
    }
}

#[test]
fn white_space_of_more_than_one_byte_is_dropped() {
    let line = "\u{3000}\u{a0}NICK ronni\u{2003}\u{85}\u{1680}\u{2028}\u{205f}";
    assert_eq!(Message::parse(line), Ok(Message::Nick { nick: "ronni" }));
}

#[test]
fn white_space_inside_a_line_stays() {
    assert_eq!(
        Message::parse("PRIVMSG #dallas : two  spaces \u{a0}and more\t\r\n"),
        Ok(Message::Privmsg {
            tags: None,
            chan: "dallas",
            msg: " two  spaces \u{a0}and more"
        })
    );
}

#[test]
fn ping_and_pong_do_not_look_at_the_body() {
    assert_eq!(Message::parse("PING anything at all"), Ok(Message::Ping));
    assert_eq!(Message::parse("PONG "), Ok(Message::Pong));
    assert_eq!(Message::parse("RECONNECT now"), Ok(Message::Reconnect));
}

#[test]
fn cap_request_of_membership() {
    assert_eq!(
        Message::parse("CAP REQ :twitch.tv/membership"),
        Ok(Message::CapReq {
            req: "twitch.tv/membership"
        })
    );
}

#[test]
fn clearchat_with_and_without_user() {
    assert_eq!(
        Message::parse(":tmi.twitch.tv CLEARCHAT #dallas :ronni"),
        Ok(Message::Clearchat {
            tags: None,
            chan: "dallas",
            usr: Some("ronni")
        })
    );
    assert_eq!(
        Message::parse(":tmi.twitch.tv CLEARCHAT #dallas"),
        Ok(Message::Clearchat {
            tags: None,
            chan: "dallas",
            usr: None
        })
    );
}

#[test]
fn hosttarget_end_with_and_without_viewers() {
    assert_eq!(
        Message::parse(":tmi.twitch.tv HOSTTARGET #hosting_channel :- 123456"),
        Ok(Message::HosttargetEnd {
            host: "hosting_channel",
            view: Some(123456)
        })
    );
    assert_eq!(
        Message::parse(":tmi.twitch.tv HOSTTARGET #hosting_channel :-"),
        Ok(Message::HosttargetEnd {
            host: "hosting_channel",
            view: None
        })
    );
}

#[test]
fn hosttarget_with_few_viewers() {
    assert_eq!(
        Message::parse(":tmi.twitch.tv HOSTTARGET #host :- 5"),
        Ok(Message::HosttargetEnd {
            host: "host",
            view: Some(5)
        })
    );
    assert_eq!(
        Message::parse(":tmi.twitch.tv HOSTTARGET #host :chan 5"),
        Ok(Message::HosttargetStart {
            host: "host",
            chan: "chan",
            view: Some(5)
        })
    );
    assert_eq!(
        Message::parse(":tmi.twitch.tv HOSTTARGET #host :chan +5"),
        Ok(Message::HosttargetStart {
            host: "host",
            chan: "chan",
            view: Some(5)
        })
    );
    assert_eq!(
        Message::parse(":tmi.twitch.tv HOSTTARGET #host :chan 4294967295"),
        Ok(Message::HosttargetStart {
            host: "host",
            chan: "chan",
            view: Some(u32::MAX)
        })
    );
}

#[test]
fn notice_with_one_tag() {
    let line =
        "@msg-id=slow_off :tmi.twitch.tv NOTICE #dallas :This room is no longer in slow mode.";
    match Message::parse(line) {
        Ok(Message::Notice {
            tags: Some(tags),
            chan,
            msg,
        }) => {
            assert_eq!(tags.len(), 1);
            assert_eq!(tags.get("msg-id"), Some(&TagValue::String("slow_off")));
            assert_eq!(tags.entry(0), Some(("msg-id", TagValue::String("slow_off"))));
            assert_eq!(chan, "dallas");
            assert_eq!(msg, "This room is no longer in slow mode.");
        }
        other => panic!("{:?}", other),
    }
}

#[test]
fn source_of_a_user_is_skipped() {
    assert_eq!(
        Message::parse(":ronni!ronni@ronni.tmi.twitch.tv PRIVMSG #dallas :hello"),
        Ok(Message::Privmsg {
            tags: None,
            chan: "dallas",
            msg: "hello"
        })
    );
}

#[test]
fn only_the_first_source_is_skipped() {
    assert_eq!(
        Message::parse(":tmi.twitch.tv NOTICE #dallas :tmi.twitch.tv is down"),
        Ok(Message::Notice {
            tags: None,
            chan: "dallas",
            msg: "tmi.twitch.tv is down"
        })
    );
}

#[test]
fn tag_value_may_hold_an_equals_sign() {
    let mut tags = Tags::new();
    tags.insert("k", TagValue::String("a=b"));
    assert_eq!(
        Message::parse("@k=a=b :tmi.twitch.tv ROOMSTATE #dallas"),
        Ok(Message::Roomstate {
            tags: Some(tags),
            chan: "dallas"
        })
    );
}

#[test]
fn later_tag_replaces_earlier_tag_of_the_same_key() {
    let line = "@a=5;b=x;a=7 :tmi.twitch.tv ROOMSTATE #dallas";
    match Message::parse(line) {
        Ok(Message::Roomstate {
            tags: Some(tags), ..
        }) => {
            assert_eq!(tags.len(), 2);
            assert_eq!(tags.entry(0), Some(("a", TagValue::Number(7))));
            assert_eq!(tags.entry(1), Some(("b", TagValue::String("x"))));
        }
        other => panic!("{:?}", other),
    }
}

#[test]
fn empty_tag_block_gives_no_tags() {
    assert_eq!(
        Message::parse("@ :tmi.twitch.tv ROOMSTATE #dallas"),
        Ok(Message::Roomstate {
            tags: None,
            chan: "dallas"
        })
    );
}

#[test]
fn tags_are_dropped_by_commands_that_carry_none() {
    assert_eq!(
        Message::parse("@a=5 :tmi.twitch.tv PING"),
        Ok(Message::Ping)
    );
    assert_eq!(
        Message::parse("@a=5 :tmi.twitch.tv HOSTTARGET #host :-"),
        Ok(Message::HosttargetEnd {
            host: "host",
            view: None
        })
    );
}

#[test]
fn first_character_of_a_channel_is_dropped_whatever_it_is() {
    assert_eq!(
        Message::parse("JOIN dallas"),
        Ok(Message::Join { chan: "allas" })
    );
    assert_eq!(
        Message::parse("JOIN édallas"),
        Ok(Message::Join { chan: "dallas" })
    );
    assert_eq!(
        Message::parse("JOIN 日本"),
        Ok(Message::Join { chan: "本" })
    );
    assert_eq!(
        Message::parse("JOIN 😀x"),
        Ok(Message::Join { chan: "x" })
    );
    assert_eq!(Message::parse("JOIN #"), Ok(Message::Join { chan: "" }));
}

#[test]
fn body_without_verb_space_is_empty() {
    assert_eq!(Message::parse("PASS\r\n"), Ok(Message::Pass { pass: "" }));
    assert_eq!(
        Message::parse(":tmi.twitch.tv GLOBALUSERSTATE"),
        Ok(Message::GlobalUserstate { tags: None })
    );
    assert_eq!(
        Message::parse(":tmi.twitch.tv ROOMSTATE"),
        Err(ParseError::MalformedCommand("ROOMSTATE"))
    );
}
