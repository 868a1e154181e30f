use tmi_parser::{Message, TagValue, Tags};

fn sample_tags<'a>() -> Tags<'a> {
    let mut tags = Tags::new();
    tags.insert("badge-info", TagValue::Empty);
    tags.insert("badges", TagValue::String("global_mod/1,turbo/1"));
    tags.insert("color", TagValue::Number(0x0D4200));
    tags.insert("mod", TagValue::Boolean(false));
    tags.insert("tmi-sent-ts", TagValue::Timestamp(1507246572675));
    tags.insert("turbo", TagValue::Boolean(true));
    tags
}

const SAMPLE_TAGS: &str =
    "@badge-info=;badges=global_mod/1,turbo/1;color=868864;mod=0;tmi-sent-ts=1507246572675;turbo=1 ";

fn assert_read_back(message: Message) {
    let line = message.unparse();
    assert_eq!(Message::parse(&line), Ok(message), "{}", line);
}

#[test]
fn unparse_commands_of_the_client() {
    assert_eq!(Message::Ping.unparse(), "PING tmi.twitch.tv");
    assert_eq!(Message::Pong.unparse(), "PONG tmi.twitch.tv");
    assert_eq!(
        Message::CapReq { req: "twitch.tv/tags" }.unparse(),
        "CAP REQ :twitch.tv/tags"
    );
    assert_eq!(
        Message::Pass { pass: "oauth:hello" }.unparse(),
        "PASS oauth:hello"
    );
    assert_eq!(Message::Nick { nick: "ronni" }.unparse(), "NICK ronni");
    assert_eq!(Message::Join { chan: "dallas" }.unparse(), "JOIN #dallas");
    assert_eq!(Message::Part { chan: "dallas" }.unparse(), "PART #dallas");
    assert_eq!(Message::Reconnect.unparse(), "RECONNECT");
    assert_eq!(
        Message::Privmsg {
            tags: None,
            chan: "dallas",
            msg: "Kappa Keepo Kappa"
        }
        .unparse(),
        "PRIVMSG #dallas :Kappa Keepo Kappa"
    );
}

#[test]
fn unparse_messages_of_the_server() {
    assert_eq!(
        Message::CapAck { req: "twitch.tv/tags" }.unparse(),
        ":tmi.twitch.tv CAP * ACK :twitch.tv/tags"
    );
    assert_eq!(
        Message::Clearchat {
            tags: None,
            chan: "dallas",
            usr: Some("ronni")
        }
        .unparse(),
        ":tmi.twitch.tv CLEARCHAT #dallas :ronni"
    );
    assert_eq!(
        Message::Clearchat {
            tags: None,
            chan: "dallas",
            usr: None
        }
        .unparse(),
        ":tmi.twitch.tv CLEARCHAT #dallas"
    );
    assert_eq!(
        Message::Clearmsg {
            tags: None,
            chan: "dallas",
            msg: "HeyGuys"
        }
        .unparse(),
        ":tmi.twitch.tv CLEARMSG #dallas :HeyGuys"
    );
    assert_eq!(
        Message::Notice {
            tags: None,
            chan: "dallas",
            msg: "This room is no longer in slow mode."
        }
        .unparse(),
        ":tmi.twitch.tv NOTICE #dallas :This room is no longer in slow mode."
    );
    assert_eq!(
        Message::Usernotice {
            tags: None,
            chan: "dallas",
            msg: "Great stream"
        }
        .unparse(),
        ":tmi.twitch.tv USERNOTICE #dallas :Great stream"
    );
    assert_eq!(
        Message::Roomstate {
            tags: None,
            chan: "dallas"
        }
        .unparse(),
        ":tmi.twitch.tv ROOMSTATE #dallas"
    );
    assert_eq!(
        Message::Userstate {
            tags: None,
            chan: "dallas"
        }
        .unparse(),
        ":tmi.twitch.tv USERSTATE #dallas"
    );
    assert_eq!(
        Message::GlobalUserstate { tags: None }.unparse(),
        ":tmi.twitch.tv GLOBALUSERSTATE"
    );
}

#[test]
fn unparse_hosts() {
    assert_eq!(
        Message::HosttargetStart {
            host: "hosting_channel",
            chan: "dallas",
            view: Some(123456)
        }
        .unparse(),
        ":tmi.twitch.tv HOSTTARGET #hosting_channel :dallas 123456"
    );
    assert_eq!(
        Message::HosttargetStart {
            host: "hosting_channel",
            chan: "dallas",
            view: None
        }
        .unparse(),
        ":tmi.twitch.tv HOSTTARGET #hosting_channel :dallas"
    );
    assert_eq!(
        Message::HosttargetEnd {
            host: "hosting_channel",
            view: Some(0)
        }
        .unparse(),
        ":tmi.twitch.tv HOSTTARGET #hosting_channel :- 0"
    );
    assert_eq!(
        Message::HosttargetEnd {
            host: "hosting_channel",
            view: None
        }
        .unparse(),
        ":tmi.twitch.tv HOSTTARGET #hosting_channel :-"
    );
}

#[test]
fn unparse_tags_in_the_order_of_insertion() {
    assert_eq!(
        Message::unparse_tags(&Some(sample_tags())),
        Some(String::from(SAMPLE_TAGS))
    );
    let mut one = Tags::new();
    one.insert("msg-id", TagValue::String("slow_off"));
    assert_eq!(
        Message::unparse_tags(&Some(one)),
        Some(String::from("@msg-id=slow_off "))
    );
}

#[test]
fn unparse_without_tags_writes_no_tag_block() {
    assert_eq!(Message::unparse_tags(&None), None);
    assert_eq!(Message::unparse_tags(&Some(Tags::new())), None);
    assert_eq!(
        Message::Roomstate {
            tags: Some(Tags::new()),
            chan: "dallas"
        }
        .unparse(),
        ":tmi.twitch.tv ROOMSTATE #dallas"
    );
    assert_eq!(
        Message::Privmsg {
            tags: Some(Tags::new()),
            chan: "dallas",
            msg: "hi"
        }
        .unparse(),
        "PRIVMSG #dallas :hi"
    );
}

#[test]
fn unparse_tagged_messages() {
    assert_eq!(
        Message::Privmsg {
            tags: Some(sample_tags()),
            chan: "ronni",
            msg: "Kappa Keepo Kappa"
        }
        .unparse(),
        format!(
            "{}:tmi.twitch.tv PRIVMSG #ronni :Kappa Keepo Kappa",
            SAMPLE_TAGS
        )
    );
    assert_eq!(
        Message::GlobalUserstate {
            tags: Some(sample_tags())
        }
        .unparse(),
        format!("{}:tmi.twitch.tv GLOBALUSERSTATE", SAMPLE_TAGS)
    );
    assert_eq!(
        Message::Clearchat {
            tags: Some(sample_tags()),
            chan: "dallas",
            usr: None
        }
        .unparse(),
        format!("{}:tmi.twitch.tv CLEARCHAT #dallas", SAMPLE_TAGS)
    );
}

#[test]
fn round_trip_without_tags() {
    assert_read_back(Message::Ping);
    assert_read_back(Message::Pong);
    assert_read_back(Message::Reconnect);
    assert_read_back(Message::CapReq {
        req: "twitch.tv/membership",
    });
    assert_read_back(Message::CapAck {
        req: "twitch.tv/commands twitch.tv/tags",
    });
    assert_read_back(Message::Pass {
        pass: "oauth:mypassworddhasdsa",
    });
    assert_read_back(Message::Nick {
        nick: "justinfan232456",
    });
    assert_read_back(Message::Join { chan: "dallas" });
    assert_read_back(Message::Part { chan: "dallas" });
    assert_read_back(Message::Privmsg {
        tags: None,
        chan: "dallas",
        msg: "a text with :colons and : more of them",
    });
    assert_read_back(Message::Clearchat {
        tags: None,
        chan: "dallas",
        usr: Some("ronni"),
    });
    assert_read_back(Message::Clearchat {
        tags: None,
        chan: "dallas",
        usr: None,
    });
    assert_read_back(Message::Clearmsg {
        tags: None,
        chan: "dallas",
        msg: "HeyGuys",
    });
    assert_read_back(Message::Notice {
        tags: None,
        chan: "dallas",
        msg: "tmi.twitch.tv is the name of the server",
    });
    assert_read_back(Message::Usernotice {
        tags: None,
        chan: "dallas",
        msg: "Great stream -- keep it up!",
    });
    assert_read_back(Message::Roomstate {
        tags: None,
        chan: "dallas",
    });
    assert_read_back(Message::Userstate {
        tags: None,
        chan: "dallas",
    });
    assert_read_back(Message::GlobalUserstate { tags: None });
}

#[test]
fn round_trip_of_hosts() {
    assert_read_back(Message::HosttargetStart {
        host: "hosting_channel",
        chan: "dallas",
        view: Some(123456),
    });
    assert_read_back(Message::HosttargetStart {
        host: "hosting_channel",
        chan: "dallas",
        view: Some(5),
    });
    assert_read_back(Message::HosttargetStart {
        host: "hosting channel",
        chan: "dallas",
        view: None,
    });
    assert_read_back(Message::HosttargetStart {
        host: "hosting_channel",
        chan: "",
        view: None,
    });
    assert_read_back(Message::HosttargetStart {
        host: "hosting_channel",
        chan: "",
        view: Some(7),
    });
    assert_read_back(Message::HosttargetEnd {
        host: "hosting_channel",
        view: Some(u32::MAX),
    });
    assert_read_back(Message::HosttargetEnd {
        host: "hosting_channel",
        view: Some(0),
    });
    assert_read_back(Message::HosttargetEnd {
        host: "a :b",
        view: None,
    });
}

#[test]
fn round_trip_with_tags() {
    assert_read_back(Message::Privmsg {
        tags: Some(sample_tags()),
        chan: "ronni",
        msg: "Kappa Keepo Kappa",
    });
    assert_read_back(Message::Clearchat {
        tags: Some(sample_tags()),
        chan: "dallas",
        usr: Some("ronni"),
    });
    assert_read_back(Message::Clearchat {
        tags: Some(sample_tags()),
        chan: "dallas",
        usr: None,
    });
    assert_read_back(Message::Clearmsg {
        tags: Some(sample_tags()),
        chan: "dallas",
        msg: "HeyGuys",
    });
    assert_read_back(Message::Notice {
        tags: Some(sample_tags()),
        chan: "dallas",
        msg: "This room is no longer in slow mode.",
    });
    assert_read_back(Message::Roomstate {
        tags: Some(sample_tags()),
        chan: "dallas",
    });
    assert_read_back(Message::Usernotice {
        tags: Some(sample_tags()),
        chan: "dallas",
        msg: "Great stream -- keep it up!",
    });
    assert_read_back(Message::Userstate {
        tags: Some(sample_tags()),
        chan: "dallas",
    });
    assert_read_back(Message::GlobalUserstate {
        tags: Some(sample_tags()),
    });
}

#[test]
fn round_trip_keeps_the_order_of_the_tags() {
    let message = Message::GlobalUserstate {
        tags: Some(sample_tags()),
    };
    let line = message.unparse();
    match Message::parse(&line) {
        Ok(Message::GlobalUserstate { tags: Some(tags) }) => {
            let expected = sample_tags();
            assert_eq!(tags.len(), expected.len());
            for i in 0..expected.len() {
                assert_eq!(tags.entry(i), expected.entry(i));
            }
        }
        other => panic!("{:?}", other),
    }
}

#[test]
fn round_trip_of_empty_fields() {
    assert_read_back(Message::Pass { pass: "" });
    assert_read_back(Message::Nick { nick: "" });
    assert_read_back(Message::Join { chan: "" });
    assert_read_back(Message::CapReq { req: "" });
    assert_read_back(Message::CapAck { req: "" });
    assert_read_back(Message::Privmsg {
        tags: None,
        chan: "",
        msg: "",
    });
    assert_read_back(Message::Roomstate {
        tags: None,
        chan: "",
    });
}

#[test]
fn round_trip_of_text_that_is_not_ascii() {
    assert_read_back(Message::Privmsg {
        tags: None,
        chan: "café",
        msg: "grüße aus 東京",
    });
    let mut tags = Tags::new();
    tags.insert("display-name", TagValue::String("ロニ"));
    assert_read_back(Message::Usernotice {
        tags: Some(tags),
        chan: "dallas",
        msg: "¡hola!",
    });
}

#[test]
fn messages_that_are_not_read_back() {
    let trailing = Message::Nick { nick: "ronni " };
    assert_eq!(
        Message::parse(&trailing.unparse()),
        Ok(Message::Nick { nick: "ronni" })
    );

    let source = Message::Pass {
        pass: "tmi.twitch.tv NICK ronni",
    };
    assert_eq!(
        Message::parse(&source.unparse()),
        Ok(Message::Nick { nick: "ronni" })
    );

    let channel = Message::Privmsg {
        tags: None,
        chan: "a :b",
        msg: "c",
    };
    assert_eq!(
        Message::parse(&channel.unparse()),
        Ok(Message::Privmsg {
            tags: None,
            chan: "a",
            msg: "b :c"
        })
    );

    let dash = Message::HosttargetStart {
        host: "host",
        chan: "-",
        view: None,
    };
    assert_eq!(
        Message::parse(&dash.unparse()),
        Ok(Message::HosttargetEnd {
            host: "host",
            view: None
        })
    );

    let mut number = Tags::new();
    number.insert("mod", TagValue::Number(1));
    let mut boolean = Tags::new();
    boolean.insert("mod", TagValue::Boolean(true));
    assert_eq!(
        Message::parse(
            &Message::GlobalUserstate {
                tags: Some(number)
            }
            .unparse()
        ),
        Ok(Message::GlobalUserstate {
            tags: Some(boolean)
        })
    );

    let empty = Message::GlobalUserstate {
        tags: Some(Tags::new()),
    };
    assert_eq!(
        Message::parse(&empty.unparse()),
        Ok(Message::GlobalUserstate { tags: None })
    );
}
