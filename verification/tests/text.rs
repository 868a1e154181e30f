use tmi_parser::number::{push_decimal, read_unsigned};
use tmi_parser::space::trim_text;
use tmi_parser::text::{
    cut, cut_from, drop_first_char, find_bytes, find_text, push_text, same_bytes, same_text,
    split_text,
};

#[test]
fn find_gives_the_first_occurrence() {
    assert_eq!(find_text("a :b :c", " :"), Some(1));
    assert_eq!(find_text(" :", " :"), Some(0));
    assert_eq!(find_text("abc :", " :"), Some(3));
    assert_eq!(find_text("abc", " :"), None);
    assert_eq!(find_text("a: b", " :"), None);
    assert_eq!(find_text("", " :"), None);
    assert_eq!(find_text(" ", " :"), None);
    assert_eq!(find_text("abc", ""), Some(0));
    assert_eq!(find_text("", ""), Some(0));
    assert_eq!(find_bytes(b"aab", b"ab"), Some(1));
    assert_eq!(find_bytes(b"ab", b"abc"), None);
}

#[test]
fn find_counts_bytes() {
    assert_eq!(find_text("héllo :x", " :"), Some(6));
}

#[test]
fn same_text_compares_bytes() {
    assert!(same_text("PING", "PING"));
    assert!(!same_text("PING", "PONG"));
    assert!(!same_text("PING", "PIN"));
    assert!(same_text("", ""));
    assert!(same_bytes(b"ab", b"ab"));
    assert!(!same_bytes(b"ab", b"a"));
}

#[test]
fn split_is_made_at_the_first_delimiter() {
    assert_eq!(split_text("k=a=b", "="), Some(("k", "a=b")));
    assert_eq!(split_text("=v", "="), Some(("", "v")));
    assert_eq!(split_text("k=", "="), Some(("k", "")));
    assert_eq!(split_text("kv", "="), None);
    assert_eq!(split_text("#日本 :語", " :"), Some(("#日本", "語")));
}

#[test]
fn cut_takes_a_part_by_byte_offsets() {
    assert_eq!(cut("#dallas :ronni", 1, 7), "dallas");
    assert_eq!(cut("abc", 1, 1), "");
    assert_eq!(cut("abc", 0, 3), "abc");
    assert_eq!(cut_from("#dallas :ronni", 9), "ronni");
    assert_eq!(cut_from("abc", 3), "");
}

#[test]
fn first_character_is_dropped_whole() {
    assert_eq!(drop_first_char("#dallas"), Some("dallas"));
    assert_eq!(drop_first_char("é"), Some(""));
    assert_eq!(drop_first_char("日本"), Some("本"));
    assert_eq!(drop_first_char("😀!"), Some("!"));
    assert_eq!(drop_first_char(""), None);
}

#[test]
fn trim_drops_white_space_at_both_ends() {
    assert_eq!(trim_text("  a b \t\r\n"), "a b");
    assert_eq!(trim_text("abc"), "abc");
    assert_eq!(trim_text(""), "");
    assert_eq!(trim_text(" \t\r\n\u{b}\u{c}"), "");
    assert_eq!(trim_text("\u{85}\u{a0}x\u{1680}\u{2000}\u{200a}"), "x");
    assert_eq!(trim_text("\u{2028}\u{2029}\u{202f}\u{205f}\u{3000}x"), "x");
}

#[test]
fn trim_keeps_what_is_no_white_space() {
    assert_eq!(trim_text("\u{200b}x\u{200b}"), "\u{200b}x\u{200b}");
    assert_eq!(trim_text("\u{feff}x"), "\u{feff}x");
    assert_eq!(trim_text("\u{1}x\u{1f}"), "\u{1}x\u{1f}");
    assert_eq!(trim_text("é "), "é");
    assert_eq!(trim_text(" â"), "â");
}

#[test]
fn trim_agrees_with_the_standard_library() {
    for code in 0u32..0x3100 {
        if let Some(c) = char::from_u32(code) {
            let line = format!("{}x{}", c, c);
            assert_eq!(trim_text(&line), line.trim(), "U+{:04X}", code);
        }
    }
}

#[test]
fn numbers_are_read_in_a_radix() {
    assert_eq!(read_unsigned(b"0", 10, 100), Some(0));
    assert_eq!(read_unsigned(b"100", 10, 100), Some(100));
    assert_eq!(read_unsigned(b"101", 10, 100), None);
    assert_eq!(read_unsigned(b"+42", 10, 100), Some(42));
    assert_eq!(read_unsigned(b"0042", 10, 100), Some(42));
    assert_eq!(read_unsigned(b"", 10, 100), None);
    assert_eq!(read_unsigned(b"+", 10, 100), None);
    assert_eq!(read_unsigned(b"-1", 10, 100), None);
    assert_eq!(read_unsigned(b"4a", 10, 100), None);
    assert_eq!(read_unsigned(b"ff", 16, 255), Some(255));
    assert_eq!(read_unsigned(b"FF", 16, 255), Some(255));
    assert_eq!(read_unsigned(b"fg", 16, 255), None);
    assert_eq!(read_unsigned(b"zz", 36, 2000), Some(1295));
    assert_eq!(read_unsigned(b"12", 2, 100), None);
    assert_eq!(read_unsigned(b"101", 2, 100), Some(5));
    assert_eq!(
        read_unsigned(b"18446744073709551615", 10, u64::MAX),
        Some(u64::MAX)
    );
    assert_eq!(read_unsigned(b"18446744073709551616", 10, u64::MAX), None);
    assert_eq!(read_unsigned(b"99999999999999999999999", 10, u64::MAX), None);
}

#[test]
fn numbers_agree_with_the_standard_library() {
    let texts = [
        "0", "1", "+7", "-7", "007", "4294967295", "4294967296", "", "+", "1 ", " 1", "1e3",
        "0x10", "١٢٣",
    ];
    for text in texts {
        assert_eq!(
            read_unsigned(text.as_bytes(), 10, u32::MAX as u64),
            text.parse::<u32>().ok().map(u64::from),
            "{}",
            text
        );
        assert_eq!(
            read_unsigned(text.as_bytes(), 16, u32::MAX as u64),
            u32::from_str_radix(text, 16).ok().map(u64::from),
            "{}",
            text
        );
    }
}

#[test]
fn numbers_are_written_in_decimal() {
    for n in [0u64, 7, 10, 99, 100, 123456, 4294967295, u64::MAX] {
        let mut out = String::from("n=");
        push_decimal(&mut out, n);
        assert_eq!(out, format!("n={}", n));
    }
}

#[test]
fn text_is_appended() {
    let mut out = String::from("a");
    push_text(&mut out, "bc");
    push_text(&mut out, "");
    push_text(&mut out, "é");
    assert_eq!(out, "abcé");
}
