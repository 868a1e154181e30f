use tmi_parser::TagValue;

#[test]
fn infer_empty_text() {
    assert_eq!(TagValue::new(""), TagValue::Empty);
}

#[test]
fn infer_booleans() {
    assert_eq!(TagValue::new("0"), TagValue::Boolean(false));
    assert_eq!(TagValue::new("1"), TagValue::Boolean(true));
}

#[test]
fn infer_number_is_no_boolean() {
    assert_eq!(TagValue::new("1337"), TagValue::Number(1337));
    assert_eq!(TagValue::new("2"), TagValue::Number(2));
    assert_eq!(TagValue::new("10"), TagValue::Number(10));
}

#[test]
fn infer_zero_and_one_with_more_digits_are_numbers() {
    assert_eq!(TagValue::new("00"), TagValue::Number(0));
    assert_eq!(TagValue::new("01"), TagValue::Number(1));
    assert_eq!(TagValue::new("+0"), TagValue::Number(0));
    assert_eq!(TagValue::new("+1"), TagValue::Number(1));
}

#[test]
fn infer_timestamp() {
    assert_eq!(
        TagValue::new("1507246572675"),
        TagValue::Timestamp(1507246572675)
    );
}

#[test]
fn infer_limits_of_number_and_timestamp() {
    assert_eq!(TagValue::new("4294967295"), TagValue::Number(u32::MAX));
    assert_eq!(TagValue::new("4294967296"), TagValue::Timestamp(4294967296));
    assert_eq!(
        TagValue::new("18446744073709551615"),
        TagValue::Timestamp(u64::MAX)
    );
    assert_eq!(
        TagValue::new("18446744073709551616"),
        TagValue::String("18446744073709551616")
    );
    assert_eq!(
        TagValue::new("000000000000000000000000000042"),
        TagValue::Number(42)
    );
}

#[test]
fn infer_hexadecimal_colour() {
    assert_eq!(TagValue::new("#0D4200"), TagValue::Number(0x0D4200));
    assert_eq!(TagValue::new("#0d4200"), TagValue::Number(0x0D4200));
    assert_eq!(TagValue::new("#008000"), TagValue::Number(0x008000));
    assert_eq!(TagValue::new("#FFFFFFFF"), TagValue::Number(u32::MAX));
    assert_eq!(TagValue::new("#+ff"), TagValue::Number(255));
}

#[test]
fn infer_text_that_looks_like_a_colour() {
    assert_eq!(TagValue::new("#"), TagValue::String("#"));
    assert_eq!(TagValue::new("#100000000"), TagValue::String("#100000000"));
    assert_eq!(TagValue::new("#GG0000"), TagValue::String("#GG0000"));
    assert_eq!(TagValue::new("#-1"), TagValue::String("#-1"));
}

#[test]
fn infer_text() {
    assert_eq!(TagValue::new("ronni"), TagValue::String("ronni"));
    assert_eq!(TagValue::new("+"), TagValue::String("+"));
    assert_eq!(TagValue::new("-5"), TagValue::String("-5"));
    assert_eq!(TagValue::new("12a"), TagValue::String("12a"));
    assert_eq!(TagValue::new(" 12"), TagValue::String(" 12"));
    assert_eq!(TagValue::new("1_000"), TagValue::String("1_000"));
    assert_eq!(TagValue::new("0D4200"), TagValue::String("0D4200"));
}

#[test]
fn infer_text_that_is_not_ascii() {
    assert_eq!(TagValue::new("héllo"), TagValue::String("héllo"));
    assert_eq!(TagValue::new("日本語"), TagValue::String("日本語"));
    assert_eq!(TagValue::new("١٢٣"), TagValue::String("١٢٣"));
}

#[test]
fn infer_is_a_function_of_the_text() {
    let a = String::from("1507246572675");
    let b = String::from("1507246572675");
    assert_eq!(TagValue::new(&a), TagValue::new(&b));
}

#[test]
fn value_text_of_each_kind() {
    assert_eq!(TagValue::Number(0).to_string(), "0");
    assert_eq!(TagValue::Number(1337).to_string(), "1337");
    assert_eq!(TagValue::Number(u32::MAX).to_string(), "4294967295");
    assert_eq!(TagValue::Timestamp(1507246572675).to_string(), "1507246572675");
    assert_eq!(
        TagValue::Timestamp(u64::MAX).to_string(),
        "18446744073709551615"
    );
    assert_eq!(TagValue::Boolean(true).to_string(), "1");
    assert_eq!(TagValue::Boolean(false).to_string(), "0");
    assert_eq!(TagValue::String("staff/1").to_string(), "staff/1");
    assert_eq!(TagValue::Empty.to_string(), "");
}

#[test]
fn value_is_read_back_from_its_text() {
    let values = vec![
        TagValue::Number(2),
        TagValue::Number(868864),
        TagValue::Number(u32::MAX),
        TagValue::Timestamp(4294967296),
        TagValue::Timestamp(u64::MAX),
        TagValue::Boolean(true),
        TagValue::Boolean(false),
        TagValue::String("global_mod"),
        TagValue::Empty,
    ];
    for value in values {
        let text = value.to_string();
        assert_eq!(TagValue::new(&text), value);
    }
}

#[test]
fn value_that_is_not_read_back() {
    assert_eq!(
        TagValue::new(&TagValue::Number(1).to_string()),
        TagValue::Boolean(true)
    );
    assert_eq!(
        TagValue::new(&TagValue::Timestamp(7).to_string()),
        TagValue::Number(7)
    );
    assert_eq!(
        TagValue::new(&TagValue::String("42").to_string()),
        TagValue::Number(42)
    );
}

#[test]
fn values_compare_by_kind_and_content() {
    assert_eq!(TagValue::Number(5), TagValue::Number(5));
    assert_ne!(TagValue::Number(5), TagValue::Timestamp(5));
    assert_ne!(TagValue::Number(1), TagValue::Boolean(true));
    assert_ne!(TagValue::String(""), TagValue::Empty);
    assert_ne!(TagValue::String("a"), TagValue::String("b"));
}
