use tmi_parser::{ParseError, TagValue};

type Result<T> = std::result::Result<T, ParseError<'static>>;

#[test]
fn tagvalue() -> Result<()> {
    let tag1 = "staff/1,bits/1000";
    let tag2 = "#0D4200";
    let tag3 = "ronni";
    let tag4 = "25:0-4,12-16/1902:6-10";
    let tag5 = "b34ccfc7-4977-403a-8a94-33c6bac34fb8";
    let tag6 = "0";

    assert_eq!(TagValue::new(tag1).to_string(), tag1);
    assert_eq!(TagValue::new(tag2).to_string(), "868864");
    assert_eq!(TagValue::new(tag3).to_string(), tag3);
    assert_eq!(TagValue::new(tag4).to_string(), tag4);
    assert_eq!(TagValue::new(tag5).to_string(), tag5);
    assert_eq!(TagValue::new(tag6).to_string(), tag6);

    Ok(())
}
