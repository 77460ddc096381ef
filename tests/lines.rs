use chat_export::chat::ChatBuilder;
use chat_export::line::{classify_line, contains_chars, is_notice_line, scan_message_line, LineClass};
use chat_export::text::chars_of;

#[test]
fn message_line_fields() {
    let line = chars_of("12/31/2022, 9:05 - Bob Smith: hello: world");
    let marks = scan_message_line(&line).unwrap();
    assert_eq!(marks.day_end, 2);
    assert_eq!(marks.month_end, 5);
    assert_eq!(marks.year_end, 10);
    assert_eq!(marks.hour_end, 13);
    assert_eq!(marks.minute_end, 16);
    assert_eq!(marks.colon, 28);
}

#[test]
fn malformed_heads_are_not_message_lines() {
    for text in [
        "123/1/22, 10:30 - A: hi there you",
        "1/1/22 10:30 - Alice: hi there",
        "1/1/22, 10:3 - Alice: hi there",
        "1/1/22, 10:300 - Alice: hi there",
        "1/1/22, 10:30 - : hi there friend",
        "1/1/22, 10:30 - Alice: ",
        "1/1/22, 10:30 -Alice: hi there",
    ] {
        assert!(scan_message_line(&chars_of(text)).is_none(), "{}", text);
    }
}

#[test]
fn classify_kinds() {
    match classify_line(&chars_of("1/1/22, 10:30 - Alice: Hi there")) {
        LineClass::Start { timestamp, .. } => assert_eq!(timestamp, 1_641_033_000_000),
        _ => panic!("expected a message start"),
    }
    assert!(matches!(classify_line(&chars_of("x created group y")), LineClass::Notice));
    assert!(matches!(classify_line(&chars_of("plain words")), LineClass::Continuation));
    assert!(matches!(
        classify_line(&chars_of("30/2/22, 10:30 - Alice: created group")),
        LineClass::Continuation
    ));
}

#[test]
fn phrase_search() {
    assert!(contains_chars(&chars_of("abcabd"), &chars_of("abd")));
    assert!(!contains_chars(&chars_of("abcab"), &chars_of("abd")));
    assert!(contains_chars(&chars_of("abc"), &chars_of("")));
    assert!(!contains_chars(&chars_of("ab"), &chars_of("abc")));
    assert!(is_notice_line(&chars_of("Bob changed their phone number to a new one")));
    assert!(!is_notice_line(&chars_of("Media omitted")));
}

#[test]
fn builder_feeds_lines() {
    let mut b = ChatBuilder::new();
    b.feed_line(&chars_of("1/1/22, 10:30 - Alice: one"));
    b.feed_line(&chars_of("two"));
    b.feed_line(&chars_of("<Media omitted>"));
    b.feed_line(&chars_of("1/1/22, 10:31 - Bob: three"));
    let chat = b.finish();
    assert_eq!(chat.participants.len(), 2);
    assert_eq!(chat.participants[0].messages[0].content, "one\ntwo");
    assert_eq!(chat.participants[1].messages[0].content, "three");
}
