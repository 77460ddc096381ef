use chat_export::chat::{parse_whatsapp_chat, ParsedChat, ParsedParticipant};

fn find<'a>(chat: &'a ParsedChat, name: &str) -> &'a ParsedParticipant {
    chat.participants.iter().find(|p| p.name == name).unwrap()
}

#[test]
fn test_parse_simple_chat() {
    let content = "1/1/22, 10:30 - Alice: Hola\n\
                  1/1/22, 10:31 - Bob: Hola Alice\n\
                  1/1/22, 10:32 - Alice: ¿Cómo estás?";

    let result = parse_whatsapp_chat(content);
    assert_eq!(result.participants.len(), 2);
}

#[test]
fn test_multiline_message() {
    let content = "1/1/22, 10:30 - Alice: Este es un mensaje\n\
                  que continúa en la siguiente línea\n\
                  y otra más\n\
                  1/1/22, 10:31 - Bob: Respuesta";

    let result = parse_whatsapp_chat(content);
    let alice = result
        .participants
        .iter()
        .find(|p| p.name == "Alice")
        .unwrap();

    assert!(alice.messages[0].content.contains("continúa"));
}

#[test]
fn two_authors_in_first_seen_order() {
    let chat = parse_whatsapp_chat(
        "1/1/22, 10:30 - Alice: Hi\n1/1/22, 10:31 - Bob: Hi Alice\n1/1/22, 10:32 - Alice: How are you?",
    );
    assert_eq!(chat.participants.len(), 2);
    assert_eq!(chat.participants[0].name, "Alice");
    assert_eq!(chat.participants[1].name, "Bob");
    let alice = find(&chat, "Alice");
    assert_eq!(alice.messages.len(), 2);
    assert_eq!(alice.messages[0].content, "Hi");
    assert_eq!(alice.messages[1].content, "How are you?");
    assert_eq!(alice.messages[0].author, "Alice");
    assert_eq!(find(&chat, "Bob").messages.len(), 1);
}

#[test]
fn continuation_lines_are_joined() {
    let chat = parse_whatsapp_chat(
        "1/1/22, 10:30 - Alice: line one\ncontinued line\nmore\n1/1/22, 10:31 - Bob: reply",
    );
    let alice = find(&chat, "Alice");
    assert_eq!(alice.messages.len(), 1);
    assert_eq!(alice.messages[0].content, "line one\ncontinued line\nmore");
    let bob = find(&chat, "Bob");
    assert_eq!(bob.messages.len(), 1);
    assert_eq!(bob.messages[0].content, "reply");
}

#[test]
fn notice_between_messages_leaves_no_trace() {
    let chat = parse_whatsapp_chat(
        "1/1/22, 10:30 - Alice: first\n<Media omitted>\n1/1/22, 10:31 - Alice: second",
    );
    assert_eq!(chat.participants.len(), 1);
    let alice = find(&chat, "Alice");
    assert_eq!(alice.messages.len(), 2);
    assert_eq!(alice.messages[0].content, "first");
    assert_eq!(alice.messages[1].content, "second");
}

#[test]
fn notice_inside_a_body_is_skipped() {
    let chat = parse_whatsapp_chat(
        "1/1/22, 10:30 - Alice: one\ntwo\nMessages and calls are end-to-end encrypted\nthree",
    );
    let alice = find(&chat, "Alice");
    assert_eq!(alice.messages.len(), 1);
    assert_eq!(alice.messages[0].content, "one\ntwo\nthree");
}

#[test]
fn spanish_notices_are_skipped() {
    let chat = parse_whatsapp_chat(
        "1/1/22, 10:30 - Ana: hola\n<Multimedia omitido>\nAna cambió su número de teléfono\nLuis creó el grupo \"x\"",
    );
    assert_eq!(find(&chat, "Ana").messages[0].content, "hola");
}

#[test]
fn no_message_start_gives_no_participants() {
    assert_eq!(parse_whatsapp_chat("").participants.len(), 0);
    assert_eq!(parse_whatsapp_chat("just some text\nand more\n").participants.len(), 0);
    assert_eq!(
        parse_whatsapp_chat("Messages and calls are end-to-end encrypted\nhello").participants.len(),
        0
    );
}

#[test]
fn continuation_before_any_message_is_dropped() {
    let chat = parse_whatsapp_chat("stray line\n1/1/22, 10:30 - Alice: Hi");
    assert_eq!(find(&chat, "Alice").messages[0].content, "Hi");
}

#[test]
fn timestamp_is_utc_milliseconds() {
    let chat = parse_whatsapp_chat("1/1/22, 10:30 - Alice: Hi there");
    assert_eq!(chat.participants[0].messages[0].timestamp, 1_641_033_000_000);
}

#[test]
fn two_and_four_digit_years_agree() {
    let short = parse_whatsapp_chat("15/6/22, 08:05 - Alice: short year");
    let long = parse_whatsapp_chat("15/6/2022, 08:05 - Alice: long year");
    assert_eq!(
        short.participants[0].messages[0].timestamp,
        long.participants[0].messages[0].timestamp
    );
    assert_eq!(short.participants[0].messages[0].timestamp, 1_655_280_300_000);
}

#[test]
fn two_digit_year_century_rule() {
    let late = parse_whatsapp_chat("1/1/70, 00:00 - Alice: the epoch");
    assert_eq!(late.participants[0].messages[0].timestamp, 0);
    let early = parse_whatsapp_chat("31/12/69, 23:59 - Alice: far ahead");
    assert_eq!(early.participants[0].messages[0].timestamp, 3_155_759_940_000);
}

#[test]
fn leap_days() {
    let chat = parse_whatsapp_chat("29/2/2000, 00:00 - Alice: leap day");
    assert_eq!(chat.participants[0].messages[0].timestamp, 951_782_400_000);
    let chat = parse_whatsapp_chat("1/1/22, 10:30 - Alice: Hi\n29/2/1900, 00:00 - Bob: no such day");
    assert_eq!(chat.participants.len(), 1);
    assert_eq!(
        chat.participants[0].messages[0].content,
        "Hi\n29/2/1900, 00:00 - Bob: no such day"
    );
}

#[test]
fn impossible_date_continues_the_message() {
    let chat = parse_whatsapp_chat(
        "1/1/22, 10:30 - Alice: Hi\n31/2/22, 10:31 - Bob: not a date\n1/1/22, 25:00 - Bob: not a time",
    );
    assert_eq!(chat.participants.len(), 1);
    assert_eq!(
        chat.participants[0].messages[0].content,
        "Hi\n31/2/22, 10:31 - Bob: not a date\n1/1/22, 25:00 - Bob: not a time"
    );
}

#[test]
fn three_digit_year_is_no_date() {
    let chat = parse_whatsapp_chat("1/1/22, 10:30 - Alice: Hi\n1/1/222, 10:31 - Bob: odd year");
    assert_eq!(chat.participants.len(), 1);
    assert_eq!(find(&chat, "Alice").messages[0].content, "Hi\n1/1/222, 10:31 - Bob: odd year");
}

#[test]
fn shortest_message_line_starts_a_message() {
    let chat = parse_whatsapp_chat("1/1/22, 1:30 - A: x");
    assert_eq!(chat.participants.len(), 1);
    assert_eq!(chat.participants[0].name, "A");
    assert_eq!(chat.participants[0].messages.len(), 1);
    assert_eq!(chat.participants[0].messages[0].content, "x");
    assert_eq!(chat.participants[0].messages[0].timestamp, 1_641_000_600_000);
    let chat = parse_whatsapp_chat("1/1/22, 10:30 - Alice: Hi\n1/1/22, 1:00 - B: x\nmore");
    assert_eq!(chat.participants.len(), 2);
    assert_eq!(find(&chat, "Alice").messages[0].content, "Hi");
    assert_eq!(find(&chat, "B").messages[0].content, "x\nmore");
}

#[test]
fn century_boundary_of_two_digit_years() {
    let chat = parse_whatsapp_chat("1/1/69, 00:00 - Alice: sixty-nine");
    assert_eq!(chat.participants[0].messages[0].timestamp, 3_124_224_000_000);
    let long = parse_whatsapp_chat("1/1/2069, 00:00 - Alice: sixty-nine");
    assert_eq!(long.participants[0].messages[0].timestamp, 3_124_224_000_000);
    let chat = parse_whatsapp_chat("1/1/70, 00:00 - Alice: seventy");
    assert_eq!(chat.participants[0].messages[0].timestamp, 0);
    let long = parse_whatsapp_chat("1/1/1970, 00:00 - Alice: seventy");
    assert_eq!(long.participants[0].messages[0].timestamp, 0);
}

#[test]
fn author_runs_to_first_colon_space() {
    let chat = parse_whatsapp_chat("1/1/22, 10:30 - Dr:Who: time: now");
    assert_eq!(chat.participants[0].name, "Dr:Who");
    assert_eq!(chat.participants[0].messages[0].content, "time: now");
}

#[test]
fn crlf_line_endings() {
    let chat = parse_whatsapp_chat("1/1/22, 10:30 - Alice: one\r\ntwo\r\n1/1/22, 10:31 - Bob: b\r\n");
    assert_eq!(find(&chat, "Alice").messages[0].content, "one\ntwo");
    assert_eq!(find(&chat, "Bob").messages[0].content, "b");
}

#[test]
fn empty_lines_are_kept_in_bodies() {
    let chat = parse_whatsapp_chat("1/1/22, 10:30 - Alice: one\n\ntwo\n");
    assert_eq!(find(&chat, "Alice").messages[0].content, "one\n\ntwo");
}

#[test]
fn reparsing_gives_equal_results() {
    let text = "1/1/22, 10:30 - Alice: a\nb\n1/1/22, 10:31 - Bob: c\n1/1/22, 10:32 - Alice: d";
    let first = parse_whatsapp_chat(text);
    let second = parse_whatsapp_chat(text);
    assert_eq!(first.participants.len(), second.participants.len());
    for (p, q) in first.participants.iter().zip(second.participants.iter()) {
        assert_eq!(p.name, q.name);
        assert_eq!(p.messages.len(), q.messages.len());
        for (m, n) in p.messages.iter().zip(q.messages.iter()) {
            assert_eq!(m.author, n.author);
            assert_eq!(m.content, n.content);
            assert_eq!(m.timestamp, n.timestamp);
        }
    }
}

#[test]
fn year_zero_zero_is_two_thousand() {
    let chat = parse_whatsapp_chat("1/1/00, 00:00 - Alice: new millennium");
    assert_eq!(chat.participants[0].messages[0].timestamp, 946_684_800_000);
}

#[test]
fn root_reexport_parses() {
    let chat: chat_export::ParsedChat = chat_export::parse_whatsapp_chat("1/1/22, 10:30 - Alice: Hi there");
    assert_eq!(chat.participants.len(), 1);
}

#[test]
fn timestamps_follow_date_order() {
    let chat = parse_whatsapp_chat(
        "31/12/21, 23:59 - Alice: late\n1/1/2022, 00:00 - Alice: early\n1/1/22, 00:01 - Alice: next",
    );
    let m = &chat.participants[0].messages;
    assert_eq!(m.len(), 3);
    assert!(m[0].timestamp < m[1].timestamp);
    assert!(m[1].timestamp < m[2].timestamp);
    assert_eq!(m[1].timestamp - m[0].timestamp, 60_000);
}
