use ask_anywhere::classify::{classify, ParsedEvent};
use ask_anywhere::frame::FrameBuffer;

fn content_of(line: &[u8]) -> Option<String> {
    match classify(line) {
        ParsedEvent::Content(s) => Some(s),
        _ => None,
    }
}

fn is_done(line: &[u8]) -> bool {
    matches!(classify(line), ParsedEvent::Done)
}

fn is_skip(line: &[u8]) -> bool {
    matches!(classify(line), ParsedEvent::Skip)
}

#[test]
fn content_line_classifies_as_its_text() {
    assert_eq!(
        content_of(b"data: {\"choices\":[{\"delta\":{\"content\":\"Hi\"}}]}"),
        Some("Hi".to_string())
    );
}

#[test]
fn sentinel_classifies_as_done() {
    assert!(is_done(b"data: [DONE]"));
    assert!(is_done(b"data:  [DONE]\r"));
}

#[test]
fn prefix_must_be_exact() {
    assert!(is_skip(b"data:{\"choices\":[{\"delta\":{\"content\":\"x\"}}]}"));
    assert!(is_skip(b"Data: {\"choices\":[{\"delta\":{\"content\":\"x\"}}]}"));
    assert!(is_skip(b"xdata: {\"choices\":[{\"delta\":{\"content\":\"x\"}}]}"));
    assert!(is_skip(b"event: message"));
    assert!(is_skip(b""));
}

#[test]
fn unicode_whitespace_around_the_payload_is_trimmed() {
    // U+00A0 no-break space on both sides of the sentinel.
    let line = "data: \u{a0}[DONE]\u{a0}".as_bytes();
    assert!(is_done(line));
}

#[test]
fn first_duplicate_member_decides() {
    let line =
        b"data: {\"choices\":[{\"delta\":{\"content\":\"first\"}}],\"choices\":[{\"delta\":{\"content\":\"second\"}}]}";
    assert_eq!(content_of(line), Some("first".to_string()));
}

#[test]
fn hex_escapes_accept_both_letter_cases() {
    let line = b"data: {\"choices\":[{\"delta\":{\"content\":\"\\u00E9\\u00e9\"}}]}";
    assert_eq!(content_of(line), Some("\u{e9}\u{e9}".to_string()));
}

#[test]
fn control_characters_must_be_escaped() {
    let line = b"data: {\"choices\":[{\"delta\":{\"content\":\"a\x01b\"}}]}";
    assert!(is_skip(line));
}

#[test]
fn numbers_follow_the_json_grammar() {
    // A leading zero is not a JSON number, so the document is malformed.
    assert!(is_skip(b"data: {\"choices\":[{\"delta\":{\"content\":\"x\"},\"index\":01}]}"));
    // Ordinary integer, fraction and exponent forms are all tolerated.
    assert_eq!(
        content_of(
            b"data: {\"a\":-12,\"b\":0.25,\"c\":3e-2,\"choices\":[{\"delta\":{\"content\":\"x\"}}]}"
        ),
        Some("x".to_string())
    );
}

#[test]
fn finish_reason_must_be_string_or_null() {
    assert!(is_skip(b"data: {\"choices\":[{\"delta\":{\"content\":\"x\"},\"finish_reason\":1}]}"));
    assert_eq!(
        content_of(b"data: {\"choices\":[{\"delta\":{\"content\":\"x\"},\"finish_reason\":\"stop\"}]}"),
        Some("x".to_string())
    );
}

#[test]
fn frame_buffer_extracts_complete_lines_and_keeps_the_rest() {
    let mut fb = FrameBuffer::new();
    fb.append(b"one\ntwo\nthr");
    let lines = fb.extract_lines();
    assert_eq!(lines, vec![b"one".to_vec(), b"two".to_vec()]);
    // The partial line waits for its newline.
    let lines2 = fb.extract_lines();
    assert!(lines2.is_empty());
    fb.append(b"ee\n");
    let lines3 = fb.extract_lines();
    assert_eq!(lines3, vec![b"three".to_vec()]);
}

#[test]
fn frame_buffer_handles_empty_lines_and_empty_chunks() {
    let mut fb = FrameBuffer::new();
    fb.append(b"");
    fb.append(b"\n\na\n");
    let lines = fb.extract_lines();
    assert_eq!(lines, vec![b"".to_vec(), b"".to_vec(), b"a".to_vec()]);
}
