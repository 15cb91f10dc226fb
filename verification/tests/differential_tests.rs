use ask_anywhere::classify::{classify, ParsedEvent};
use ask_anywhere::decoder::{Decoder, PullResult};

/// Extract the first choice's delta content the way a generic JSON reader
/// would, for cross-checking the crate's own parser.
fn reference_content(payload: &str) -> Option<String> {
    let v: serde_json::Value = serde_json::from_str(payload).ok()?;
    let content = v.get("choices")?.get(0)?.get("delta")?.get("content")?.as_str()?;
    if content.is_empty() {
        None
    } else {
        Some(content.to_string())
    }
}

fn crate_content(payload: &str) -> Option<String> {
    let line = format!("data: {}", payload);
    match classify(line.as_bytes()) {
        ParsedEvent::Content(s) => Some(s),
        _ => None,
    }
}

#[test]
fn escape_decoding_agrees_with_a_generic_json_reader() {
    let payloads = [
        r#"{"choices":[{"delta":{"content":"plain"}}]}"#,
        r#"{"choices":[{"delta":{"content":"tab\there"}}]}"#,
        r#"{"choices":[{"delta":{"content":"quote\"back\\slash\/"}}]}"#,
        r#"{"choices":[{"delta":{"content":"\b\f\n\r\t"}}]}"#,
        r#"{"choices":[{"delta":{"content":"Aéé中文"}}]}"#,
        r#"{"choices":[{"delta":{"content":"😀 pair 🤖"}}]}"#,
        "{\"choices\":[{\"delta\":{\"content\":\"direct caf\u{e9} \u{4e2d}\u{6587} \u{1f600}\"}}]}",
        r#"{"choices":[{"delta":{"content":"mixed AB\nC"}}]}"#,
        r#"{"choices":[{"delta":{"content":""}}]}"#,
        r#"{"choices":[{"delta":{"content":null}}]}"#,
        r#"{"choices":[{"delta":{}}]}"#,
        r#"{"choices":[{"delta":{"content":"x"},"finish_reason":"stop"}]}"#,
        r#"{ "choices" : [ { "delta" : { "content" : "spaced" } } ] }"#,
        r#"{"created":123,"choices":[{"index":0,"delta":{"role":"assistant","content":"later key"}}]}"#,
    ];
    for payload in payloads {
        assert_eq!(
            crate_content(payload),
            reference_content(payload),
            "disagreement on payload: {payload}"
        );
    }
}

#[test]
fn after_the_stream_ends_every_pull_reports_end() {
    let mut d = Decoder::new();
    assert!(matches!(d.pull(), PullResult::NeedInput));
    d.feed_chunk(b"data: [DONE]\n");
    assert!(matches!(d.pull(), PullResult::End));
    assert!(matches!(d.pull(), PullResult::End));
    assert!(matches!(d.pull(), PullResult::End));
}

#[test]
fn after_a_fault_is_reported_every_pull_reports_end() {
    let mut d = Decoder::new();
    assert!(matches!(d.pull(), PullResult::NeedInput));
    d.feed_fault();
    assert!(matches!(d.pull(), PullResult::Fault));
    assert!(matches!(d.pull(), PullResult::End));
    assert!(matches!(d.pull(), PullResult::End));
}
