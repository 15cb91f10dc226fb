use ask_anywhere::decoder::{Decoder, PullResult};

/// Drive a fresh decoder over the given chunks, then report end-of-transport
/// (or a fault after the last chunk when `fault` is set).  Returns the
/// fragments in emission order, whether a fault item was observed, and how
/// many fault items were observed.
fn decode(chunks: &[&[u8]], fault: bool) -> (Vec<String>, bool, usize) {
    let mut d = Decoder::new();
    let mut frags: Vec<String> = Vec::new();
    let mut faults: usize = 0;
    let mut next: usize = 0;
    let mut closed = false;
    loop {
        match d.pull() {
            PullResult::Fragment(s) => frags.push(s),
            PullResult::NeedInput => {
                if next < chunks.len() {
                    d.feed_chunk(chunks[next]);
                    next += 1;
                } else if fault {
                    d.feed_fault();
                } else {
                    d.feed_end();
                }
            }
            PullResult::Fault => faults += 1,
            PullResult::End => {
                closed = true;
                break;
            }
        }
    }
    assert!(closed);
    (frags, faults > 0, faults)
}

#[test]
fn single_line_yields_hi_then_graceful_end() {
    let line = b"data: {\"choices\":[{\"delta\":{\"content\":\"Hi\"},\"finish_reason\":null}]}\n";
    let (frags, faulted, _) = decode(&[line], false);
    assert_eq!(frags, vec!["Hi".to_string()]);
    assert!(!faulted);
}

#[test]
fn two_fragments_concatenate_to_hello() {
    let l1 = b"data: {\"choices\":[{\"delta\":{\"content\":\"Hel\"}}]}\n".as_slice();
    let l2 = b"data: {\"choices\":[{\"delta\":{\"content\":\"lo\"}}]}\n".as_slice();
    let (frags, faulted, _) = decode(&[l1, l2], false);
    assert_eq!(frags.len(), 2);
    assert_eq!(frags.concat(), "Hello");
    assert!(!faulted);
}

#[test]
fn done_alone_yields_nothing_gracefully() {
    let (frags, faulted, _) = decode(&[b"data: [DONE]\n"], false);
    assert!(frags.is_empty());
    assert!(!faulted);
}

#[test]
fn invalid_utf8_line_is_skipped_between_valid_lines() {
    let l1 = b"data: {\"choices\":[{\"delta\":{\"content\":\"A\"}}]}\n".as_slice();
    let bad = b"\xff\xfe\xfd\n".as_slice();
    let l2 = b"data: {\"choices\":[{\"delta\":{\"content\":\"B\"}}]}\n".as_slice();
    let (frags, faulted, _) = decode(&[l1, bad, l2], false);
    assert_eq!(frags, vec!["A".to_string(), "B".to_string()]);
    assert!(!faulted);
}

#[test]
fn fault_after_fragments_yields_exactly_one_error() {
    let chunk =
        b"data: {\"choices\":[{\"delta\":{\"content\":\"x\"}}]}\ndata: {\"choices\":[{\"delta\":{\"content\":\"y\"}}]}\n";
    let (frags, faulted, fault_count) = decode(&[chunk], true);
    assert_eq!(frags, vec!["x".to_string(), "y".to_string()]);
    assert!(faulted);
    assert_eq!(fault_count, 1);
}

#[test]
fn chunk_boundaries_do_not_change_the_output() {
    // The same bytes split three ways, including through the middle of a
    // multi-byte character.
    let whole: &[u8] =
        "data: {\"choices\":[{\"delta\":{\"content\":\"caf\u{e9}\"}}]}\ndata: [DONE]\n".as_bytes();
    let (a, af, _) = decode(&[whole], false);
    let mid = 30;
    let (b, bf, _) = decode(&[&whole[..mid], &whole[mid..]], false);
    let singles: Vec<&[u8]> = whole.chunks(1).collect();
    let (c, cf, _) = decode(&singles, false);
    assert_eq!(a, vec!["caf\u{e9}".to_string()]);
    assert_eq!(a, b);
    assert_eq!(a, c);
    assert!(!af && !bf && !cf);
}

#[test]
fn redecoding_is_deterministic() {
    let chunk =
        b"data: {\"choices\":[{\"delta\":{\"content\":\"one\"}}]}\ndata: {\"choices\":[{\"delta\":{\"content\":\"two\"}}]}\n";
    let (a, _, _) = decode(&[chunk], false);
    let (b, _, _) = decode(&[chunk], false);
    assert_eq!(a, b);
    assert_eq!(a, vec!["one".to_string(), "two".to_string()]);
}

#[test]
fn content_after_done_in_same_chunk_is_still_emitted() {
    let chunk = b"data: [DONE]\ndata: {\"choices\":[{\"delta\":{\"content\":\"late\"}}]}\n";
    let (frags, faulted, _) = decode(&[chunk], false);
    assert_eq!(frags, vec!["late".to_string()]);
    assert!(!faulted);
}

#[test]
fn empty_content_is_filtered() {
    let chunk = b"data: {\"choices\":[{\"delta\":{\"content\":\"\"}}]}\n";
    let (frags, faulted, _) = decode(&[chunk], false);
    assert!(frags.is_empty());
    assert!(!faulted);
}

#[test]
fn null_and_absent_content_are_skipped() {
    let l1 = b"data: {\"choices\":[{\"delta\":{\"content\":null}}]}\n".as_slice();
    let l2 = b"data: {\"choices\":[{\"delta\":{\"role\":\"assistant\"}}]}\n".as_slice();
    let (frags, _, _) = decode(&[l1, l2], false);
    assert!(frags.is_empty());
}

#[test]
fn non_data_lines_are_skipped() {
    let chunks = b"event: ping\n\nid: 7\ndata:{\"choices\":[{\"delta\":{\"content\":\"no-space\"}}]}\ndata: {\"choices\":[{\"delta\":{\"content\":\"ok\"}}]}\n";
    let (frags, _, _) = decode(&[chunks], false);
    // The line without the exact `data: ` prefix is ignorable too.
    assert_eq!(frags, vec!["ok".to_string()]);
}

#[test]
fn line_spanning_three_chunks_is_reassembled() {
    let whole = b"data: {\"choices\":[{\"delta\":{\"content\":\"split\"}}]}\n";
    let (frags, _, _) = decode(&[&whole[..10], &whole[10..20], &whole[20..]], false);
    assert_eq!(frags, vec!["split".to_string()]);
}

#[test]
fn escapes_in_content_are_decoded() {
    let chunk = b"data: {\"choices\":[{\"delta\":{\"content\":\"a\\nb\\u0041\\\\\"}}]}\n";
    let (frags, _, _) = decode(&[chunk], false);
    assert_eq!(frags, vec!["a\nbA\\".to_string()]);
}

#[test]
fn surrogate_pair_escape_decodes_to_one_character() {
    let chunk = b"data: {\"choices\":[{\"delta\":{\"content\":\"\\ud83d\\ude00\"}}]}\n";
    let (frags, _, _) = decode(&[chunk], false);
    assert_eq!(frags, vec!["\u{1f600}".to_string()]);
}

#[test]
fn lone_surrogate_escape_makes_the_line_ignorable() {
    let l1 = b"data: {\"choices\":[{\"delta\":{\"content\":\"\\ud83d\"}}]}\n".as_slice();
    let l2 = b"data: {\"choices\":[{\"delta\":{\"content\":\"fine\"}}]}\n".as_slice();
    let (frags, _, _) = decode(&[l1, l2], false);
    assert_eq!(frags, vec!["fine".to_string()]);
}

#[test]
fn carriage_return_before_newline_is_trimmed() {
    let chunk = b"data: {\"choices\":[{\"delta\":{\"content\":\"crlf\"}}]}\r\ndata: [DONE]\r\n";
    let (frags, faulted, _) = decode(&[chunk], false);
    assert_eq!(frags, vec!["crlf".to_string()]);
    assert!(!faulted);
}

#[test]
fn unknown_fields_and_numbers_are_tolerated() {
    let chunk = b"data: {\"id\":\"c-1\",\"created\":1736899200,\"model\":\"m\",\"usage\":{\"total_tokens\":1.5e2},\"choices\":[{\"index\":0,\"delta\":{\"content\":\"tok\",\"role\":\"assistant\"},\"finish_reason\":\"stop\",\"logprobs\":null}],\"extra\":[true,false,null,-0.5]}\n";
    let (frags, _, _) = decode(&[chunk], false);
    assert_eq!(frags, vec!["tok".to_string()]);
}

#[test]
fn malformed_payloads_are_skipped_not_fatal() {
    let bad1 = b"data: {\"choices\":[{\"delta\":{\"content\":\"x\"}}]}garbage\n".as_slice();
    let bad2 = b"data: {\"choices\":\"not-an-array\"}\n".as_slice();
    let bad3 = b"data: [1,2,3]\n".as_slice();
    let bad4 = b"data: {\"nochoices\":1}\n".as_slice();
    let bad5 = b"data: {\"choices\":[{\"nodelta\":1}]}\n".as_slice();
    let bad6 = b"data: {\"choices\":[{\"delta\":{\"content\":42}}]}\n".as_slice();
    let ok = b"data: {\"choices\":[{\"delta\":{\"content\":\"ok\"}}]}\n".as_slice();
    let (frags, faulted, _) = decode(&[bad1, bad2, bad3, bad4, bad5, bad6, ok], false);
    assert_eq!(frags, vec!["ok".to_string()]);
    assert!(!faulted);
}

#[test]
fn malformed_sibling_choice_makes_the_line_ignorable() {
    let chunk =
        b"data: {\"choices\":[{\"delta\":{\"content\":\"first\"}},{\"nodelta\":true}]}\n";
    let (frags, _, _) = decode(&[chunk], false);
    assert!(frags.is_empty());
}

#[test]
fn empty_choices_array_is_skipped() {
    let (frags, _, _) = decode(&[b"data: {\"choices\":[]}\n"], false);
    assert!(frags.is_empty());
}

#[test]
fn bytes_without_newline_yield_nothing() {
    let (frags, faulted, _) = decode(&[b"data: {\"choices\":[{\"delta\":{\"content\":\"unfinished\"}}]}"], false);
    assert!(frags.is_empty());
    assert!(!faulted);
}

#[test]
fn payload_whitespace_is_trimmed_before_sentinel_check() {
    let (frags, faulted, _) = decode(&[b"data:  [DONE] \n"], false);
    assert!(frags.is_empty());
    assert!(!faulted);
}
