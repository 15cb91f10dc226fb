//! Line classifier.
//!
//! Each complete line of the stream is classified as exactly one of three
//! events: a content delta, the end-of-generation sentinel, or an ignorable
//! line.  A line that is not valid UTF-8, lacks the exact `data: ` prefix,
//! or carries a payload that does not conform to the expected JSON shape is
//! ignorable — encoding and payload faults never abort the stream, a
//! deliberate compatibility choice for mixed and non-standard servers.
//! Empty content deltas are filtered: the classifier never produces a
//! zero-length fragment.

use vstd::prelude::*;
use vstd::utf8::decode_utf8;
use vstd::utf8::valid_utf8;

use crate::json::content_of_payload;
use crate::json::opt_chars;
use crate::json::payload_content;
use crate::unicode::is_unicode_ws;
use crate::unicode::is_ws_char;
use crate::unicode::string_from_chars;
use crate::unicode::utf8_to_chars;

verus! {

/// The model of one classified line.
pub enum LineEvent {
    Content(Seq<char>),
    Done,
    Skip,
}

/// One classified line: a content fragment, the end sentinel, or an
/// ignorable line.
pub enum ParsedEvent {
    Content(String),
    Done,
    Skip,
}

impl View for ParsedEvent {
    type V = LineEvent;

    open spec fn view(&self) -> LineEvent {
        match self {
            ParsedEvent::Content(s) => LineEvent::Content(s@),
            ParsedEvent::Done => LineEvent::Done,
            ParsedEvent::Skip => LineEvent::Skip,
        }
    }
}

/// The characters remaining after removing leading whitespace.
pub open spec fn trim_start(s: Seq<char>) -> Seq<char>
    decreases s.len(),
{
    if s.len() > 0 && is_unicode_ws(s[0]) {
        trim_start(s.drop_first())
    } else {
        s
    }
}

/// The characters remaining after removing trailing whitespace.
pub open spec fn trim_end(s: Seq<char>) -> Seq<char>
    decreases s.len(),
{
    if s.len() > 0 && is_unicode_ws(s[s.len() - 1]) {
        trim_end(s.drop_last())
    } else {
        s
    }
}

/// The characters remaining after removing surrounding whitespace.
pub open spec fn trim_ws(s: Seq<char>) -> Seq<char> {
    trim_end(trim_start(s))
}

/// The exact prefix that marks a content-bearing line.
pub open spec fn data_prefix() -> Seq<char> {
    seq!['d', 'a', 't', 'a', ':', ' ']
}

/// The literal end-of-generation sentinel.
pub open spec fn done_sentinel() -> Seq<char> {
    seq!['[', 'D', 'O', 'N', 'E', ']']
}

/// The classification of one raw line.
pub open spec fn classify_line(line: Seq<u8>) -> LineEvent {
    if !valid_utf8(line) {
        LineEvent::Skip
    } else {
        let s = decode_utf8(line);
        if !(s.len() >= 6 && s.subrange(0, 6) == data_prefix()) {
            LineEvent::Skip
        } else {
            let payload = trim_ws(s.subrange(6, s.len() as int));
            if payload == done_sentinel() {
                LineEvent::Done
            } else {
                match content_of_payload(payload) {
                    Some(c) => if c.len() > 0 {
                        LineEvent::Content(c)
                    } else {
                        LineEvent::Skip
                    },
                    None => LineEvent::Skip,
                }
            }
        }
    }
}

/// Removing leading whitespace keeps exactly the suffix from the first
/// non-whitespace character on.
proof fn lemma_trim_start_at(s: Seq<char>, a: int)
    requires
        0 <= a <= s.len(),
        forall|j: int| 0 <= j < a ==> is_unicode_ws(#[trigger] s[j]),
        a == s.len() || !is_unicode_ws(s[a]),
    ensures
        trim_start(s) == s.subrange(a, s.len() as int),
    decreases s.len(),
{
    if a == 0 {
        if s.len() > 0 && is_unicode_ws(s[0]) {
        } else {
            assert(s.subrange(0, s.len() as int) =~= s);
        }
    } else {
        assert(is_unicode_ws(s[0]));
        let t = s.drop_first();
        assert(forall|j: int| 0 <= j < a - 1 ==> is_unicode_ws(#[trigger] t[j]));
        lemma_trim_start_at(t, a - 1);
        assert(t.subrange(a - 1, t.len() as int) =~= s.subrange(a, s.len() as int));
    }
}

/// Removing trailing whitespace keeps exactly the prefix up to the last
/// non-whitespace character.
proof fn lemma_trim_end_at(s: Seq<char>, b: int)
    requires
        0 <= b <= s.len(),
        forall|j: int| b <= j < s.len() ==> is_unicode_ws(#[trigger] s[j]),
        b == 0 || !is_unicode_ws(s[b - 1]),
    ensures
        trim_end(s) == s.subrange(0, b),
    decreases s.len(),
{
    if b == s.len() {
        if s.len() > 0 && is_unicode_ws(s[s.len() - 1]) {
        } else {
            assert(s.subrange(0, b) =~= s);
        }
    } else {
        assert(is_unicode_ws(s[s.len() - 1]));
        let t = s.drop_last();
        assert(forall|j: int| b <= j < t.len() ==> is_unicode_ws(#[trigger] t[j]));
        lemma_trim_end_at(t, b);
        assert(t.subrange(0, b) =~= s.subrange(0, b));
    }
}

/// Classify one raw line.
pub fn classify(line: &[u8]) -> (r: ParsedEvent)
    ensures
        r@ == classify_line(line@),
{
    let cs = match utf8_to_chars(line) {
        Some(cs) => cs,
        None => {
            return ParsedEvent::Skip;
        },
    };
    let sl = cs.as_slice();
    let n = sl.len();
    if !(n >= 6 && sl[0] == 'd' && sl[1] == 'a' && sl[2] == 't' && sl[3] == 'a' && sl[4] == ':'
        && sl[5] == ' ') {
        proof {
            if cs@.len() >= 6 && cs@.subrange(0, 6) == data_prefix() {
                assert(cs@.subrange(0, 6)[0] == cs@[0]);
                assert(cs@.subrange(0, 6)[1] == cs@[1]);
                assert(cs@.subrange(0, 6)[2] == cs@[2]);
                assert(cs@.subrange(0, 6)[3] == cs@[3]);
                assert(cs@.subrange(0, 6)[4] == cs@[4]);
                assert(cs@.subrange(0, 6)[5] == cs@[5]);
            }
        }
        return ParsedEvent::Skip;
    }
    proof {
        assert(cs@.subrange(0, 6) =~= data_prefix());
    }
    // Trim surrounding whitespace from the payload.
    let mut a: usize = 6;
    loop
        invariant
            6 <= a <= n == cs@.len(),
            sl@ == cs@,
            forall|j: int| 6 <= j < a ==> is_unicode_ws(#[trigger] cs@[j]),
        ensures
            6 <= a <= n,
            forall|j: int| 6 <= j < a ==> is_unicode_ws(#[trigger] cs@[j]),
            a == n || !is_unicode_ws(cs@[a as int]),
        decreases n - a,
    {
        if a == n {
            break ;
        }
        if !is_ws_char(sl[a]) {
            break ;
        }
        a = a + 1;
    }
    let mut b: usize = n;
    loop
        invariant
            a <= b <= n == cs@.len(),
            sl@ == cs@,
            forall|j: int| b <= j < n ==> is_unicode_ws(#[trigger] cs@[j]),
        ensures
            a <= b <= n,
            forall|j: int| b <= j < n ==> is_unicode_ws(#[trigger] cs@[j]),
            b == a || !is_unicode_ws(cs@[b - 1]),
        decreases b,
    {
        if b == a {
            break ;
        }
        if !is_ws_char(sl[b - 1]) {
            break ;
        }
        b = b - 1;
    }
    let pl = &sl[a..b];
    proof {
        let tail = cs@.subrange(6, n as int);
        assert(forall|j: int| 0 <= j < a - 6 ==> is_unicode_ws(#[trigger] tail[j]));
        lemma_trim_start_at(tail, a - 6);
        let mid = tail.subrange(a - 6, tail.len() as int);
        assert(mid =~= cs@.subrange(a as int, n as int));
        assert(forall|j: int| b - a <= j < mid.len() ==> is_unicode_ws(#[trigger] mid[j]));
        lemma_trim_end_at(mid, b - a);
        assert(mid.subrange(0, b - a) =~= cs@.subrange(a as int, b as int));
        assert(pl@ == trim_ws(cs@.subrange(6, n as int)));
    }
    if pl.len() == 6 && pl[0] == '[' && pl[1] == 'D' && pl[2] == 'O' && pl[3] == 'N' && pl[4] == 'E'
        && pl[5] == ']' {
        proof {
            assert(pl@ =~= done_sentinel());
        }
        return ParsedEvent::Done;
    }
    proof {
        if pl@ == done_sentinel() {
            assert(pl@[0] == done_sentinel()[0]);
            assert(pl@[1] == done_sentinel()[1]);
            assert(pl@[2] == done_sentinel()[2]);
            assert(pl@[3] == done_sentinel()[3]);
            assert(pl@[4] == done_sentinel()[4]);
            assert(pl@[5] == done_sentinel()[5]);
        }
    }
    match payload_content(pl) {
        Some(cv) => {
            if cv.len() > 0 {
                proof {
                    assert(opt_chars(Some(cv)) == content_of_payload(pl@));
                }
                ParsedEvent::Content(string_from_chars(&cv))
            } else {
                ParsedEvent::Skip
            }
        },
        None => ParsedEvent::Skip,
    }
}

} // verus!
