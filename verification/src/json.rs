//! The JSON payload of a content line.
//!
//! A `data:` line carries one JSON document of the shape
//! `{"choices":[{"delta":{"content":"..."},"finish_reason":null}]}`; unknown
//! members anywhere are permitted and ignored, `content` and `finish_reason`
//! may each be a string, `null`, or absent, and the text delivered to the
//! consumer is the `content` of the first choice.  This module defines that
//! grammar as a mathematical model — a recursive-descent parser over
//! character sequences producing a [`JsonVal`] — and a verified executable
//! extractor proven to return exactly the content the model assigns.
//!
//! Numbers are validated against the JSON grammar but their value is never
//! read, so the model records only that a number stood there.  When an object
//! repeats a key, the first occurrence decides; later duplicates must still
//! be well-formed JSON but their shape is not constrained.

use vstd::prelude::*;
use vstd::utf8::char_u32_cast;
use vstd::utf8::is_scalar;

use crate::unicode::char_from_u32;

verus! {

/// The model of a parsed JSON value.
pub enum JsonVal {
    Null,
    Bool(bool),
    Num,
    Str(Seq<char>),
    Arr(Seq<JsonVal>),
    Obj(Seq<(Seq<char>, JsonVal)>),
}

/// JSON inter-token whitespace: space, tab, line feed, carriage return.
pub open spec fn json_ws(c: char) -> bool {
    let u = c as u32;
    u == 0x20 || u == 0x09 || u == 0x0A || u == 0x0D
}

/// First index at or after `i` that does not hold JSON whitespace.
pub open spec fn skip_ws(s: Seq<char>, i: int) -> int
    decreases s.len() - i,
        when 0 <= i <= s.len()
{
    if i < s.len() && json_ws(s[i]) {
        skip_ws(s, i + 1)
    } else {
        i
    }
}

pub proof fn lemma_skip_ws(s: Seq<char>, i: int)
    requires
        0 <= i <= s.len(),
    ensures
        i <= skip_ws(s, i) <= s.len(),
    decreases s.len() - i,
{
    if i < s.len() && json_ws(s[i]) {
        lemma_skip_ws(s, i + 1);
    }
}

/// A decimal digit.
pub open spec fn is_digit(c: char) -> bool {
    0x30 <= c as u32 <= 0x39
}

/// First index at or after `i` that does not hold a digit.
pub open spec fn digits_end(s: Seq<char>, i: int) -> int
    decreases s.len() - i,
        when 0 <= i <= s.len()
{
    if i < s.len() && is_digit(s[i]) {
        digits_end(s, i + 1)
    } else {
        i
    }
}

pub proof fn lemma_digits_end(s: Seq<char>, i: int)
    requires
        0 <= i <= s.len(),
    ensures
        i <= digits_end(s, i) <= s.len(),
    decreases s.len() - i,
{
    if i < s.len() && is_digit(s[i]) {
        lemma_digits_end(s, i + 1);
    }
}

/// Value of one hexadecimal digit, upper or lower case.
pub open spec fn hex_val(c: char) -> Option<u32> {
    let u = c as u32;
    if 0x30 <= u <= 0x39 {
        Some((u - 0x30) as u32)
    } else if 0x61 <= u <= 0x66 {
        Some((u - 0x61 + 10) as u32)
    } else if 0x41 <= u <= 0x46 {
        Some((u - 0x41 + 10) as u32)
    } else {
        None
    }
}

/// Value of the four hexadecimal digits starting at `i`.
pub open spec fn hex4(s: Seq<char>, i: int) -> Option<u32> {
    if 0 <= i && i + 4 <= s.len() {
        match (hex_val(s[i]), hex_val(s[i + 1]), hex_val(s[i + 2]), hex_val(s[i + 3])) {
            (Some(a), Some(b), Some(c), Some(d)) => Some(
                (a * 0x1000 + b * 0x100 + c * 0x10 + d) as u32,
            ),
            _ => None,
        }
    } else {
        None
    }
}

/// The characters of a string body starting at `i` (the position just after
/// the opening quote), together with the position just after the closing
/// quote.  Escapes are decoded; a `\u` escape in the surrogate range must be
/// a well-formed high/low pair and decodes to the single character the pair
/// designates.  Unescaped control characters are rejected.
pub open spec fn sp_str_body(s: Seq<char>, i: int) -> Option<(Seq<char>, int)>
    decreases s.len() - i,
        when 0 <= i <= s.len()
{
    if i >= s.len() {
        None
    } else if s[i] == '"' {
        Some((Seq::empty(), i + 1))
    } else if s[i] == '\\' {
        let j = i + 1;
        if j >= s.len() {
            None
        } else {
            let e = s[j];
            if e == '"' || e == '\\' || e == '/' {
                match sp_str_body(s, j + 1) {
                    Some((v, end)) => Some((seq![e] + v, end)),
                    None => None,
                }
            } else if e == 'b' || e == 'f' || e == 'n' || e == 'r' || e == 't' {
                let ec: char = if e == 'b' {
                    '\u{8}'
                } else if e == 'f' {
                    '\u{c}'
                } else if e == 'n' {
                    '\n'
                } else if e == 'r' {
                    '\r'
                } else {
                    '\t'
                };
                match sp_str_body(s, j + 1) {
                    Some((v, end)) => Some((seq![ec] + v, end)),
                    None => None,
                }
            } else if e == 'u' {
                match hex4(s, j + 1) {
                    None => None,
                    Some(h) => if 0xD800 <= h && h <= 0xDBFF {
                        // A high surrogate must be followed by an escaped low
                        // surrogate; the pair designates one character.
                        if j + 11 <= s.len() && s[j + 5] == '\\' && s[j + 6] == 'u' {
                            match hex4(s, j + 7) {
                                None => None,
                                Some(l) => if 0xDC00 <= l && l <= 0xDFFF {
                                    let cp = (0x10000 + (h - 0xD800) * 0x400 + (l
                                        - 0xDC00)) as u32;
                                    match sp_str_body(s, j + 11) {
                                        Some((v, end)) => Some((seq![cp as char] + v, end)),
                                        None => None,
                                    }
                                } else {
                                    None
                                },
                            }
                        } else {
                            None
                        }
                    } else if 0xDC00 <= h && h <= 0xDFFF {
                        // A lone low surrogate designates no character.
                        None
                    } else {
                        match sp_str_body(s, j + 5) {
                            Some((v, end)) => Some((seq![h as char] + v, end)),
                            None => None,
                        }
                    },
                }
            } else {
                None
            }
        }
    } else if (s[i] as u32) < 0x20 {
        None
    } else {
        match sp_str_body(s, i + 1) {
            Some((v, end)) => Some((seq![s[i]] + v, end)),
            None => None,
        }
    }
}

/// A string token at `i`: its decoded characters and the position after it.
pub open spec fn sp_string(s: Seq<char>, i: int) -> Option<(Seq<char>, int)> {
    if 0 <= i < s.len() && s[i] == '"' {
        sp_str_body(s, i + 1)
    } else {
        None
    }
}

/// End of the optional fraction part beginning at `k`.
pub open spec fn sp_frac(s: Seq<char>, k: int) -> Option<int> {
    if 0 <= k < s.len() && s[k] == '.' {
        if k + 1 <= s.len() && digits_end(s, k + 1) > k + 1 {
            Some(digits_end(s, k + 1))
        } else {
            None
        }
    } else {
        Some(k)
    }
}

/// End of the optional exponent part beginning at `k`.
pub open spec fn sp_exp(s: Seq<char>, k: int) -> Option<int> {
    if 0 <= k < s.len() && (s[k] == 'e' || s[k] == 'E') {
        let m = if k + 1 < s.len() && (s[k + 1] == '+' || s[k + 1] == '-') {
            k + 2
        } else {
            k + 1
        };
        if m <= s.len() && digits_end(s, m) > m {
            Some(digits_end(s, m))
        } else {
            None
        }
    } else {
        Some(k)
    }
}

/// A number token at `i`: the position after it.  Its value is never read.
pub open spec fn sp_number(s: Seq<char>, i: int) -> Option<int> {
    if 0 <= i <= s.len() {
        let j = if i < s.len() && s[i] == '-' {
            i + 1
        } else {
            i
        };
        if j < s.len() && is_digit(s[j]) {
            let k = if s[j] == '0' {
                j + 1
            } else {
                digits_end(s, j)
            };
            match sp_frac(s, k) {
                None => None,
                Some(k2) => sp_exp(s, k2),
            }
        } else {
            None
        }
    } else {
        None
    }
}

/// True when the characters `t` stand at position `i` of `s`.
pub open spec fn matches_at(s: Seq<char>, i: int, t: Seq<char>) -> bool {
    0 <= i && i + t.len() <= s.len() && s.subrange(i, i + t.len() as int) == t
}

pub open spec fn lit_true() -> Seq<char> {
    seq!['t', 'r', 'u', 'e']
}

pub open spec fn lit_false() -> Seq<char> {
    seq!['f', 'a', 'l', 's', 'e']
}

pub open spec fn lit_null() -> Seq<char> {
    seq!['n', 'u', 'l', 'l']
}

/// A JSON value at `i`: its model and the position after it.
pub open spec fn sp_value(s: Seq<char>, i: int) -> Option<(JsonVal, int)>
    decreases s.len() - i, 1int,
        when 0 <= i <= s.len()
{
    if i >= s.len() {
        None
    } else if s[i] == '"' {
        match sp_string(s, i) {
            Some((v, e)) => Some((JsonVal::Str(v), e)),
            None => None,
        }
    } else if s[i] == '{' {
        match sp_members(s, i + 1, true) {
            Some((ms, e)) => Some((JsonVal::Obj(ms), e)),
            None => None,
        }
    } else if s[i] == '[' {
        match sp_elements(s, i + 1, true) {
            Some((vs, e)) => Some((JsonVal::Arr(vs), e)),
            None => None,
        }
    } else if s[i] == 't' {
        if matches_at(s, i, lit_true()) {
            Some((JsonVal::Bool(true), i + 4))
        } else {
            None
        }
    } else if s[i] == 'f' {
        if matches_at(s, i, lit_false()) {
            Some((JsonVal::Bool(false), i + 5))
        } else {
            None
        }
    } else if s[i] == 'n' {
        if matches_at(s, i, lit_null()) {
            Some((JsonVal::Null, i + 4))
        } else {
            None
        }
    } else if s[i] == '-' || is_digit(s[i]) {
        match sp_number(s, i) {
            Some(e) => Some((JsonVal::Num, e)),
            None => None,
        }
    } else {
        None
    }
}

/// The members of an object, starting just after `{` (when `first`) or just
/// after a separating comma (otherwise), up to and including the closing
/// `}`.  The bound guards on intermediate positions always hold (every token
/// moves the position forward); they make termination evident.
pub open spec fn sp_members(s: Seq<char>, i: int, first: bool) -> Option<
    (Seq<(Seq<char>, JsonVal)>, int),
>
    decreases s.len() - i, 2int,
        when 0 <= i <= s.len()
{
    let j = skip_ws(s, i);
    if !(i <= j <= s.len()) {
        None
    } else if j < s.len() && s[j] == '}' && first {
        Some((Seq::empty(), j + 1))
    } else if j < s.len() && s[j] == '"' {
        match sp_string(s, j) {
            None => None,
            Some((key, k)) => if k <= s.len() {
                let m = skip_ws(s, k);
                if k <= m && m < s.len() && s[m] == ':' {
                    let v0 = skip_ws(s, m + 1);
                    if i < v0 <= s.len() {
                        match sp_value(s, v0) {
                            None => None,
                            Some((val, e)) => if i <= e <= s.len() {
                                let f = skip_ws(s, e);
                                if i <= f && f < s.len() && s[f] == ',' {
                                    match sp_members(s, f + 1, false) {
                                        None => None,
                                        Some((rest, e2)) => Some(
                                            (seq![(key, val)] + rest, e2),
                                        ),
                                    }
                                } else if f < s.len() && s[f] == '}' {
                                    Some((seq![(key, val)], f + 1))
                                } else {
                                    None
                                }
                            } else {
                                None
                            },
                        }
                    } else {
                        None
                    }
                } else {
                    None
                }
            } else {
                None
            },
        }
    } else {
        None
    }
}

/// The elements of an array, starting just after `[` (when `first`) or just
/// after a separating comma (otherwise), up to and including the closing `]`.
pub open spec fn sp_elements(s: Seq<char>, i: int, first: bool) -> Option<(Seq<JsonVal>, int)>
    decreases s.len() - i, 2int,
        when 0 <= i <= s.len()
{
    let j = skip_ws(s, i);
    if !(i <= j <= s.len()) {
        None
    } else if j < s.len() && s[j] == ']' && first {
        Some((Seq::empty(), j + 1))
    } else {
        match sp_value(s, j) {
            None => None,
            Some((val, e)) => if i <= e <= s.len() {
                let f = skip_ws(s, e);
                if i <= f && f < s.len() && s[f] == ',' {
                    match sp_elements(s, f + 1, false) {
                        None => None,
                        Some((rest, e2)) => Some((seq![val] + rest, e2)),
                    }
                } else if f < s.len() && s[f] == ']' {
                    Some((seq![val], f + 1))
                } else {
                    None
                }
            } else {
                None
            },
        }
    }
}

/// The whole payload as one JSON value: leading and trailing whitespace
/// allowed, nothing else before or after.
pub open spec fn parse_payload(s: Seq<char>) -> Option<JsonVal> {
    let i0 = skip_ws(s, 0);
    if 0 <= i0 <= s.len() {
        match sp_value(s, i0) {
            None => None,
            Some((v, e)) => if 0 <= e <= s.len() && skip_ws(s, e) == s.len() {
                Some(v)
            } else {
                None
            },
        }
    } else {
        None
    }
}

pub open spec fn key_choices() -> Seq<char> {
    seq!['c', 'h', 'o', 'i', 'c', 'e', 's']
}

pub open spec fn key_delta() -> Seq<char> {
    seq!['d', 'e', 'l', 't', 'a']
}

pub open spec fn key_content() -> Seq<char> {
    seq!['c', 'o', 'n', 't', 'e', 'n', 't']
}

pub open spec fn key_finish() -> Seq<char> {
    seq!['f', 'i', 'n', 'i', 's', 'h', '_', 'r', 'e', 'a', 's', 'o', 'n']
}

/// The value of the first member named `key`, if any.
pub open spec fn lookup(ms: Seq<(Seq<char>, JsonVal)>, key: Seq<char>) -> Option<JsonVal>
    decreases ms.len(),
{
    if ms.len() == 0 {
        None
    } else if ms[0].0 == key {
        Some(ms[0].1)
    } else {
        lookup(ms.drop_first(), key)
    }
}

/// The content a delta object carries: `Some(Some(text))` for a string
/// member, `Some(None)` when `content` is absent or `null`, and `None` when
/// `content` has any other type (a malformed delta).
pub open spec fn delta_members_content(dm: Seq<(Seq<char>, JsonVal)>) -> Option<
    Option<Seq<char>>,
> {
    match lookup(dm, key_content()) {
        None => Some(None),
        Some(JsonVal::Str(c)) => Some(Some(c)),
        Some(JsonVal::Null) => Some(None),
        Some(_) => None,
    }
}

/// The content a choice object carries through its required `delta` member;
/// `None` when the choice is malformed (no `delta`, or `delta` not an
/// object, or a malformed content member).
pub open spec fn choice_members_content(m: Seq<(Seq<char>, JsonVal)>) -> Option<
    Option<Seq<char>>,
> {
    match lookup(m, key_delta()) {
        Some(JsonVal::Obj(dm)) => delta_members_content(dm),
        _ => None,
    }
}

/// `finish_reason`, when present, must be a string or `null`.
pub open spec fn finish_ok(m: Seq<(Seq<char>, JsonVal)>) -> bool {
    match lookup(m, key_finish()) {
        None => true,
        Some(f) => f is Str || f is Null,
    }
}

/// A well-formed choice: an object with a `delta` object inside, whose
/// `content` and `finish_reason`, where present, have the expected types.
pub open spec fn is_choice(v: JsonVal) -> bool {
    match v {
        JsonVal::Obj(m) => choice_members_content(m) is Some && finish_ok(m),
        _ => false,
    }
}

/// The content of a well-formed choice.
pub open spec fn delta_content(v: JsonVal) -> Option<Seq<char>>
    recommends
        is_choice(v),
{
    match v {
        JsonVal::Obj(m) => match choice_members_content(m) {
            Some(c) => c,
            None => None,
        },
        _ => None,
    }
}

/// Every element of the choices array is a well-formed choice.
pub open spec fn all_choices_ok(cs: Seq<JsonVal>) -> bool {
    forall|k: int| 0 <= k < cs.len() ==> is_choice(#[trigger] cs[k])
}

/// The content the whole document carries: the document must be an object
/// whose `choices` member is an array of well-formed choices; the text is
/// the content of the first choice, and an empty array carries none.
pub open spec fn response_content(v: JsonVal) -> Option<Seq<char>> {
    match v {
        JsonVal::Obj(ms) => match lookup(ms, key_choices()) {
            Some(JsonVal::Arr(cs)) => if all_choices_ok(cs) && cs.len() > 0 {
                delta_content(cs[0])
            } else {
                None
            },
            _ => None,
        },
        _ => None,
    }
}

/// The text fragment a payload carries, if it parses and conforms.
pub open spec fn content_of_payload(s: Seq<char>) -> Option<Seq<char>> {
    match parse_payload(s) {
        None => None,
        Some(v) => response_content(v),
    }
}

// ---------------------------------------------------------------------------
// Executable parser, verified against the model above.
// ---------------------------------------------------------------------------
/// Advance past JSON whitespace.
fn p_skip_ws(s: &[char], i: usize) -> (r: usize)
    requires
        i <= s@.len(),
    ensures
        r == skip_ws(s@, i as int),
        i <= r <= s@.len(),
{
    let n = s.len();
    let mut k: usize = i;
    loop
        invariant
            i <= k <= n == s@.len(),
            skip_ws(s@, i as int) == skip_ws(s@, k as int),
        ensures
            i <= k <= s@.len(),
            k == skip_ws(s@, i as int),
        decreases s@.len() - k,
    {
        if k == n {
            break ;
        }
        let u = s[k] as u32;
        if !(u == 0x20 || u == 0x09 || u == 0x0A || u == 0x0D) {
            break ;
        }
        k = k + 1;
    }
    k
}

/// Advance past decimal digits.
fn p_digits_end(s: &[char], i: usize) -> (r: usize)
    requires
        i <= s@.len(),
    ensures
        r == digits_end(s@, i as int),
        i <= r <= s@.len(),
{
    let n = s.len();
    let mut k: usize = i;
    loop
        invariant
            i <= k <= n == s@.len(),
            digits_end(s@, i as int) == digits_end(s@, k as int),
        ensures
            i <= k <= s@.len(),
            k == digits_end(s@, i as int),
        decreases s@.len() - k,
    {
        if k == n {
            break ;
        }
        let u = s[k] as u32;
        if !(0x30 <= u && u <= 0x39) {
            break ;
        }
        k = k + 1;
    }
    k
}

/// Decide [`hex_val`].
fn p_hex_val(c: char) -> (r: Option<u32>)
    ensures
        r == hex_val(c),
{
    let u = c as u32;
    if 0x30 <= u && u <= 0x39 {
        Some(u - 0x30)
    } else if 0x61 <= u && u <= 0x66 {
        Some(u - 0x61 + 10)
    } else if 0x41 <= u && u <= 0x46 {
        Some(u - 0x41 + 10)
    } else {
        None
    }
}

/// Decide [`hex4`].
fn p_hex4(s: &[char], i: usize) -> (r: Option<u32>)
    requires
        i <= s@.len(),
    ensures
        r == hex4(s@, i as int),
{
    if s.len() - i >= 4 {
        let a = p_hex_val(s[i]);
        let b = p_hex_val(s[i + 1]);
        let c = p_hex_val(s[i + 2]);
        let d = p_hex_val(s[i + 3]);
        match (a, b, c, d) {
            (Some(a), Some(b), Some(c), Some(d)) => {
                proof {
                    assert(a <= 15 && b <= 15 && c <= 15 && d <= 15);
                }
                Some(a * 0x1000 + b * 0x100 + c * 0x10 + d)
            },
            _ => None,
        }
    } else {
        None
    }
}

/// One step of the string-body scan: consuming one source construct that
/// contributes `ch` advances the already-decoded prefix.
proof fn lemma_str_body_step(s: Seq<char>, i: int, cur: int, ch: char, nxt: int, accp: Seq<char>)
    requires
        sp_str_body(s, cur) == (match sp_str_body(s, nxt) {
            Some((v, e)) => Some((seq![ch] + v, e)),
            None => None::<(Seq<char>, int)>,
        }),
        match sp_str_body(s, cur) {
            Some((v, e)) => sp_str_body(s, i) == Some((accp + v, e)),
            None => sp_str_body(s, i) is None,
        },
    ensures
        match sp_str_body(s, nxt) {
            Some((v, e)) => sp_str_body(s, i) == Some((accp.push(ch) + v, e)),
            None => sp_str_body(s, i) is None,
        },
{
    match sp_str_body(s, nxt) {
        Some((v, e)) => {
            assert(accp + (seq![ch] + v) =~= accp.push(ch) + v);
        },
        None => {},
    }
}

/// Scan and decode a string body (after the opening quote).
fn p_str_body(s: &[char], i: usize) -> (r: Option<(Vec<char>, usize)>)
    requires
        i <= s@.len(),
    ensures
        ({
            match sp_str_body(s@, i as int) {
                Some((v, e)) => r matches Some((cs, ee)) && cs@ == v && ee == e && i < ee
                    <= s@.len(),
                None => r is None,
            }
        }),
{
    let n = s.len();
    let mut cur: usize = i;
    let mut acc: Vec<char> = Vec::new();
    loop
        invariant
            i <= cur <= n == s@.len(),
            ({
                match sp_str_body(s@, cur as int) {
                    Some((v, e)) => sp_str_body(s@, i as int) == Some((acc@ + v, e)),
                    None => sp_str_body(s@, i as int) is None,
                }
            }),
        decreases s@.len() - cur,
    {
        if cur == n {
            return None;
        }
        let c = s[cur];
        if c == '"' {
            proof {
                assert(acc@ + Seq::<char>::empty() =~= acc@);
            }
            return Some((acc, cur + 1));
        }
        if c == '\\' {
            let j = cur + 1;
            if j == n {
                return None;
            }
            let e = s[j];
            let ghost accp: Seq<char> = acc@;
            if e == '"' || e == '\\' || e == '/' {
                acc.push(e);
                proof {
                    lemma_str_body_step(s@, i as int, cur as int, e, j + 1, accp);
                }
                cur = j + 1;
            } else if e == 'b' {
                acc.push('\u{8}');
                proof {
                    lemma_str_body_step(s@, i as int, cur as int, '\u{8}', j + 1, accp);
                }
                cur = j + 1;
            } else if e == 'f' {
                acc.push('\u{c}');
                proof {
                    lemma_str_body_step(s@, i as int, cur as int, '\u{c}', j + 1, accp);
                }
                cur = j + 1;
            } else if e == 'n' {
                acc.push('\n');
                proof {
                    lemma_str_body_step(s@, i as int, cur as int, '\n', j + 1, accp);
                }
                cur = j + 1;
            } else if e == 'r' {
                acc.push('\r');
                proof {
                    lemma_str_body_step(s@, i as int, cur as int, '\r', j + 1, accp);
                }
                cur = j + 1;
            } else if e == 't' {
                acc.push('\t');
                proof {
                    lemma_str_body_step(s@, i as int, cur as int, '\t', j + 1, accp);
                }
                cur = j + 1;
            } else if e == 'u' {
                let h = match p_hex4(s, j + 1) {
                    Some(h) => h,
                    None => {
                        return None;
                    },
                };
                if 0xd800 <= h && h <= 0xdbff {
                    if n - j >= 11 && s[j + 5] == '\\' && s[j + 6] == 'u' {
                        let l = match p_hex4(s, j + 7) {
                            Some(l) => l,
                            None => {
                                return None;
                            },
                        };
                        if 0xdc00 <= l && l <= 0xdfff {
                            let cp = 0x10000 + (h - 0xd800) * 0x400 + (l - 0xdc00);
                            proof {
                                assert(is_scalar(cp));
                            }
                            let ch = match char_from_u32(cp) {
                                Some(ch) => ch,
                                None => {
                                    proof {
                                        assert(false);
                                    }
                                    return None;
                                },
                            };
                            proof {
                                char_u32_cast(ch, cp);
                            }
                            acc.push(ch);
                            proof {
                                lemma_str_body_step(s@, i as int, cur as int, ch, j + 11, accp);
                            }
                            cur = j + 11;
                        } else {
                            return None;
                        }
                    } else {
                        return None;
                    }
                } else if 0xdc00 <= h && h <= 0xdfff {
                    return None;
                } else {
                    proof {
                        assert(is_scalar(h));
                    }
                    let ch = match char_from_u32(h) {
                        Some(ch) => ch,
                        None => {
                            proof {
                                assert(false);
                            }
                            return None;
                        },
                    };
                    proof {
                        char_u32_cast(ch, h);
                    }
                    acc.push(ch);
                    proof {
                        lemma_str_body_step(s@, i as int, cur as int, ch, j + 5, accp);
                    }
                    cur = j + 5;
                }
            } else {
                return None;
            }
        } else if (c as u32) < 0x20 {
            return None;
        } else {
            let ghost accp: Seq<char> = acc@;
            acc.push(c);
            proof {
                lemma_str_body_step(s@, i as int, cur as int, c, cur + 1, accp);
            }
            cur = cur + 1;
        }
    }
}

/// Scan and decode a string token.
fn p_string(s: &[char], i: usize) -> (r: Option<(Vec<char>, usize)>)
    requires
        i <= s@.len(),
    ensures
        ({
            match sp_string(s@, i as int) {
                Some((v, e)) => r matches Some((cs, ee)) && cs@ == v && ee == e && i < ee
                    <= s@.len(),
                None => r is None,
            }
        }),
{
    if i < s.len() && s[i] == '"' {
        p_str_body(s, i + 1)
    } else {
        None
    }
}

/// Scan a number token.
fn p_number_end(s: &[char], i: usize) -> (r: Option<usize>)
    requires
        i <= s@.len(),
    ensures
        ({
            match sp_number(s@, i as int) {
                Some(e) => r matches Some(p) && p == e && i < p <= s@.len(),
                None => r is None,
            }
        }),
{
    let n = s.len();
    let j = if i < n && s[i] == '-' {
        i + 1
    } else {
        i
    };
    if !(j < n) {
        return None;
    }
    let u = s[j] as u32;
    if !(0x30 <= u && u <= 0x39) {
        return None;
    }
    let k = if s[j] == '0' {
        j + 1
    } else {
        p_digits_end(s, j)
    };
    proof {
        if s@[j as int] != '0' {
            assert(digits_end(s@, j as int) == digits_end(s@, j as int + 1));
            lemma_digits_end(s@, j as int + 1);
        }
    }
    let k2 = if k < n && s[k] == '.' {
        let d = p_digits_end(s, k + 1);
        if d > k + 1 {
            d
        } else {
            return None;
        }
    } else {
        k
    };
    if k2 < n && (s[k2] == 'e' || s[k2] == 'E') {
        let m = if k2 + 1 < n && (s[k2 + 1] == '+' || s[k2 + 1] == '-') {
            k2 + 2
        } else {
            k2 + 1
        };
        let d = p_digits_end(s, m);
        if d > m {
            Some(d)
        } else {
            None
        }
    } else {
        Some(k2)
    }
}

/// Scan any JSON value, returning only the position after it.
fn p_skip_value(s: &[char], i: usize) -> (r: Option<usize>)
    requires
        i <= s@.len(),
    ensures
        ({
            match sp_value(s@, i as int) {
                Some((v, e)) => r matches Some(p) && p == e && i < p <= s@.len(),
                None => r is None,
            }
        }),
    decreases s@.len() - i, 1int,
{
    let n = s.len();
    if i >= n {
        return None;
    }
    let c = s[i];
    let u = c as u32;
    if c == '"' {
        match p_string(s, i) {
            Some((_, e)) => Some(e),
            None => None,
        }
    } else if c == '{' {
        p_members_skip(s, i + 1, true)
    } else if c == '[' {
        p_elements_skip(s, i + 1, true)
    } else if c == 't' {
        if n - i >= 4 && s[i + 1] == 'r' && s[i + 2] == 'u' && s[i + 3] == 'e' {
            proof {
                assert(s@.subrange(i as int, i as int + 4) =~= lit_true());
            }
            Some(i + 4)
        } else {
            proof {
                if matches_at(s@, i as int, lit_true()) {
                    assert(s@.subrange(i as int, i as int + 4)[1] == s@[i as int + 1]);
                    assert(s@.subrange(i as int, i as int + 4)[2] == s@[i as int + 2]);
                    assert(s@.subrange(i as int, i as int + 4)[3] == s@[i as int + 3]);
                }
            }
            None
        }
    } else if c == 'f' {
        if n - i >= 5 && s[i + 1] == 'a' && s[i + 2] == 'l' && s[i + 3] == 's' && s[i + 4] == 'e' {
            proof {
                assert(s@.subrange(i as int, i as int + 5) =~= lit_false());
            }
            Some(i + 5)
        } else {
            proof {
                if matches_at(s@, i as int, lit_false()) {
                    assert(s@.subrange(i as int, i as int + 5)[1] == s@[i as int + 1]);
                    assert(s@.subrange(i as int, i as int + 5)[2] == s@[i as int + 2]);
                    assert(s@.subrange(i as int, i as int + 5)[3] == s@[i as int + 3]);
                    assert(s@.subrange(i as int, i as int + 5)[4] == s@[i as int + 4]);
                }
            }
            None
        }
    } else if c == 'n' {
        if n - i >= 4 && s[i + 1] == 'u' && s[i + 2] == 'l' && s[i + 3] == 'l' {
            proof {
                assert(s@.subrange(i as int, i as int + 4) =~= lit_null());
            }
            Some(i + 4)
        } else {
            proof {
                if matches_at(s@, i as int, lit_null()) {
                    assert(s@.subrange(i as int, i as int + 4)[1] == s@[i as int + 1]);
                    assert(s@.subrange(i as int, i as int + 4)[2] == s@[i as int + 2]);
                    assert(s@.subrange(i as int, i as int + 4)[3] == s@[i as int + 3]);
                }
            }
            None
        }
    } else if c == '-' || (0x30 <= u && u <= 0x39) {
        p_number_end(s, i)
    } else {
        None
    }
}

/// Scan the members of an object (after `{` or a comma), returning only the
/// position after the closing `}`.
fn p_members_skip(s: &[char], i: usize, first: bool) -> (r: Option<usize>)
    requires
        i <= s@.len(),
    ensures
        ({
            match sp_members(s@, i as int, first) {
                Some((ms, e)) => r matches Some(p) && p == e && i < p <= s@.len(),
                None => r is None,
            }
        }),
    decreases s@.len() - i, 2int,
{
    let n = s.len();
    let j = p_skip_ws(s, i);
    if j < n && s[j] == '}' && first {
        return Some(j + 1);
    }
    if !(j < n && s[j] == '"') {
        return None;
    }
    let k = match p_string(s, j) {
        Some((_, k)) => k,
        None => {
            return None;
        },
    };
    let m = p_skip_ws(s, k);
    if !(m < n && s[m] == ':') {
        return None;
    }
    let v0 = p_skip_ws(s, m + 1);
    let e = match p_skip_value(s, v0) {
        Some(e) => e,
        None => {
            return None;
        },
    };
    let f = p_skip_ws(s, e);
    if f < n && s[f] == ',' {
        p_members_skip(s, f + 1, false)
    } else if f < n && s[f] == '}' {
        Some(f + 1)
    } else {
        None
    }
}

/// Scan the elements of an array (after `[` or a comma), returning only the
/// position after the closing `]`.
fn p_elements_skip(s: &[char], i: usize, first: bool) -> (r: Option<usize>)
    requires
        i <= s@.len(),
    ensures
        ({
            match sp_elements(s@, i as int, first) {
                Some((vs, e)) => r matches Some(p) && p == e && i < p <= s@.len(),
                None => r is None,
            }
        }),
    decreases s@.len() - i, 2int,
{
    let n = s.len();
    let j = p_skip_ws(s, i);
    if j < n && s[j] == ']' && first {
        return Some(j + 1);
    }
    let e = match p_skip_value(s, j) {
        Some(e) => e,
        None => {
            return None;
        },
    };
    let f = p_skip_ws(s, e);
    if f < n && s[f] == ',' {
        p_elements_skip(s, f + 1, false)
    } else if f < n && s[f] == ']' {
        Some(f + 1)
    } else {
        None
    }
}

/// Outcome of walking the remaining members of a delta object when the
/// `content` member may already have been seen (`have` with text `acc`):
/// `None` is a malformed delta, `Some(c)` a well-formed one carrying `c`.
pub open spec fn delta_members_result(
    dm: Seq<(Seq<char>, JsonVal)>,
    have: bool,
    acc: Option<Seq<char>>,
) -> Option<Option<Seq<char>>> {
    if have {
        Some(acc)
    } else {
        delta_members_content(dm)
    }
}

/// Outcome of walking the remaining members of a choice object when `delta`
/// and `finish_reason` may already have been seen.
pub open spec fn choice_members_result(
    m: Seq<(Seq<char>, JsonVal)>,
    have_delta: bool,
    dacc: Option<Seq<char>>,
    have_finish: bool,
) -> Option<Option<Seq<char>>> {
    let d = if have_delta {
        Some(dacc)
    } else {
        choice_members_content(m)
    };
    if d is Some && (have_finish || finish_ok(m)) {
        d
    } else {
        None
    }
}

/// Outcome of walking the remaining top-level members when `choices` may
/// already have been seen with content `acc`.
pub open spec fn top_members_result(
    ms: Seq<(Seq<char>, JsonVal)>,
    have: bool,
    acc: Option<Seq<char>>,
) -> Option<Option<Seq<char>>> {
    if have {
        Some(acc)
    } else {
        match lookup(ms, key_choices()) {
            Some(JsonVal::Arr(cs)) => if all_choices_ok(cs) {
                Some(
                    if cs.len() > 0 {
                        delta_content(cs[0])
                    } else {
                        None
                    },
                )
            } else {
                None
            },
            _ => None,
        }
    }
}

/// Looking a key up in a member list starts at its head.
proof fn lemma_lookup_cons(
    key: Seq<char>,
    val: JsonVal,
    rest: Seq<(Seq<char>, JsonVal)>,
    k: Seq<char>,
)
    ensures
        lookup(seq![(key, val)] + rest, k) == (if key == k {
            Some(val)
        } else {
            lookup(rest, k)
        }),
{
    let ms = seq![(key, val)] + rest;
    assert(ms.len() > 0);
    assert(ms[0] == (key, val));
    assert(ms.drop_first() =~= rest);
}

/// Well-formedness of a choices array splits into head and tail.
proof fn lemma_choices_cons(v: JsonVal, rest: Seq<JsonVal>)
    ensures
        all_choices_ok(seq![v] + rest) <==> (is_choice(v) && all_choices_ok(rest)),
{
    let cs = seq![v] + rest;
    assert(cs[0] == v);
    assert(forall|k: int| 0 <= k < rest.len() ==> cs[k + 1] == #[trigger] rest[k]);
    if is_choice(v) && all_choices_ok(rest) {
        assert forall|k: int| 0 <= k < cs.len() implies is_choice(#[trigger] cs[k]) by {
            if k > 0 {
                assert(cs[k] == rest[k - 1]);
            }
        }
    }
    if all_choices_ok(cs) {
        assert forall|k: int| 0 <= k < rest.len() implies is_choice(#[trigger] rest[k]) by {
            assert(rest[k] == cs[k + 1]);
        }
    }
}

/// Compare a decoded key against `content`.
fn is_key_content(k: &Vec<char>) -> (b: bool)
    ensures
        b == (k@ == key_content()),
{
    let r = k.len() == 7 && k[0] == 'c' && k[1] == 'o' && k[2] == 'n' && k[3] == 't' && k[4] == 'e'
        && k[5] == 'n' && k[6] == 't';
    proof {
        if r {
            assert(k@ =~= key_content());
        }
    }
    r
}

/// Compare a decoded key against `delta`.
fn is_key_delta(k: &Vec<char>) -> (b: bool)
    ensures
        b == (k@ == key_delta()),
{
    let r = k.len() == 5 && k[0] == 'd' && k[1] == 'e' && k[2] == 'l' && k[3] == 't' && k[4] == 'a';
    proof {
        if r {
            assert(k@ =~= key_delta());
        }
    }
    r
}

/// Compare a decoded key against `finish_reason`.
fn is_key_finish(k: &Vec<char>) -> (b: bool)
    ensures
        b == (k@ == key_finish()),
{
    let r = k.len() == 13 && k[0] == 'f' && k[1] == 'i' && k[2] == 'n' && k[3] == 'i' && k[4] == 's'
        && k[5] == 'h' && k[6] == '_' && k[7] == 'r' && k[8] == 'e' && k[9] == 'a' && k[10] == 's'
        && k[11] == 'o' && k[12] == 'n';
    proof {
        if r {
            assert(k@ =~= key_finish());
        }
    }
    r
}

/// Compare a decoded key against `choices`.
fn is_key_choices(k: &Vec<char>) -> (b: bool)
    ensures
        b == (k@ == key_choices()),
{
    let r = k.len() == 7 && k[0] == 'c' && k[1] == 'h' && k[2] == 'o' && k[3] == 'i' && k[4] == 'c'
        && k[5] == 'e' && k[6] == 's';
    proof {
        if r {
            assert(k@ =~= key_choices());
        }
    }
    r
}

/// A string token ends after its opening position and within the input.
proof fn lemma_str_body_bounds(s: Seq<char>, i: int)
    requires
        0 <= i <= s.len(),
    ensures
        match sp_str_body(s, i) {
            Some((v, e)) => i < e <= s.len(),
            None => true,
        },
    decreases s.len() - i,
{
    if i >= s.len() {
    } else if s[i] == '"' {
    } else if s[i] == '\\' {
        let j = i + 1;
        if j < s.len() {
            let e = s[j];
            if e == '"' || e == '\\' || e == '/' || e == 'b' || e == 'f' || e == 'n' || e == 'r'
                || e == 't' {
                lemma_str_body_bounds(s, j + 1);
            } else if e == 'u' {
                match hex4(s, j + 1) {
                    None => {},
                    Some(h) => {
                        if 0xD800 <= h && h <= 0xDBFF {
                            if j + 11 <= s.len() && s[j + 5] == '\\' && s[j + 6] == 'u' {
                                lemma_str_body_bounds(s, j + 11);
                            }
                        } else if 0xDC00 <= h && h <= 0xDFFF {
                        } else {
                            if j + 5 <= s.len() {
                                lemma_str_body_bounds(s, j + 5);
                            }
                        }
                    },
                }
            }
        }
    } else if (s[i] as u32) < 0x20 {
    } else {
        lemma_str_body_bounds(s, i + 1);
    }
}

/// The walk an executable delta-object scan performs, step for step: the
/// first `content` member (string or `null`) is captured, every other member
/// is validated and skipped, and the scan ends after the closing `}` with
/// the captured content.
pub open spec fn delta_walk(
    s: Seq<char>,
    i: int,
    first: bool,
    have: bool,
    acc: Option<Seq<char>>,
) -> Option<(Option<Seq<char>>, int)>
    decreases s.len() - i,
        when 0 <= i <= s.len()
{
    let j = skip_ws(s, i);
    if !(i <= j <= s.len()) {
        None
    } else if j < s.len() && s[j] == '}' && first {
        Some(
            (
                if have {
                    acc
                } else {
                    None
                },
                j + 1,
            ),
        )
    } else if j < s.len() && s[j] == '"' {
        match sp_string(s, j) {
            None => None,
            Some((key, k)) => if k <= s.len() {
                let m = skip_ws(s, k);
                if k <= m && m < s.len() && s[m] == ':' {
                    let v0 = skip_ws(s, m + 1);
                    if i < v0 <= s.len() {
                        match sp_value(s, v0) {
                            None => None,
                            Some((val, e)) => {
                                let grab = key == key_content() && !have;
                                if grab && !(val is Str || val is Null) {
                                    None
                                } else {
                                    let have2 = have || grab;
                                    let acc2 = if grab {
                                        match val {
                                            JsonVal::Str(c) => Some(c),
                                            _ => None,
                                        }
                                    } else {
                                        acc
                                    };
                                    if i <= e <= s.len() {
                                        let f = skip_ws(s, e);
                                        if i <= f && f < s.len() && s[f] == ',' {
                                            delta_walk(s, f + 1, false, have2, acc2)
                                        } else if f < s.len() && s[f] == '}' {
                                            Some(
                                                (
                                                    if have2 {
                                                        acc2
                                                    } else {
                                                        None
                                                    },
                                                    f + 1,
                                                ),
                                            )
                                        } else {
                                            None
                                        }
                                    } else {
                                        None
                                    }
                                }
                            },
                        }
                    } else {
                        None
                    }
                } else {
                    None
                }
            } else {
                None
            },
        }
    } else {
        None
    }
}

/// The delta walk computes exactly the delta-member outcome of the object's
/// member list.
proof fn lemma_delta_walk(s: Seq<char>, i: int, first: bool, have: bool, acc: Option<Seq<char>>)
    requires
        0 <= i <= s.len(),
    ensures
        match sp_members(s, i, first) {
            None => delta_walk(s, i, first, have, acc) is None,
            Some((dm, e)) => delta_walk(s, i, first, have, acc) == (match delta_members_result(
                dm,
                have,
                acc,
            ) {
                None => None::<(Option<Seq<char>>, int)>,
                Some(c) => Some((c, e)),
            }),
        },
    decreases s.len() - i,
{
    let j = skip_ws(s, i);
    lemma_skip_ws(s, i);
    if j < s.len() && s[j] == '}' && first {
    } else if j < s.len() && s[j] == '"' {
        match sp_string(s, j) {
            None => {},
            Some((key, k)) => {
                lemma_str_body_bounds(s, j + 1);
                if k <= s.len() {
                    let m = skip_ws(s, k);
                    lemma_skip_ws(s, k);
                    if k <= m && m < s.len() && s[m] == ':' {
                        let v0 = skip_ws(s, m + 1);
                        lemma_skip_ws(s, m + 1);
                        if i < v0 <= s.len() {
                            match sp_value(s, v0) {
                                None => {},
                                Some((val, e)) => {
                                    let grab = key == key_content() && !have;
                                    let have2 = have || grab;
                                    let acc2 = if grab {
                                        match val {
                                            JsonVal::Str(c) => Some(c),
                                            _ => None::<Seq<char>>,
                                        }
                                    } else {
                                        acc
                                    };
                                    if i <= e <= s.len() {
                                        let f = skip_ws(s, e);
                                        lemma_skip_ws(s, e);
                                        if i <= f && f < s.len() && s[f] == ',' {
                                            lemma_delta_walk(s, f + 1, false, have2, acc2);
                                            match sp_members(s, f + 1, false) {
                                                None => {},
                                                Some((rest, e2)) => {
                                                    lemma_lookup_cons(
                                                        key,
                                                        val,
                                                        rest,
                                                        key_content(),
                                                    );
                                                },
                                            }
                                        } else if f < s.len() && s[f] == '}' {
                                            lemma_lookup_cons(
                                                key,
                                                val,
                                                Seq::empty(),
                                                key_content(),
                                            );
                                            assert(seq![(key, val)] =~= seq![(key, val)]
                                                + Seq::<(Seq<char>, JsonVal)>::empty());
                                        }
                                    }
                                },
                            }
                        }
                    }
                }
            },
        }
    }
}

/// The characters a captured content option holds.
pub open spec fn opt_chars(o: Option<Vec<char>>) -> Option<Seq<char>> {
    match o {
        Some(v) => Some(v@),
        None => None,
    }
}

/// Walk the members of a delta object, capturing the first `content`
/// member, which must be a string or `null`.
fn p_delta_members(s: &[char], i: usize, first: bool, have: bool, acc: Option<Vec<char>>) -> (r:
    Option<(Option<Vec<char>>, usize)>)
    requires
        i <= s@.len(),
    ensures
        ({
            match delta_walk(s@, i as int, first, have, opt_chars(acc)) {
                None => r is None,
                Some((c, e)) => r matches Some((rc, p)) && opt_chars(rc) == c && p == e && i < p
                    <= s@.len(),
            }
        }),
    decreases s@.len() - i,
{
    let n = s.len();
    let j = p_skip_ws(s, i);
    if j < n && s[j] == '}' && first {
        return Some((if have { acc } else { None }, j + 1));
    }
    if !(j < n && s[j] == '"') {
        return None;
    }
    let (key, k) = match p_string(s, j) {
        Some(p) => p,
        None => {
            return None;
        },
    };
    let m = p_skip_ws(s, k);
    if !(m < n && s[m] == ':') {
        return None;
    }
    let v0 = p_skip_ws(s, m + 1);
    let grab = is_key_content(&key) && !have;
    let acc2: Option<Vec<char>>;
    let e: usize;
    if grab {
        if v0 < n && s[v0] == '"' {
            let (cs, e1) = match p_string(s, v0) {
                Some(p) => p,
                None => {
                    return None;
                },
            };
            acc2 = Some(cs);
            e = e1;
        } else if v0 < n && s[v0] == 'n' {
            let e1 = match p_skip_value(s, v0) {
                Some(e1) => e1,
                None => {
                    return None;
                },
            };
            proof {
                match sp_value(s@, v0 as int) {
                    Some((val, _)) => {
                        assert(val is Null);
                    },
                    None => {},
                }
            }
            acc2 = None;
            e = e1;
        } else {
            // The first `content` member has a type the format rejects, or
            // the document is not valid JSON here; either way the line will
            // be ignored.
            proof {
                match sp_value(s@, v0 as int) {
                    Some((val, _)) => {
                        assert(!(val is Str || val is Null));
                    },
                    None => {},
                }
            }
            return None;
        }
    } else {
        let e1 = match p_skip_value(s, v0) {
            Some(e1) => e1,
            None => {
                return None;
            },
        };
        acc2 = acc;
        e = e1;
    }
    let have2 = have || grab;
    let f = p_skip_ws(s, e);
    if f < n && s[f] == ',' {
        p_delta_members(s, f + 1, false, have2, acc2)
    } else if f < n && s[f] == '}' {
        Some((if have2 { acc2 } else { None }, f + 1))
    } else {
        None
    }
}

/// The walk an executable choice-object scan performs: the first `delta`
/// member must be an object and its content is captured; the first
/// `finish_reason` member must be a string or `null`; a choice without a
/// `delta` is malformed.
pub open spec fn choice_walk(
    s: Seq<char>,
    i: int,
    first: bool,
    have_delta: bool,
    dacc: Option<Seq<char>>,
    have_finish: bool,
) -> Option<(Option<Seq<char>>, int)>
    decreases s.len() - i,
        when 0 <= i <= s.len()
{
    let j = skip_ws(s, i);
    if !(i <= j <= s.len()) {
        None
    } else if j < s.len() && s[j] == '}' && first {
        if have_delta {
            Some((dacc, j + 1))
        } else {
            None
        }
    } else if j < s.len() && s[j] == '"' {
        match sp_string(s, j) {
            None => None,
            Some((key, k)) => if k <= s.len() {
                let m = skip_ws(s, k);
                if k <= m && m < s.len() && s[m] == ':' {
                    let v0 = skip_ws(s, m + 1);
                    if i < v0 <= s.len() {
                        match sp_value(s, v0) {
                            None => None,
                            Some((val, e)) => {
                                let grab_d = key == key_delta() && !have_delta;
                                let grab_f = key == key_finish() && !have_finish;
                                let ok = if grab_d {
                                    match val {
                                        JsonVal::Obj(dm) => delta_members_content(dm) is Some,
                                        _ => false,
                                    }
                                } else if grab_f {
                                    val is Str || val is Null
                                } else {
                                    true
                                };
                                if !ok {
                                    None
                                } else {
                                    let hd2 = have_delta || grab_d;
                                    let dacc2 = if grab_d {
                                        match val {
                                            JsonVal::Obj(dm) => match delta_members_content(dm) {
                                                Some(c) => c,
                                                None => None,
                                            },
                                            _ => None,
                                        }
                                    } else {
                                        dacc
                                    };
                                    let hf2 = have_finish || grab_f;
                                    if i <= e <= s.len() {
                                        let f = skip_ws(s, e);
                                        if i <= f && f < s.len() && s[f] == ',' {
                                            choice_walk(s, f + 1, false, hd2, dacc2, hf2)
                                        } else if f < s.len() && s[f] == '}' {
                                            if hd2 {
                                                Some((dacc2, f + 1))
                                            } else {
                                                None
                                            }
                                        } else {
                                            None
                                        }
                                    } else {
                                        None
                                    }
                                }
                            },
                        }
                    } else {
                        None
                    }
                } else {
                    None
                }
            } else {
                None
            },
        }
    } else {
        None
    }
}

/// The choice walk computes exactly the choice-member outcome of the
/// object's member list.
proof fn lemma_choice_walk(
    s: Seq<char>,
    i: int,
    first: bool,
    have_delta: bool,
    dacc: Option<Seq<char>>,
    have_finish: bool,
)
    requires
        0 <= i <= s.len(),
    ensures
        match sp_members(s, i, first) {
            None => choice_walk(s, i, first, have_delta, dacc, have_finish) is None,
            Some((m, e)) => choice_walk(s, i, first, have_delta, dacc, have_finish) == (
            match choice_members_result(m, have_delta, dacc, have_finish) {
                None => None::<(Option<Seq<char>>, int)>,
                Some(c) => Some((c, e)),
            }),
        },
    decreases s.len() - i,
{
    let j = skip_ws(s, i);
    lemma_skip_ws(s, i);
    if j < s.len() && s[j] == '}' && first {
    } else if j < s.len() && s[j] == '"' {
        match sp_string(s, j) {
            None => {},
            Some((key, k)) => {
                lemma_str_body_bounds(s, j + 1);
                if k <= s.len() {
                    let m = skip_ws(s, k);
                    lemma_skip_ws(s, k);
                    if k <= m && m < s.len() && s[m] == ':' {
                        let v0 = skip_ws(s, m + 1);
                        lemma_skip_ws(s, m + 1);
                        if i < v0 <= s.len() {
                            match sp_value(s, v0) {
                                None => {},
                                Some((val, e)) => {
                                    let grab_d = key == key_delta() && !have_delta;
                                    let grab_f = key == key_finish() && !have_finish;
                                    let hd2 = have_delta || grab_d;
                                    let dacc2 = if grab_d {
                                        match val {
                                            JsonVal::Obj(dm) => match delta_members_content(dm) {
                                                Some(c) => c,
                                                None => None::<Seq<char>>,
                                            },
                                            _ => None::<Seq<char>>,
                                        }
                                    } else {
                                        dacc
                                    };
                                    let hf2 = have_finish || grab_f;
                                    if i <= e <= s.len() {
                                        let f = skip_ws(s, e);
                                        lemma_skip_ws(s, e);
                                        if i <= f && f < s.len() && s[f] == ',' {
                                            lemma_choice_walk(s, f + 1, false, hd2, dacc2, hf2);
                                            match sp_members(s, f + 1, false) {
                                                None => {},
                                                Some((rest, e2)) => {
                                                    lemma_lookup_cons(key, val, rest, key_delta());
                                                    lemma_lookup_cons(
                                                        key,
                                                        val,
                                                        rest,
                                                        key_finish(),
                                                    );
                                                },
                                            }
                                        } else if f < s.len() && s[f] == '}' {
                                            lemma_lookup_cons(key, val, Seq::empty(), key_delta());
                                            lemma_lookup_cons(
                                                key,
                                                val,
                                                Seq::empty(),
                                                key_finish(),
                                            );
                                            assert(seq![(key, val)] =~= seq![(key, val)]
                                                + Seq::<(Seq<char>, JsonVal)>::empty());
                                        }
                                    }
                                },
                            }
                        }
                    }
                }
            },
        }
    }
}

/// Walk the members of a choice object.
#[verifier::rlimit(50)]
fn p_choice_members(
    s: &[char],
    i: usize,
    first: bool,
    have_delta: bool,
    dacc: Option<Vec<char>>,
    have_finish: bool,
) -> (r: Option<(Option<Vec<char>>, usize)>)
    requires
        i <= s@.len(),
    ensures
        ({
            match choice_walk(s@, i as int, first, have_delta, opt_chars(dacc), have_finish) {
                None => r is None,
                Some((c, e)) => r matches Some((rc, p)) && opt_chars(rc) == c && p == e && i < p
                    <= s@.len(),
            }
        }),
    decreases s@.len() - i,
{
    let n = s.len();
    let j = p_skip_ws(s, i);
    if j < n && s[j] == '}' && first {
        return if have_delta {
            Some((dacc, j + 1))
        } else {
            None
        };
    }
    if !(j < n && s[j] == '"') {
        return None;
    }
    let (key, k) = match p_string(s, j) {
        Some(p) => p,
        None => {
            return None;
        },
    };
    let m = p_skip_ws(s, k);
    if !(m < n && s[m] == ':') {
        return None;
    }
    let v0 = p_skip_ws(s, m + 1);
    let grab_d = is_key_delta(&key) && !have_delta;
    let grab_f = is_key_finish(&key) && !have_finish;
    let dacc2: Option<Vec<char>>;
    let e: usize;
    if grab_d {
        if v0 < n && s[v0] == '{' {
            proof {
                lemma_delta_walk(s@, v0 as int + 1, true, false, None);
            }
            let (c, e1) = match p_delta_members(s, v0 + 1, true, false, None) {
                Some(p) => p,
                None => {
                    return None;
                },
            };
            dacc2 = c;
            e = e1;
        } else {
            proof {
                match sp_value(s@, v0 as int) {
                    Some((val, _)) => {
                        assert(!(val is Obj));
                    },
                    None => {},
                }
            }
            return None;
        }
    } else if grab_f {
        if v0 < n && (s[v0] == '"' || s[v0] == 'n') {
            let e1 = match p_skip_value(s, v0) {
                Some(e1) => e1,
                None => {
                    return None;
                },
            };
            proof {
                match sp_value(s@, v0 as int) {
                    Some((val, _)) => {
                        assert(val is Str || val is Null);
                    },
                    None => {},
                }
            }
            dacc2 = dacc;
            e = e1;
        } else {
            proof {
                match sp_value(s@, v0 as int) {
                    Some((val, _)) => {
                        assert(!(val is Str || val is Null));
                    },
                    None => {},
                }
            }
            return None;
        }
    } else {
        let e1 = match p_skip_value(s, v0) {
            Some(e1) => e1,
            None => {
                return None;
            },
        };
        dacc2 = dacc;
        e = e1;
    }
    let hd2 = have_delta || grab_d;
    let hf2 = have_finish || grab_f;
    let f = p_skip_ws(s, e);
    if f < n && s[f] == ',' {
        p_choice_members(s, f + 1, false, hd2, dacc2, hf2)
    } else if f < n && s[f] == '}' {
        if hd2 {
            Some((dacc2, f + 1))
        } else {
            None
        }
    } else {
        None
    }
}

/// Scan one choice element.
fn p_choice(s: &[char], i: usize) -> (r: Option<(Option<Vec<char>>, usize)>)
    requires
        i <= s@.len(),
    ensures
        ({
            match sp_value(s@, i as int) {
                None => r is None,
                Some((v, e)) => if is_choice(v) {
                    r matches Some((rc, p)) && opt_chars(rc) == delta_content(v) && p == e && i < p
                        <= s@.len()
                } else {
                    r is None
                },
            }
        }),
{
    if i < s.len() && s[i] == '{' {
        proof {
            lemma_choice_walk(s@, i as int + 1, true, false, None, false);
        }
        match p_choice_members(s, i + 1, true, false, None, false) {
            Some((c, e)) => Some((c, e)),
            None => None,
        }
    } else {
        proof {
            match sp_value(s@, i as int) {
                Some((v, _)) => {
                    assert(!(v is Obj));
                },
                None => {},
            }
        }
        None
    }
}

/// The walk an executable choices-array scan performs: every element must be
/// a well-formed choice, and the content of the first one is captured.
pub open spec fn elems_walk(s: Seq<char>, i: int, first: bool) -> Option<(Option<Seq<char>>, int)>
    decreases s.len() - i,
        when 0 <= i <= s.len()
{
    let j = skip_ws(s, i);
    if !(i <= j <= s.len()) {
        None
    } else if j < s.len() && s[j] == ']' && first {
        Some((None, j + 1))
    } else {
        match sp_value(s, j) {
            None => None,
            Some((v, e)) => if !is_choice(v) {
                None
            } else if i <= e <= s.len() {
                let f = skip_ws(s, e);
                if i <= f && f < s.len() && s[f] == ',' {
                    match elems_walk(s, f + 1, false) {
                        None => None,
                        Some((_, e2)) => Some((delta_content(v), e2)),
                    }
                } else if f < s.len() && s[f] == ']' {
                    Some((delta_content(v), f + 1))
                } else {
                    None
                }
            } else {
                None
            },
        }
    }
}

/// The elements walk accepts exactly the arrays of well-formed choices and
/// captures the first one's content.
proof fn lemma_elems_walk(s: Seq<char>, i: int, first: bool)
    requires
        0 <= i <= s.len(),
    ensures
        match sp_elements(s, i, first) {
            None => elems_walk(s, i, first) is None,
            Some((cs, e)) => elems_walk(s, i, first) == (if all_choices_ok(cs) {
                Some(
                    (
                        if cs.len() > 0 {
                            delta_content(cs[0])
                        } else {
                            None::<Seq<char>>
                        },
                        e,
                    ),
                )
            } else {
                None::<(Option<Seq<char>>, int)>
            }),
        },
    decreases s.len() - i,
{
    let j = skip_ws(s, i);
    lemma_skip_ws(s, i);
    if j < s.len() && s[j] == ']' && first {
        assert(all_choices_ok(Seq::<JsonVal>::empty()));
    } else {
        match sp_value(s, j) {
            None => {},
            Some((v, e)) => {
                if i <= e <= s.len() {
                    let f = skip_ws(s, e);
                    lemma_skip_ws(s, e);
                    if i <= f && f < s.len() && s[f] == ',' {
                        lemma_elems_walk(s, f + 1, false);
                        match sp_elements(s, f + 1, false) {
                            None => {},
                            Some((rest, e2)) => {
                                lemma_choices_cons(v, rest);
                                assert((seq![v] + rest)[0] == v);
                            },
                        }
                    } else if f < s.len() && s[f] == ']' {
                        lemma_choices_cons(v, Seq::empty());
                        assert(seq![v] =~= seq![v] + Seq::<JsonVal>::empty());
                        assert(seq![v][0] == v);
                    }
                }
            },
        }
    }
}

/// Scan the elements of a choices array, capturing the first content.
fn p_choices_elems(s: &[char], i: usize, first: bool) -> (r: Option<(Option<Vec<char>>, usize)>)
    requires
        i <= s@.len(),
    ensures
        ({
            match elems_walk(s@, i as int, first) {
                None => r is None,
                Some((c, e)) => r matches Some((rc, p)) && opt_chars(rc) == c && p == e && i < p
                    <= s@.len(),
            }
        }),
    decreases s@.len() - i,
{
    let n = s.len();
    let j = p_skip_ws(s, i);
    if j < n && s[j] == ']' && first {
        return Some((None, j + 1));
    }
    let (c0, e) = match p_choice(s, j) {
        Some(p) => p,
        None => {
            return None;
        },
    };
    let f = p_skip_ws(s, e);
    if f < n && s[f] == ',' {
        match p_choices_elems(s, f + 1, false) {
            Some((_, e2)) => Some((c0, e2)),
            None => None,
        }
    } else if f < n && s[f] == ']' {
        Some((c0, f + 1))
    } else {
        None
    }
}

/// The walk an executable top-level scan performs: the first `choices`
/// member must be an array of well-formed choices; the first choice's
/// content is captured; a document without `choices` is malformed.
pub open spec fn top_walk(
    s: Seq<char>,
    i: int,
    first: bool,
    have: bool,
    acc: Option<Seq<char>>,
) -> Option<(Option<Seq<char>>, int)>
    decreases s.len() - i,
        when 0 <= i <= s.len()
{
    let j = skip_ws(s, i);
    if !(i <= j <= s.len()) {
        None
    } else if j < s.len() && s[j] == '}' && first {
        if have {
            Some((acc, j + 1))
        } else {
            None
        }
    } else if j < s.len() && s[j] == '"' {
        match sp_string(s, j) {
            None => None,
            Some((key, k)) => if k <= s.len() {
                let m = skip_ws(s, k);
                if k <= m && m < s.len() && s[m] == ':' {
                    let v0 = skip_ws(s, m + 1);
                    if i < v0 <= s.len() {
                        match sp_value(s, v0) {
                            None => None,
                            Some((val, e)) => {
                                let grab = key == key_choices() && !have;
                                let ok = if grab {
                                    match val {
                                        JsonVal::Arr(cs) => all_choices_ok(cs),
                                        _ => false,
                                    }
                                } else {
                                    true
                                };
                                if !ok {
                                    None
                                } else {
                                    let have2 = have || grab;
                                    let acc2 = if grab {
                                        match val {
                                            JsonVal::Arr(cs) => if cs.len() > 0 {
                                                delta_content(cs[0])
                                            } else {
                                                None
                                            },
                                            _ => None,
                                        }
                                    } else {
                                        acc
                                    };
                                    if i <= e <= s.len() {
                                        let f = skip_ws(s, e);
                                        if i <= f && f < s.len() && s[f] == ',' {
                                            top_walk(s, f + 1, false, have2, acc2)
                                        } else if f < s.len() && s[f] == '}' {
                                            if have2 {
                                                Some((acc2, f + 1))
                                            } else {
                                                None
                                            }
                                        } else {
                                            None
                                        }
                                    } else {
                                        None
                                    }
                                }
                            },
                        }
                    } else {
                        None
                    }
                } else {
                    None
                }
            } else {
                None
            },
        }
    } else {
        None
    }
}

/// The top-level walk computes exactly the choices outcome of the document's
/// member list.
proof fn lemma_top_walk(s: Seq<char>, i: int, first: bool, have: bool, acc: Option<Seq<char>>)
    requires
        0 <= i <= s.len(),
    ensures
        match sp_members(s, i, first) {
            None => top_walk(s, i, first, have, acc) is None,
            Some((ms, e)) => top_walk(s, i, first, have, acc) == (match top_members_result(
                ms,
                have,
                acc,
            ) {
                None => None::<(Option<Seq<char>>, int)>,
                Some(c) => Some((c, e)),
            }),
        },
    decreases s.len() - i,
{
    let j = skip_ws(s, i);
    lemma_skip_ws(s, i);
    if j < s.len() && s[j] == '}' && first {
    } else if j < s.len() && s[j] == '"' {
        match sp_string(s, j) {
            None => {},
            Some((key, k)) => {
                lemma_str_body_bounds(s, j + 1);
                if k <= s.len() {
                    let m = skip_ws(s, k);
                    lemma_skip_ws(s, k);
                    if k <= m && m < s.len() && s[m] == ':' {
                        let v0 = skip_ws(s, m + 1);
                        lemma_skip_ws(s, m + 1);
                        if i < v0 <= s.len() {
                            match sp_value(s, v0) {
                                None => {},
                                Some((val, e)) => {
                                    let grab = key == key_choices() && !have;
                                    let have2 = have || grab;
                                    let acc2 = if grab {
                                        match val {
                                            JsonVal::Arr(cs) => if cs.len() > 0 {
                                                delta_content(cs[0])
                                            } else {
                                                None::<Seq<char>>
                                            },
                                            _ => None::<Seq<char>>,
                                        }
                                    } else {
                                        acc
                                    };
                                    if i <= e <= s.len() {
                                        let f = skip_ws(s, e);
                                        lemma_skip_ws(s, e);
                                        if i <= f && f < s.len() && s[f] == ',' {
                                            lemma_top_walk(s, f + 1, false, have2, acc2);
                                            match sp_members(s, f + 1, false) {
                                                None => {},
                                                Some((rest, e2)) => {
                                                    lemma_lookup_cons(
                                                        key,
                                                        val,
                                                        rest,
                                                        key_choices(),
                                                    );
                                                },
                                            }
                                        } else if f < s.len() && s[f] == '}' {
                                            lemma_lookup_cons(
                                                key,
                                                val,
                                                Seq::empty(),
                                                key_choices(),
                                            );
                                            assert(seq![(key, val)] =~= seq![(key, val)]
                                                + Seq::<(Seq<char>, JsonVal)>::empty());
                                        }
                                    }
                                },
                            }
                        }
                    }
                }
            },
        }
    }
}

/// Walk the members of the top-level document object.
#[verifier::rlimit(50)]
fn p_top_members(s: &[char], i: usize, first: bool, have: bool, acc: Option<Vec<char>>) -> (r:
    Option<(Option<Vec<char>>, usize)>)
    requires
        i <= s@.len(),
    ensures
        ({
            match top_walk(s@, i as int, first, have, opt_chars(acc)) {
                None => r is None,
                Some((c, e)) => r matches Some((rc, p)) && opt_chars(rc) == c && p == e && i < p
                    <= s@.len(),
            }
        }),
    decreases s@.len() - i,
{
    let n = s.len();
    let j = p_skip_ws(s, i);
    if j < n && s[j] == '}' && first {
        return if have {
            Some((acc, j + 1))
        } else {
            None
        };
    }
    if !(j < n && s[j] == '"') {
        return None;
    }
    let (key, k) = match p_string(s, j) {
        Some(p) => p,
        None => {
            return None;
        },
    };
    let m = p_skip_ws(s, k);
    if !(m < n && s[m] == ':') {
        return None;
    }
    let v0 = p_skip_ws(s, m + 1);
    let grab = is_key_choices(&key) && !have;
    let acc2: Option<Vec<char>>;
    let e: usize;
    if grab {
        if v0 < n && s[v0] == '[' {
            proof {
                lemma_elems_walk(s@, v0 as int + 1, true);
            }
            let (c, e1) = match p_choices_elems(s, v0 + 1, true) {
                Some(p) => p,
                None => {
                    return None;
                },
            };
            acc2 = c;
            e = e1;
        } else {
            proof {
                match sp_value(s@, v0 as int) {
                    Some((val, _)) => {
                        assert(!(val is Arr));
                    },
                    None => {},
                }
            }
            return None;
        }
    } else {
        let e1 = match p_skip_value(s, v0) {
            Some(e1) => e1,
            None => {
                return None;
            },
        };
        acc2 = acc;
        e = e1;
    }
    let have2 = have || grab;
    let f = p_skip_ws(s, e);
    if f < n && s[f] == ',' {
        p_top_members(s, f + 1, false, have2, acc2)
    } else if f < n && s[f] == '}' {
        if have2 {
            Some((acc2, f + 1))
        } else {
            None
        }
    } else {
        None
    }
}

/// Extract the text fragment a payload carries.  Returns exactly what the
/// model [`content_of_payload`] assigns to the characters.
pub(crate) fn payload_content(s: &[char]) -> (r: Option<Vec<char>>)
    ensures
        opt_chars(r) == content_of_payload(s@),
{
    let n = s.len();
    let i0 = p_skip_ws(s, 0);
    if !(i0 < n && s[i0] == '{') {
        proof {
            match sp_value(s@, i0 as int) {
                Some((v, _)) => {
                    assert(!(v is Obj));
                },
                None => {},
            }
        }
        return None;
    }
    proof {
        lemma_top_walk(s@, i0 as int + 1, true, false, None);
    }
    match p_top_members(s, i0 + 1, true, false, None) {
        None => None,
        Some((c, e)) => {
            let f = p_skip_ws(s, e);
            if f == n {
                c
            } else {
                None
            }
        },
    }
}

} // verus!
