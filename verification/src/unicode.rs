//! UTF-8 decoding and character classification.
//!
//! Lines arrive as raw bytes with no guarantee of being well-formed UTF-8;
//! the classifier decodes them and treats malformed lines as ignorable.  The
//! decoder here is verified against vstd's model of UTF-8
//! ([`vstd::utf8::decode_utf8`]): it returns exactly the character sequence
//! that model assigns to the bytes, and fails exactly on byte sequences the
//! model rejects.

use vstd::prelude::*;
use vstd::utf8::*;

verus! {

/// Relies on char::from_u32: it returns `Some` exactly for Unicode scalar
/// values (at most 0x10FFFF and not a surrogate), and the returned character
/// has the given scalar value.
#[verifier::external_body]
pub(crate) fn char_from_u32(v: u32) -> (r: Option<char>)
    ensures
        r is Some <==> is_scalar(v),
        r matches Some(c) ==> c as u32 == v,
{
    char::from_u32(v)
}

/// Relies on String's FromIterator<char> implementation: collecting an
/// iterator of characters yields the string of exactly those characters in
/// order.
#[verifier::external_body]
pub(crate) fn string_from_chars(cs: &Vec<char>) -> (r: String)
    ensures
        r@ == cs@,
{
    cs.iter().collect()
}

/// True for the characters Unicode assigns the White_Space property, the set
/// trimmed from around an event payload.
pub open spec fn is_unicode_ws(c: char) -> bool {
    let u = c as u32;
    ||| u == 0x09
    ||| u == 0x0A
    ||| u == 0x0B
    ||| u == 0x0C
    ||| u == 0x0D
    ||| u == 0x20
    ||| u == 0x85
    ||| u == 0xA0
    ||| u == 0x1680
    ||| (0x2000 <= u && u <= 0x200A)
    ||| u == 0x2028
    ||| u == 0x2029
    ||| u == 0x202F
    ||| u == 0x205F
    ||| u == 0x3000
}

/// Decide [`is_unicode_ws`].
pub(crate) fn is_ws_char(c: char) -> (r: bool)
    ensures
        r == is_unicode_ws(c),
{
    let u = c as u32;
    u == 0x09 || u == 0x0A || u == 0x0B || u == 0x0C || u == 0x0D || u == 0x20 || u == 0x85 || u
        == 0xA0 || u == 0x1680 || (0x2000 <= u && u <= 0x200A) || u == 0x2028 || u == 0x2029 || u
        == 0x202F || u == 0x205F || u == 0x3000
}

/// Decode a byte sequence as UTF-8.  Succeeds with the decoded characters
/// exactly when the bytes are well-formed UTF-8 under vstd's model.
pub(crate) fn utf8_to_chars(bytes: &[u8]) -> (r: Option<Vec<char>>)
    ensures
        match r {
            Some(cs) => valid_utf8(bytes@) && cs@ == decode_utf8(bytes@),
            None => !valid_utf8(bytes@),
        },
{
    let n = bytes.len();
    let mut i: usize = 0;
    let mut out: Vec<char> = Vec::new();
    proof {
        assert(bytes@.subrange(0, 0) =~= Seq::<u8>::empty());
        assert(out@ =~= decode_utf8(bytes@.subrange(0, 0)));
    }
    while i < n
        invariant
            0 <= i <= n == bytes@.len(),
            partial_valid_utf8(bytes@, i as int),
            out@ == decode_utf8(bytes@.subrange(0, i as int)),
        decreases n - i,
    {
        let ghost suffix: Seq<u8> = bytes@.subrange(i as int, n as int);
        let b0 = bytes[i];
        proof {
            assert(suffix[0] == b0);
            assert(suffix.len() == n - i);
        }
        // Determine the width of the encoding at `i`, validate it, and
        // compute the scalar value, mirroring the model byte for byte.
        let cp: u32;
        let w: usize;
        if b0 <= 0x7f {
            cp = (b0 & 0x7f) as u32;
            w = 1;
            proof {
                assert(cp == codepoint_width_1(b0));
                assert(cp <= 0x7f) by (bit_vector)
                    requires
                        cp == (b0 & 0x7f) as u32,
                ;
                assert(valid_first_scalar(suffix));
                assert(length_of_first_scalar(suffix) == 1);
            }
        } else if 0xc0 <= b0 && b0 <= 0xdf {
            if n - i < 2 {
                proof {
                    lemma_prefix_valid_suffix_invalid(bytes@, i as int);
                }
                return None;
            }
            let b1 = bytes[i + 1];
            proof {
                assert(suffix[1] == b1);
            }
            if !(0x80 <= b1 && b1 <= 0xbf) {
                proof {
                    lemma_prefix_valid_suffix_invalid(bytes@, i as int);
                }
                return None;
            }
            cp = (((b0 & 0x1f) as u32) << 6u32) | ((b1 & 0x3f) as u32);
            w = 2;
            proof {
                assert(cp == codepoint_width_2(b0, b1));
                assert(length_of_first_codepoint(suffix) == 2);
                assert(decode_first_codepoint(suffix) == cp);
            }
            if cp < 0x80 {
                // Overlong two-byte encoding of a one-byte value.
                proof {
                    lemma_prefix_valid_suffix_invalid(bytes@, i as int);
                }
                return None;
            }
            proof {
                assert(cp <= 0x7ff) by (bit_vector)
                    requires
                        cp == (((b0 & 0x1f) as u32) << 6u32) | ((b1 & 0x3f) as u32),
                ;
                assert(valid_first_scalar(suffix));
                assert(length_of_first_scalar(suffix) == 2);
            }
        } else if 0xe0 <= b0 && b0 <= 0xef {
            if n - i < 3 {
                proof {
                    lemma_prefix_valid_suffix_invalid(bytes@, i as int);
                }
                return None;
            }
            let b1 = bytes[i + 1];
            let b2 = bytes[i + 2];
            proof {
                assert(suffix[1] == b1);
                assert(suffix[2] == b2);
            }
            if !(0x80 <= b1 && b1 <= 0xbf) || !(0x80 <= b2 && b2 <= 0xbf) {
                proof {
                    lemma_prefix_valid_suffix_invalid(bytes@, i as int);
                }
                return None;
            }
            cp = ((((b0 & 0x0f) as u32) << 12u32) | (((b1 & 0x3f) as u32) << 6u32)) | ((b2
                & 0x3f) as u32);
            w = 3;
            proof {
                assert(cp == codepoint_width_3(b0, b1, b2));
                assert(length_of_first_codepoint(suffix) == 3);
                assert(decode_first_codepoint(suffix) == cp);
            }
            if cp < 0x800 || (0xd800 <= cp && cp <= 0xdfff) {
                // Overlong three-byte encoding, or a surrogate codepoint.
                proof {
                    lemma_prefix_valid_suffix_invalid(bytes@, i as int);
                }
                return None;
            }
            proof {
                assert(cp <= 0xffff) by (bit_vector)
                    requires
                        cp == ((((b0 & 0x0f) as u32) << 12u32) | (((b1 & 0x3f) as u32) << 6u32)) | (
                        (b2 & 0x3f) as u32),
                ;
                assert(valid_first_scalar(suffix));
                assert(length_of_first_scalar(suffix) == 3);
            }
        } else if 0xf0 <= b0 && b0 <= 0xf7 {
            if n - i < 4 {
                proof {
                    lemma_prefix_valid_suffix_invalid(bytes@, i as int);
                }
                return None;
            }
            let b1 = bytes[i + 1];
            let b2 = bytes[i + 2];
            let b3 = bytes[i + 3];
            proof {
                assert(suffix[1] == b1);
                assert(suffix[2] == b2);
                assert(suffix[3] == b3);
            }
            if !(0x80 <= b1 && b1 <= 0xbf) || !(0x80 <= b2 && b2 <= 0xbf) || !(0x80 <= b3 && b3
                <= 0xbf) {
                proof {
                    lemma_prefix_valid_suffix_invalid(bytes@, i as int);
                }
                return None;
            }
            cp = (((((b0 & 0x07) as u32) << 18u32) | (((b1 & 0x3f) as u32) << 12u32)) | (((b2
                & 0x3f) as u32) << 6u32)) | ((b3 & 0x3f) as u32);
            w = 4;
            proof {
                assert(cp == codepoint_width_4(b0, b1, b2, b3));
                assert(length_of_first_codepoint(suffix) == 4);
                assert(decode_first_codepoint(suffix) == cp);
            }
            if cp < 0x10000 || cp > 0x10ffff {
                // Overlong four-byte encoding, or beyond the Unicode range.
                proof {
                    lemma_prefix_valid_suffix_invalid(bytes@, i as int);
                }
                return None;
            }
            proof {
                assert(valid_first_scalar(suffix));
                assert(length_of_first_scalar(suffix) == 4);
            }
        } else {
            proof {
                lemma_prefix_valid_suffix_invalid(bytes@, i as int);
            }
            return None;
        }
        proof {
            assert(is_scalar(cp));
        }
        let c = match char_from_u32(cp) {
            Some(c) => c,
            None => {
                proof {
                    assert(false);
                }
                return None;
            },
        };
        out.push(c);
        proof {
            lemma_decode_step(bytes@, i as int, w as int, cp, c);
        }
        i = i + w;
    }
    proof {
        assert(bytes@.subrange(0, n as int) =~= bytes@);
    }
    Some(out)
}

/// When the bytes before `i` are valid UTF-8 but no well-formed scalar
/// encoding starts at `i`, the whole sequence is not valid UTF-8.
proof fn lemma_prefix_valid_suffix_invalid(bytes: Seq<u8>, i: int)
    requires
        partial_valid_utf8(bytes, i),
        0 <= i < bytes.len(),
        !valid_first_scalar(bytes.subrange(i, bytes.len() as int)),
    ensures
        !valid_utf8(bytes),
{
    let suffix = bytes.subrange(i, bytes.len() as int);
    assert(!valid_utf8(suffix));
    partial_valid_partial_invalid_utf8(bytes, i);
}

/// One decoding step: if a well-formed scalar of width `w` and value `cp`
/// starts at `i`, the decoded prefix grows by exactly its character.
proof fn lemma_decode_step(bytes: Seq<u8>, i: int, w: int, cp: u32, c: char)
    requires
        partial_valid_utf8(bytes, i),
        0 <= i,
        i + w <= bytes.len(),
        valid_first_scalar(bytes.subrange(i, bytes.len() as int)),
        length_of_first_scalar(bytes.subrange(i, bytes.len() as int)) == w,
        decode_first_scalar(bytes.subrange(i, bytes.len() as int)) == cp,
        c as u32 == cp,
    ensures
        partial_valid_utf8(bytes, i + w),
        decode_utf8(bytes.subrange(0, i + w)) == decode_utf8(bytes.subrange(0, i)).push(c),
{
    let suffix = bytes.subrange(i, bytes.len() as int);
    partial_valid_utf8_extend(bytes, i);
    let whole = bytes.subrange(0, i + w);
    assert(valid_utf8(whole));
    let scalar_bytes = bytes.subrange(i, i + w);
    // The byte at i opens a scalar encoding, so it is a character boundary.
    assert(whole[i] == suffix[0]);
    is_char_boundary_iff_not_is_continuation_byte(whole, i);
    assert(!is_continuation_byte(suffix[0]));
    assert(is_char_boundary(whole, i));
    decode_utf8_split(whole, i);
    assert(whole.subrange(0, i) =~= bytes.subrange(0, i));
    assert(whole.subrange(i, whole.len() as int) =~= scalar_bytes);
    // The scalar's bytes alone decode to exactly its character.
    assert(scalar_bytes.len() == w);
    assert(forall|k: int| 0 <= k < w ==> scalar_bytes[k] == #[trigger] suffix[k]);
    assert(valid_first_scalar(scalar_bytes));
    assert(decode_first_scalar(scalar_bytes) == cp);
    assert(length_of_first_scalar(scalar_bytes) == w);
    assert(pop_first_scalar(scalar_bytes) =~= Seq::<u8>::empty());
    assert(valid_utf8(Seq::<u8>::empty()));
    assert(valid_utf8(scalar_bytes));
    assert(decode_utf8(Seq::<u8>::empty()) =~= Seq::<char>::empty());
    assert(decode_utf8(scalar_bytes) =~= seq![cp as char]);
    char_u32_cast(c, cp);
    assert(decode_utf8(bytes.subrange(0, i + w)) =~= decode_utf8(bytes.subrange(0, i)).push(c));
}

} // verus!
