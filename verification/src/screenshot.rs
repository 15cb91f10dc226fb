//! The computing half of screenshot capture.
//!
//! Capturing the screen and compressing it to PNG are operating-system and
//! image-library work; what this crate owns is the step that turns the
//! PNG-encoded bytes into the `data:image/png;base64,` URL the UI displays.

use base64::Engine;
use vstd::prelude::*;
use vstd::string::StringExecFns;

verus! {

/// The base64 text (standard alphabet, padded) of a byte sequence.  The
/// encoding is a pure function of the bytes; its full definition lives in
/// the base64 crate and is not restated here.
pub uninterp spec fn base64_of(b: Seq<u8>) -> Seq<char>;

/// Relies on base64's `Engine::encode` with the `STANDARD` engine: the
/// result depends on the input bytes alone, and with padding it holds four
/// characters for every three input bytes, rounded up (`encoded_len`).  The
/// length bound keeps that size computation from overflowing, on which the
/// engine would panic.
#[verifier::external_body]
fn b64_encode(b: &Vec<u8>) -> (r: String)
    requires
        4 * ((b@.len() + 2) / 3) <= usize::MAX,
    ensures
        r@ == base64_of(b@),
        r@.len() == 4 * ((b@.len() + 2) / 3),
{
    base64::engine::general_purpose::STANDARD.encode(b)
}

/// The scheme-and-type prefix of a PNG data URL.
pub open spec fn data_url_prefix() -> Seq<char> {
    seq![
        'd',
        'a',
        't',
        'a',
        ':',
        'i',
        'm',
        'a',
        'g',
        'e',
        '/',
        'p',
        'n',
        'g',
        ';',
        'b',
        'a',
        's',
        'e',
        '6',
        '4',
        ',',
    ]
}

/// The data URL that displays a PNG image given by its encoded bytes.
pub open spec fn png_data_url_spec(b: Seq<u8>) -> Seq<char> {
    data_url_prefix() + base64_of(b)
}

/// Wrap PNG-encoded image bytes as a data URL.
pub fn png_data_url(png: &Vec<u8>) -> (r: String)
    requires
        4 * ((png@.len() + 2) / 3) <= usize::MAX,
    ensures
        r@ == png_data_url_spec(png@),
{
    let mut out = "data:image/png;base64,".to_owned();
    proof {
        reveal_strlit("data:image/png;base64,");
        assert(out@ =~= data_url_prefix());
    }
    let enc = b64_encode(png);
    out.append(enc.as_str());
    out
}

} // verus!
