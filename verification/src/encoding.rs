//! The text encoding of a log file, and decoding one line of it.

use encoding::all::GB18030;
use encoding::{DecoderTrap, Encoding};
use vstd::prelude::*;
use vstd::utf8::{decode_utf8, encode_utf8, encode_utf8_decode_utf8, encode_utf8_valid_utf8, valid_utf8};
use crate::text::all_ascii;

verus! {

/// Which character encoding a log file uses.
#[derive(Copy, Clone, Debug, PartialEq, Eq)]
pub enum FileEncodingHint {
    /// Per line: UTF-8 when the line is valid UTF-8, otherwise GB18030.
    Auto,
    /// UTF-8.
    Utf8,
    /// GB18030.
    Gb18030,
}

impl Default for FileEncodingHint {
    fn default() -> (r: Self)
        ensures
            r == FileEncodingHint::Auto,
    {
        FileEncodingHint::Auto
    }
}

/// What `String::from_utf8_lossy` makes of some bytes: invalid sequences
/// become U+FFFD.
pub uninterp spec fn lossy_utf8(b: Seq<u8>) -> Seq<char>;

/// What the `encoding` crate's strict GB18030 decoder makes of some bytes,
/// `None` when they are not valid GB18030.
pub uninterp spec fn gb18030_strict(b: Seq<u8>) -> Option<Seq<char>>;

pub open spec fn opt_chars(o: Option<String>) -> Option<Seq<char>> {
    match o {
        Some(s) => Some(s@),
        None => None,
    }
}

/// The characters of ASCII bytes.
pub open spec fn ascii_chars(b: Seq<u8>) -> Seq<char> {
    b.map_values(|c: u8| c as char)
}

/// Strict UTF-8 decoding through `std::str::from_utf8`: the text when the
/// bytes are valid UTF-8, `None` otherwise.
#[verifier::external_body]
pub(crate) fn utf8_strict(bytes: &[u8]) -> (r: Option<&str>)
    ensures
        r is Some <==> valid_utf8(bytes@),
        r matches Some(s) ==> s@ == decode_utf8(bytes@),
{
    match std::str::from_utf8(bytes) {
        Ok(text) => Some(text),
        Err(_) => None,
    }
}

/// Lossy UTF-8 decoding through `String::from_utf8_lossy`; its documentation
/// promises the same text as strict decoding for valid UTF-8.
#[verifier::external_body]
fn utf8_lossy(bytes: &[u8]) -> (r: String)
    ensures
        r@ == lossy_utf8(bytes@),
        valid_utf8(bytes@) ==> r@ == decode_utf8(bytes@),
{
    String::from_utf8_lossy(bytes).into_owned()
}

/// Strict GB18030 decoding through `GB18030.decode(.., DecoderTrap::Strict)`
/// of the `encoding` crate. Its decoder maps each byte below 0x80 to the
/// character of the same value, so ASCII input decodes to itself; what it
/// makes of other bytes is left to the name [`gb18030_strict`].
#[verifier::external_body]
fn gb18030(bytes: &[u8]) -> (r: Option<String>)
    ensures
        opt_chars(r) == gb18030_strict(bytes@),
        all_ascii(bytes@) ==> opt_chars(r) == Some(ascii_chars(bytes@)),
{
    match GB18030.decode(bytes, DecoderTrap::Strict) {
        Ok(text) => Some(text),
        Err(_) => None,
    }
}

/// GB18030 when the bytes are valid GB18030, otherwise lossy UTF-8.
pub open spec fn gb18030_or_lossy(b: Seq<u8>) -> Seq<char> {
    match gb18030_strict(b) {
        Some(s) => s,
        None => lossy_utf8(b),
    }
}

/// The text of one line's bytes under an encoding hint.
pub open spec fn decode_spec(b: Seq<u8>, hint: FileEncodingHint) -> Seq<char> {
    match hint {
        FileEncodingHint::Utf8 => lossy_utf8(b),
        FileEncodingHint::Gb18030 => gb18030_or_lossy(b),
        FileEncodingHint::Auto => if valid_utf8(b) {
            decode_utf8(b)
        } else {
            gb18030_or_lossy(b)
        },
    }
}

proof fn lemma_ascii_valid_utf8(b: Seq<u8>)
    requires
        all_ascii(b),
    ensures
        valid_utf8(b),
        decode_utf8(b) == ascii_chars(b),
    decreases b.len(),
{
    if b.len() > 0 {
        let rest = b.subrange(1, b.len() as int);
        assert(all_ascii(rest)) by {
            assert forall|k: int| 0 <= k < rest.len() implies #[trigger] rest[k] < 0x80 by {
                assert(rest[k] == b[k + 1]);
            }
        }
        lemma_ascii_valid_utf8(rest);
        assert(vstd::utf8::pop_first_scalar(b) == rest);
        assert(decode_utf8(b) =~= ascii_chars(b)) by {
            let c = b[0];
            assert((c & 0x7f) as u32 == c as u32) by (bit_vector)
                requires
                    c < 0x80,
            ;
            assert(vstd::utf8::decode_first_scalar(b) == b[0] as u32);
        }
    }
}

/// Decodes one line. Strict decoding failures fall back to lossy UTF-8, so a
/// bad line never stops a stream. Valid UTF-8 decodes to its text under
/// `Auto` and `Utf8`; ASCII decodes to itself under every hint.
pub fn decode(bytes: &[u8], hint: FileEncodingHint) -> (r: String)
    ensures
        r@ == decode_spec(bytes@, hint),
        valid_utf8(bytes@) && hint != FileEncodingHint::Gb18030 ==> r@ == decode_utf8(bytes@),
        all_ascii(bytes@) ==> r@ == ascii_chars(bytes@),
{
    proof {
        if all_ascii(bytes@) {
            lemma_ascii_valid_utf8(bytes@);
        }
    }
    match hint {
        FileEncodingHint::Utf8 => utf8_lossy(bytes),
        FileEncodingHint::Gb18030 => decode_gb18030(bytes),
        FileEncodingHint::Auto => match utf8_strict(bytes) {
            Some(text) => text.to_owned(),
            None => decode_gb18030(bytes),
        },
    }
}

fn decode_gb18030(bytes: &[u8]) -> (r: String)
    ensures
        r@ == gb18030_or_lossy(bytes@),
        all_ascii(bytes@) ==> r@ == ascii_chars(bytes@),
{
    match gb18030(bytes) {
        Some(text) => text,
        None => utf8_lossy(bytes),
    }
}

/// The UTF-8 bytes of a text decode to that text when the encoding is
/// detected per line: the byte entry points read the bytes of a `&str` as
/// the text itself.
pub proof fn lemma_auto_decodes_utf8_text(t: Seq<char>)
    ensures
        decode_spec(encode_utf8(t), FileEncodingHint::Auto) == t,
{
    encode_utf8_valid_utf8(t);
    encode_utf8_decode_utf8(t);
}

} // verus!
