//! Text decoding: strict UTF-8 with an optional leading byte-order mark.

use vstd::prelude::*;

use crate::errors::FileError;
use crate::strutil::bytes_from;

verus! {

/// The UTF-8 byte-order mark.
pub open spec fn bom_bytes() -> Seq<u8> {
    seq![0xefu8, 0xbbu8, 0xbfu8]
}

/// Does `b` begin with the UTF-8 byte-order mark?
pub open spec fn starts_with_bom(b: Seq<u8>) -> bool {
    b.len() >= 3 && b[0] == 0xef && b[1] == 0xbb && b[2] == 0xbf
}

/// What decoding yields: the text after an optional BOM, decoded as strict
/// UTF-8, or an encoding error.
pub open spec fn spec_decode_text(b: Seq<u8>) -> Result<Seq<char>, FileError> {
    let body = if starts_with_bom(b) {
        b.skip(3)
    } else {
        b
    };
    if vstd::utf8::valid_utf8(body) {
        Ok(vstd::utf8::decode_utf8(body))
    } else {
        Err(FileError::Encoding)
    }
}

/// Relies on std's `String::from_utf8`: it succeeds exactly on valid UTF-8
/// and returns the string those bytes encode.
#[verifier::external_body]
fn utf8_to_string(bytes: Vec<u8>) -> (r: Option<String>)
    ensures
        r is Some <==> vstd::utf8::valid_utf8(bytes@),
        r matches Some(s) ==> s@ == vstd::utf8::decode_utf8(bytes@),
{
    String::from_utf8(bytes).ok()
}

/// Decode bytes as UTF-8 text, stripping a leading byte-order mark if one is
/// present.  Anything that is not valid UTF-8 after the optional BOM fails
/// with an encoding error.
pub fn decode_utf8(buf: Vec<u8>) -> (r: Result<String, FileError>)
    ensures
        r matches Ok(s) ==> spec_decode_text(buf@) == Ok::<Seq<char>, FileError>(s@),
        r matches Err(e) ==> spec_decode_text(buf@) == Err::<Seq<char>, FileError>(e),
{
    let has_bom = buf.len() >= 3 && buf[0] == 0xef && buf[1] == 0xbb && buf[2] == 0xbf;
    let body = if has_bom {
        bytes_from(&buf, 3)
    } else {
        buf
    };
    match utf8_to_string(body) {
        Some(s) => Ok(s),
        None => Err(FileError::Encoding),
    }
}

/// Decoding strips a byte-order mark and otherwise leaves encoded text
/// unchanged: text encoded as UTF-8 decodes to itself, with or without a
/// leading BOM.
pub proof fn lemma_decode_text_round_trip(chars: Seq<char>)
    ensures
        spec_decode_text(bom_bytes() + vstd::utf8::encode_utf8(chars)) == Ok::<
            Seq<char>,
            FileError,
        >(chars),
        !starts_with_bom(vstd::utf8::encode_utf8(chars)) ==> spec_decode_text(
            vstd::utf8::encode_utf8(chars),
        ) == Ok::<Seq<char>, FileError>(chars),
{
    let enc = vstd::utf8::encode_utf8(chars);
    vstd::utf8::encode_utf8_valid_utf8(chars);
    vstd::utf8::encode_utf8_decode_utf8(chars);
    let with_bom = bom_bytes() + enc;
    assert(with_bom[0] == 0xef && with_bom[1] == 0xbb && with_bom[2] == 0xbf);
    assert(with_bom.skip(3) =~= enc);
}

/// Bytes that are not valid UTF-8 after the optional byte-order mark fail
/// with an encoding error.
pub proof fn lemma_decode_text_invalid(b: Seq<u8>)
    requires
        !vstd::utf8::valid_utf8(
            if starts_with_bom(b) {
                b.skip(3)
            } else {
                b
            },
        ),
    ensures
        spec_decode_text(b) == Err::<Seq<char>, FileError>(FileError::Encoding),
{
}

} // verus!
