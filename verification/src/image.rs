//! The bytes of an image that is handed over as a data URL.
//!
//! Such a text holds a prefix, a comma, and the image in base64. The pieces
//! of the text are what stands between its commas; the image is the second
//! piece.

use vstd::prelude::*;
use vstd::slice::slice_subrange;
use vstd::string::StringSliceAdditionalSpecFns;
use crate::failure::Failure;

verus! {

/// The byte of a comma.
pub const COMMA: u8 = 0x2c;

/// The place of the first comma of `text` at or after `from`, or the length
/// of `text` where there is none.
pub open spec fn comma_from(text: Seq<u8>, from: int) -> int
    decreases text.len() - from,
{
    if from >= text.len() {
        text.len() as int
    } else if text[from] == COMMA {
        from
    } else {
        comma_from(text, from + 1)
    }
}

/// The second piece of `text`: what stands after its first comma, up to the
/// next comma or to the end. A text without a comma has none.
pub open spec fn payload_of(text: Seq<u8>) -> Option<Seq<u8>> {
    let first = comma_from(text, 0);
    if first >= text.len() {
        None
    } else {
        Some(text.subrange(first + 1, comma_from(text, first + 1)))
    }
}

/// `comma_from` finds a comma, and the first one: no comma stands between
/// `from` and the place it gives.
pub proof fn lemma_comma_from(text: Seq<u8>, from: int)
    requires
        0 <= from <= text.len(),
    ensures
        from <= comma_from(text, from) <= text.len(),
        comma_from(text, from) < text.len() ==> text[comma_from(text, from)] == COMMA,
        forall|i: int| from <= i < comma_from(text, from) ==> text[i] != COMMA,
    decreases text.len() - from,
{
    if from < text.len() && text[from] != COMMA {
        lemma_comma_from(text, from + 1);
    }
}

/// Where no comma stands between `from` and `at`, the first comma after
/// `from` is the first one after `at`.
pub proof fn lemma_comma_from_skips(text: Seq<u8>, from: int, at: int)
    requires
        0 <= from <= at <= text.len(),
        forall|i: int| from <= i < at ==> text[i] != COMMA,
    ensures
        comma_from(text, from) == comma_from(text, at),
    decreases at - from,
{
    if from < at {
        lemma_comma_from_skips(text, from + 1, at);
    }
}

/// The place of the first comma of `text` at or after `from`.
fn find_comma(text: &[u8], from: usize) -> (at: usize)
    requires
        from <= text@.len(),
    ensures
        at == comma_from(text@, from as int),
{
    let mut at: usize = from;
    while at < text.len() && text[at] != COMMA
        invariant
            from <= at <= text@.len(),
            forall|i: int| from <= i < at ==> text@[i] != COMMA,
        decreases text@.len() - at,
    {
        at += 1;
    }
    proof {
        lemma_comma_from_skips(text@, from as int, at as int);
    }
    at
}

/// The second piece of `text`, where it has a comma.
pub fn payload(text: &[u8]) -> (piece: Option<&[u8]>)
    ensures
        match piece {
            Some(bytes) => payload_of(text@) == Some(bytes@),
            None => payload_of(text@) is None,
        },
{
    let first: usize = find_comma(text, 0);
    if first >= text.len() {
        None
    } else {
        let end: usize = find_comma(text, first + 1);
        proof {
            lemma_comma_from(text@, first + 1);
        }
        Some(slice_subrange(text, first + 1, end))
    }
}

/// The bytes that a text stands for in base64, standard alphabet, with
/// padding, or nothing where the text is not such base64.
pub uninterp spec fn base64_decoded(text: Seq<u8>) -> Option<Seq<u8>>;

/// Decodes with `base64::Engine::decode` on
/// `base64::engine::general_purpose::STANDARD`. What comes back is taken to
/// depend on `text` alone: the bytes decoded, or the failure.
#[verifier::external_body]
fn decode_base64(text: &[u8]) -> (decoded: Result<Vec<u8>, base64::DecodeError>)
    ensures
        match decoded {
            Ok(bytes) => base64_decoded(text@) == Some(bytes@),
            Err(_) => base64_decoded(text@) is None,
        },
{
    base64::Engine::decode(&base64::engine::general_purpose::STANDARD, text)
}

/// Whether `result` is what decoding an image owes, where `decoded` is what
/// the text's second piece, if it has one, stands for in base64.
pub open spec fn is_image_result(
    result: Result<Vec<u8>, Failure>,
    decoded: Option<Option<Seq<u8>>>,
) -> bool {
    match result {
        Ok(bytes) => decoded == Some(Some(bytes@)),
        Err(e) => match decoded {
            None => e == Failure::InvalidImage,
            Some(None) => e is Base64,
            Some(Some(_)) => false,
        },
    }
}

/// What the second piece of `text`, if it has one, stands for in base64.
pub open spec fn image_of(text: Seq<u8>) -> Option<Option<Seq<u8>>> {
    match payload_of(text) {
        Some(piece) => Some(base64_decoded(piece)),
        None => None,
    }
}

/// The bytes of the image that a data URL holds.
pub fn decode_image(image: &str) -> (result: Result<Vec<u8>, Failure>)
    ensures
        is_image_result(result, image_of(image.spec_bytes())),
{
    match payload(image.as_bytes()) {
        None => Err(Failure::InvalidImage),
        Some(piece) => match decode_base64(piece) {
            Ok(bytes) => Ok(bytes),
            Err(e) => Err(Failure::Base64(e)),
        },
    }
}

} // verus!
