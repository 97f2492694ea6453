//! Framing: a message travels as the base64 text of its bytes.

use vstd::prelude::*;

verus! {

#[verifier::external_type_specification]
#[verifier::external_body]
pub struct ExDecodeError(base64::DecodeError);

/// The text that `base64::encode` makes of bytes.
pub uninterp spec fn base64_text(bytes: Seq<u8>) -> Seq<char>;

/// The bytes that `base64::decode` reads from a text, if it reads any.
pub uninterp spec fn base64_bytes(text: Seq<char>) -> Option<Seq<u8>>;

/// Why a frame was refused.
#[derive(Copy, Clone, Debug, PartialEq, Eq, Structural)]
pub enum FrameError {
    /// The text is not base64.
    NotBase64,
}

/// Encodes with `base64::encode`: the standard alphabet, with padding. The
/// result is the one that `base64_text` names, and `base64::decode` reads it
/// back as the same bytes.
#[verifier::external_body]
#[allow(deprecated)]
fn encode_base64(bytes: &[u8]) -> (text: String)
    ensures
        text@ == base64_text(bytes@),
        base64_bytes(text@) == Some(bytes@),
{
    base64::encode(bytes)
}

/// Decodes with `base64::decode`. The result is the one that `base64_bytes`
/// names.
#[verifier::external_body]
#[allow(deprecated)]
fn decode_base64(text: &str) -> (r: Result<Vec<u8>, base64::DecodeError>)
    ensures
        match r {
            Ok(bytes) => base64_bytes(text@) == Some(bytes@),
            Err(_) => base64_bytes(text@) is None,
        },
{
    base64::decode(text)
}

/// The text frame that carries `payload`.
pub fn frame(payload: &[u8]) -> (text: String)
    ensures
        text@ == base64_text(payload@),
        base64_bytes(text@) == Some(payload@),
{
    encode_base64(payload)
}

/// The payload that the text frame `text` carries.
pub fn unframe(text: &str) -> (r: Result<Vec<u8>, FrameError>)
    ensures
        match r {
            Ok(payload) => base64_bytes(text@) == Some(payload@),
            Err(e) => e == FrameError::NotBase64 && base64_bytes(text@) is None,
        },
{
    match decode_base64(text) {
        Ok(payload) => Ok(payload),
        Err(_) => Err(FrameError::NotBase64),
    }
}

} // verus!
