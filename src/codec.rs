use vstd::prelude::*;

verus! {

/// The Base58 text (Bitcoin alphabet) of a byte string.
pub uninterp spec fn base58_text(b: Seq<u8>) -> Seq<char>;

/// The bytes that a Base58 text stands for, if it is valid Base58.
pub uninterp spec fn base58_bytes(s: Seq<char>) -> Option<Seq<u8>>;

/// The standard, padded Base64 text of a byte string.
pub uninterp spec fn base64_text(b: Seq<u8>) -> Seq<char>;

/// The bytes that a standard Base64 text stands for, if it is valid Base64.
pub uninterp spec fn base64_bytes(s: Seq<char>) -> Option<Seq<u8>>;

/// Relies on `bs58::encode(..).into_string()`: the Base58 text of the bytes,
/// which depends on the bytes alone, and which `bs58::decode` turns back into
/// the same bytes.
#[verifier::external_body]
pub(crate) fn encode_base58(b: &[u8]) -> (r: String)
    ensures
        r@ == base58_text(b@),
        base58_bytes(r@) == Some(b@),
{
    bs58::encode(b).into_string()
}

/// Relies on `bs58::decode(..).into_vec()`: the decoded bytes, or an error
/// (with its message) where the text is not valid Base58.
#[verifier::external_body]
pub(crate) fn decode_base58(s: &str) -> (r: Result<Vec<u8>, String>)
    ensures
        r is Ok <==> base58_bytes(s@) is Some,
        r matches Ok(v) ==> base58_bytes(s@) == Some(v@),
{
    match bs58::decode(s).into_vec() {
        Ok(v) => Ok(v),
        Err(e) => Err(e.to_string()),
    }
}

/// Relies on `base64::encode`: the standard Base64 text of the bytes, which
/// depends on the bytes alone, and which `base64::decode` turns back into the
/// same bytes.
#[verifier::external_body]
pub(crate) fn encode_base64(b: &[u8]) -> (r: String)
    ensures
        r@ == base64_text(b@),
        base64_bytes(r@) == Some(b@),
{
    base64::encode(b)
}

/// Relies on `base64::decode`: the decoded bytes, or an error (with its
/// message) where the text is not valid standard Base64.
#[verifier::external_body]
pub(crate) fn decode_base64(s: &str) -> (r: Result<Vec<u8>, String>)
    ensures
        r is Ok <==> base64_bytes(s@) is Some,
        r matches Ok(v) ==> base64_bytes(s@) == Some(v@),
{
    match base64::decode(s) {
        Ok(v) => Ok(v),
        Err(e) => Err(e.to_string()),
    }
}

} // verus!
