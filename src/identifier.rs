use vstd::prelude::*;
use vstd::slice::slice_to_vec;

use crate::codec::{base58_bytes, base58_text, decode_base58, encode_base58};
use crate::error::Error;
use crate::value::DocumentValue;
use crate::wire::{Wire, WireValue};

verus! {

/// A content identifier of 32 bytes.
///
/// Its text wire form is Base58; its binary wire form is the raw byte string.
/// Reading one of any other length from either form is an error.
#[derive(Debug, Clone, PartialEq, Eq, PartialOrd, Ord)]
pub struct Identifier {
    pub data: Vec<u8>,
}

impl From<Vec<u8>> for Identifier {
    fn from(v: Vec<u8>) -> (r: Self) {
        Identifier { data: v }
    }
}

impl vstd::std_specs::convert::FromSpecImpl<Vec<u8>> for Identifier {
    open spec fn obeys_from_spec() -> bool {
        true
    }

    open spec fn from_spec(v: Vec<u8>) -> Self {
        Identifier { data: v }
    }
}

impl Default for Identifier {
    /// The identifier of 32 zero bytes.
    fn default() -> (r: Self)
        ensures
            r.data@ == Seq::new(32, |i: int| 0u8),
    {
        let data = vec![0u8; 32];
        assert(data@ =~= Seq::new(32, |i: int| 0u8));
        Identifier { data }
    }
}

/// The wire form of an identifier: its Base58 text in the text form, the raw
/// bytes in the binary form.
pub open spec fn identifier_wire(b: Seq<u8>, human_readable: bool) -> Wire {
    if human_readable {
        Wire::Text(base58_text(b))
    } else {
        Wire::Bytes(b)
    }
}

impl Identifier {
    /// The Base58 text of the identifier.
    pub fn to_base58(&self) -> (r: String)
        ensures
            r@ == base58_text(self.data@),
            base58_bytes(r@) == Some(self.data@),
    {
        encode_base58(self.data.as_slice())
    }

    pub fn to_wire(&self, human_readable: bool) -> (r: WireValue)
        ensures
            r@ == identifier_wire(self.data@, human_readable),
    {
        if human_readable {
            WireValue::Text(self.to_base58())
        } else {
            WireValue::Bytes(slice_to_vec(self.data.as_slice()))
        }
    }

    /// Reads an identifier from its text form, Base58 of exactly 32 bytes;
    /// text that is not Base58, or stands for another number of bytes, is a
    /// deserialization error.
    pub fn from_text(s: &str) -> (r: Result<Identifier, Error>)
        ensures
            r is Ok <==> (base58_bytes(s@) matches Some(b) && b.len() == 32),
            r matches Ok(id) ==> base58_bytes(s@) == Some(id.data@),
            r matches Err(e) ==> e is DeserializationError,
    {
        match decode_base58(s) {
            Ok(data) => if data.len() == 32 {
                Ok(Identifier { data })
            } else {
                Err(Error::deserialization("an identifier must be 32 bytes long"))
            },
            Err(msg) => Err(Error::DeserializationError(msg)),
        }
    }

    /// Reads an identifier from its binary form, a byte string of exactly 32
    /// bytes; a value of any other shape or length is a deserialization error.
    pub fn from_value(v: DocumentValue) -> (r: Result<Identifier, Error>)
        ensures
            r is Ok <==> (v matches DocumentValue::Bytes(b) && b.0@.len() == 32),
            r matches Ok(id) ==> v matches DocumentValue::Bytes(b) && id.data == b.0,
            r matches Err(e) ==> e is DeserializationError,
    {
        match v {
            DocumentValue::Bytes(b) => if b.0.len() == 32 {
                Ok(Identifier { data: b.0 })
            } else {
                Err(Error::deserialization("an identifier must be 32 bytes long"))
            },
            _ => Err(Error::deserialization("expected bytes for an identifier")),
        }
    }
}

} // verus!
