use vstd::prelude::*;
use vstd::slice::slice_to_vec;

use crate::codec::{base64_bytes, base64_text, decode_base64, encode_base64};
use crate::error::Error;
use crate::value::DocumentValue;
use crate::wire::{Wire, WireValue};

verus! {

/// A byte string of any length.
///
/// Its text wire form is standard Base64; its binary wire form is the raw
/// byte string.
#[derive(Debug, Clone, PartialEq, Eq, PartialOrd, Ord)]
pub struct Bytes(pub Vec<u8>);

/// A byte string of exactly `N` bytes; the length is part of the type.
///
/// Its wire forms are those of [`Bytes`].
#[derive(Debug, Clone, Copy, PartialEq, Eq, PartialOrd, Ord)]
pub struct StaticBytes<const N: usize>(pub [u8; N]);

impl From<Vec<u8>> for Bytes {
    fn from(v: Vec<u8>) -> (r: Self) {
        Bytes(v)
    }
}

impl vstd::std_specs::convert::FromSpecImpl<Vec<u8>> for Bytes {
    open spec fn obeys_from_spec() -> bool {
        true
    }

    open spec fn from_spec(v: Vec<u8>) -> Self {
        Bytes(v)
    }
}

impl Default for Bytes {
    fn default() -> (r: Self)
        ensures
            r.0@ == Seq::<u8>::empty(),
    {
        Bytes(Vec::new())
    }
}

impl<const N: usize> From<[u8; N]> for StaticBytes<N> {
    fn from(d: [u8; N]) -> (r: Self) {
        StaticBytes(d)
    }
}

impl<const N: usize> vstd::std_specs::convert::FromSpecImpl<[u8; N]> for StaticBytes<N> {
    open spec fn obeys_from_spec() -> bool {
        true
    }

    open spec fn from_spec(d: [u8; N]) -> Self {
        StaticBytes(d)
    }
}

impl<const N: usize> Default for StaticBytes<N> {
    fn default() -> (r: Self)
        ensures
            forall|i: int| 0 <= i < N ==> r.0[i] == 0,
    {
        StaticBytes([0u8; N])
    }
}

/// The wire form of a byte string: its Base64 text in the text form, the raw
/// bytes in the binary form.
pub open spec fn bytes_wire(b: Seq<u8>, human_readable: bool) -> Wire {
    if human_readable {
        Wire::Text(base64_text(b))
    } else {
        Wire::Bytes(b)
    }
}

impl Bytes {
    /// The standard Base64 text of the bytes.
    pub fn to_base64(&self) -> (r: String)
        ensures
            r@ == base64_text(self.0@),
            base64_bytes(r@) == Some(self.0@),
    {
        encode_base64(self.0.as_slice())
    }

    pub fn to_wire(&self, human_readable: bool) -> (r: WireValue)
        ensures
            r@ == bytes_wire(self.0@, human_readable),
    {
        if human_readable {
            WireValue::Text(self.to_base64())
        } else {
            WireValue::Bytes(slice_to_vec(self.0.as_slice()))
        }
    }
}

impl Bytes {
    /// Reads a byte string from its text form, Base64; text that is not
    /// Base64 is a deserialization error.
    pub fn from_text(s: &str) -> (r: Result<Bytes, Error>)
        ensures
            r is Ok <==> base64_bytes(s@) is Some,
            r matches Ok(b) ==> base64_bytes(s@) == Some(b.0@),
            r matches Err(e) ==> e is DeserializationError,
    {
        match decode_base64(s) {
            Ok(data) => Ok(Bytes(data)),
            Err(msg) => Err(Error::DeserializationError(msg)),
        }
    }

    /// Reads a byte string from its binary form; a value of any other shape
    /// is a deserialization error.
    pub fn from_value(v: DocumentValue) -> (r: Result<Bytes, Error>)
        ensures
            r is Ok <==> v is Bytes,
            v matches DocumentValue::Bytes(b) ==> r == Ok::<Bytes, Error>(b),
            r matches Err(e) ==> e is DeserializationError,
    {
        match v {
            DocumentValue::Bytes(b) => Ok(b),
            _ => Err(Error::deserialization("expected a byte string")),
        }
    }
}

impl<const N: usize> StaticBytes<N> {
    /// Fills the fixed buffer from a byte string of exactly `N` bytes; any
    /// other length is a deserialization error, never truncated or padded.
    pub fn from_slice(b: &[u8]) -> (r: Result<StaticBytes<N>, Error>)
        ensures
            r is Ok <==> b@.len() == N,
            r matches Ok(s) ==> s.0@ == b@,
            r matches Err(e) ==> e is DeserializationError,
    {
        if b.len() != N {
            return Err(Error::deserialization("wrong length for fixed-length bytes"));
        }
        let mut a = [0u8; N];
        let mut i: usize = 0;
        while i < N
            invariant
                b@.len() == N,
                i <= N,
                forall|j: int| 0 <= j < i ==> a@[j] == b@[j],
            decreases N - i,
        {
            a[i] = b[i];
            i = i + 1;
        }
        assert(a@ =~= b@);
        Ok(StaticBytes(a))
    }

    /// Reads fixed-length bytes from their text form, Base64 of exactly `N`
    /// bytes.
    pub fn from_text(s: &str) -> (r: Result<StaticBytes<N>, Error>)
        ensures
            r is Ok <==> (base64_bytes(s@) matches Some(b) && b.len() == N),
            r matches Ok(x) ==> base64_bytes(s@) == Some(x.0@),
            r matches Err(e) ==> e is DeserializationError,
    {
        match decode_base64(s) {
            Ok(data) => StaticBytes::from_slice(data.as_slice()),
            Err(msg) => Err(Error::DeserializationError(msg)),
        }
    }

    /// Reads fixed-length bytes from their binary form, a byte string of
    /// exactly `N` bytes.
    pub fn from_value(v: DocumentValue) -> (r: Result<StaticBytes<N>, Error>)
        ensures
            r is Ok <==> (v matches DocumentValue::Bytes(b) && b.0@.len() == N),
            r matches Ok(x) ==> v matches DocumentValue::Bytes(b) && x.0@ == b.0@,
            r matches Err(e) ==> e is DeserializationError,
    {
        match v {
            DocumentValue::Bytes(b) => StaticBytes::from_slice(b.0.as_slice()),
            _ => Err(Error::deserialization("expected a byte string")),
        }
    }

    /// The standard Base64 text of the bytes.
    pub fn to_base64(&self) -> (r: String)
        ensures
            r@ == base64_text(self.0@),
            base64_bytes(r@) == Some(self.0@),
    {
        encode_base64(self.0.as_slice())
    }

    pub fn to_wire(&self, human_readable: bool) -> (r: WireValue)
        ensures
            r@ == bytes_wire(self.0@, human_readable),
    {
        if human_readable {
            WireValue::Text(self.to_base64())
        } else {
            WireValue::Bytes(slice_to_vec(self.0.as_slice()))
        }
    }
}

} // verus!
