use std::cmp::Ordering;
use vstd::prelude::*;

use crate::bytes::{Bytes, StaticBytes};
use crate::canonical::compare_keys;
use crate::error::Error;
use crate::identifier::Identifier;
use crate::map_builder::SerializeMap;
use crate::seq_builder::SerializeVec;
use crate::value::DocumentValue;

verus! {

/// The declared wrapper types whose leaf kind the builder recovers from the
/// name that travels with the wrapped value.
#[derive(Debug, Clone, Copy, PartialEq, Eq, Structural)]
pub enum WrapperKind {
    /// `Version`: an unsigned integer that becomes a version leaf.
    Version,
    /// `StaticBytes`: a byte string of 32 bytes that becomes a fixed-length leaf.
    StaticBytes,
    /// `Bytes`: a byte string that stays a byte-string leaf.
    Bytes,
    /// `identifier`: a byte string of 32 bytes that becomes an identifier leaf.
    Identifier,
}

/// The wrapper kind that a declared wrapper name stands for, if any.
pub open spec fn wrapper_kind_of(name: Seq<char>) -> Option<WrapperKind> {
    if name == "Version"@ {
        Some(WrapperKind::Version)
    } else if name == "StaticBytes"@ {
        Some(WrapperKind::StaticBytes)
    } else if name == "Bytes"@ {
        Some(WrapperKind::Bytes)
    } else if name == "identifier"@ {
        Some(WrapperKind::Identifier)
    } else {
        None
    }
}

/// Whether `inner` has the primitive shape that wrapper `kind` wraps.
pub open spec fn wraps(kind: WrapperKind, inner: DocumentValue) -> bool {
    match kind {
        WrapperKind::Version => inner matches DocumentValue::UInteger(u) && u <= u32::MAX,
        WrapperKind::StaticBytes => inner matches DocumentValue::Bytes(b) && b.0@.len() == 32,
        WrapperKind::Bytes => inner is Bytes,
        WrapperKind::Identifier => inner matches DocumentValue::Bytes(b) && b.0@.len() == 32,
    }
}

/// Whether `out` is the leaf of kind `kind` that holds `inner`.
pub open spec fn wrapped_as(kind: WrapperKind, inner: DocumentValue, out: DocumentValue) -> bool {
    match (kind, inner) {
        (WrapperKind::Version, DocumentValue::UInteger(u)) => out == DocumentValue::Version(
            u as u32,
        ),
        (WrapperKind::StaticBytes, DocumentValue::Bytes(b)) => out matches DocumentValue::StaticBytes(
            s,
        ) && s.0@ == b.0@,
        (WrapperKind::Bytes, DocumentValue::Bytes(b)) => out == DocumentValue::Bytes(b),
        (WrapperKind::Identifier, DocumentValue::Bytes(b)) => out == DocumentValue::Identifier(
            Identifier { data: b.0 },
        ),
        _ => false,
    }
}

/// Relies on `char::to_string`: a string of exactly that character.
#[verifier::external_body]
fn char_to_string(c: char) -> (r: String)
    ensures
        r@ == seq![c],
{
    c.to_string()
}

/// Builds a value tree from the shapes that a typed record reports about
/// itself, one operation per shape.
///
/// With `skip_version` set, version leaves are left out of every map that it
/// builds, at any depth.
#[derive(Debug, Clone, Copy)]
pub struct ToDashValue {
    skip_version: bool,
}

impl Default for ToDashValue {
    fn default() -> (r: Self)
        ensures
            !r.skips_version(),
    {
        ToDashValue { skip_version: false }
    }
}

impl ToDashValue {
    /// Whether version leaves are left out of the maps that this builder builds.
    pub closed spec fn skips_version(self) -> bool {
        self.skip_version
    }

    pub fn with_skip_version(self, ignore_version: bool) -> (r: Self)
        ensures
            r.skips_version() == ignore_version,
    {
        let mut s = self;
        s.skip_version = ignore_version;
        s
    }

    /// The builder reports itself as producing a binary form, so that
    /// wrapper types hand it their raw bytes.
    pub fn is_human_readable(&self) -> (r: bool)
        ensures
            !r,
    {
        false
    }

    pub fn serialize_bool(self, value: bool) -> (r: Result<DocumentValue, Error>)
        ensures
            r == Ok::<DocumentValue, Error>(DocumentValue::Bool(value)),
    {
        Ok(DocumentValue::Bool(value))
    }

    pub fn serialize_i8(self, value: i8) -> (r: Result<DocumentValue, Error>)
        ensures
            r == Ok::<DocumentValue, Error>(DocumentValue::Integer(value as i64)),
    {
        self.serialize_i64(value as i64)
    }

    pub fn serialize_i16(self, value: i16) -> (r: Result<DocumentValue, Error>)
        ensures
            r == Ok::<DocumentValue, Error>(DocumentValue::Integer(value as i64)),
    {
        self.serialize_i64(value as i64)
    }

    pub fn serialize_i32(self, value: i32) -> (r: Result<DocumentValue, Error>)
        ensures
            r == Ok::<DocumentValue, Error>(DocumentValue::Integer(value as i64)),
    {
        self.serialize_i64(value as i64)
    }

    pub fn serialize_i64(self, value: i64) -> (r: Result<DocumentValue, Error>)
        ensures
            r == Ok::<DocumentValue, Error>(DocumentValue::Integer(value)),
    {
        Ok(DocumentValue::Integer(value))
    }

    pub fn serialize_u8(self, value: u8) -> (r: Result<DocumentValue, Error>)
        ensures
            r == Ok::<DocumentValue, Error>(DocumentValue::UInteger(value as u64)),
    {
        self.serialize_u64(value as u64)
    }

    pub fn serialize_u16(self, value: u16) -> (r: Result<DocumentValue, Error>)
        ensures
            r == Ok::<DocumentValue, Error>(DocumentValue::UInteger(value as u64)),
    {
        self.serialize_u64(value as u64)
    }

    pub fn serialize_u32(self, value: u32) -> (r: Result<DocumentValue, Error>)
        ensures
            r == Ok::<DocumentValue, Error>(DocumentValue::UInteger(value as u64)),
    {
        self.serialize_u64(value as u64)
    }

    pub fn serialize_u64(self, value: u64) -> (r: Result<DocumentValue, Error>)
        ensures
            r == Ok::<DocumentValue, Error>(DocumentValue::UInteger(value)),
    {
        Ok(DocumentValue::UInteger(value))
    }

    /// A 64-bit float, given by its IEEE 754 bit pattern.
    pub fn serialize_f64_bits(self, bits: u64) -> (r: Result<DocumentValue, Error>)
        ensures
            r == Ok::<DocumentValue, Error>(DocumentValue::Float(bits)),
    {
        Ok(DocumentValue::Float(bits))
    }

    pub fn serialize_char(self, value: char) -> (r: Result<DocumentValue, Error>)
        ensures
            r matches Ok(DocumentValue::String(s)) && s@ == seq![value],
    {
        Ok(DocumentValue::String(char_to_string(value)))
    }

    pub fn serialize_str(self, value: &str) -> (r: Result<DocumentValue, Error>)
        ensures
            r matches Ok(DocumentValue::String(s)) && s@ == value@,
    {
        Ok(DocumentValue::String(value.to_owned()))
    }

    pub fn serialize_bytes(self, value: &[u8]) -> (r: Result<DocumentValue, Error>)
        ensures
            r matches Ok(DocumentValue::Bytes(b)) && b.0@ == value@,
    {
        Ok(DocumentValue::Bytes(Bytes(vstd::slice::slice_to_vec(value))))
    }

    /// The unit value, and a present-but-empty optional, become null.
    pub fn serialize_unit(self) -> (r: Result<DocumentValue, Error>)
        ensures
            r == Ok::<DocumentValue, Error>(DocumentValue::Null),
    {
        Ok(DocumentValue::Null)
    }

    pub fn serialize_unit_struct(self, _name: &str) -> (r: Result<DocumentValue, Error>)
        ensures
            r == Ok::<DocumentValue, Error>(DocumentValue::Null),
    {
        self.serialize_unit()
    }

    /// A variant without payload becomes the string of its name.
    pub fn serialize_unit_variant(self, _name: &str, _variant_index: u32, variant: &str) -> (r:
        Result<DocumentValue, Error>)
        ensures
            r matches Ok(DocumentValue::String(s)) && s@ == variant@,
    {
        self.serialize_str(variant)
    }

    pub fn serialize_none(self) -> (r: Result<DocumentValue, Error>)
        ensures
            r == Ok::<DocumentValue, Error>(DocumentValue::Null),
    {
        self.serialize_unit()
    }

    /// Re-wraps an already built inner value as the leaf of wrapper `kind`;
    /// an inner value of another shape is an error, never coerced.
    pub fn serialize_wrapped(self, kind: WrapperKind, inner: DocumentValue) -> (r: Result<
        DocumentValue,
        Error,
    >)
        ensures
            r is Ok <==> wraps(kind, inner),
            r matches Ok(v) ==> wrapped_as(kind, inner, v),
            r matches Err(e) ==> e is SerializationError,
    {
        match kind {
            WrapperKind::Version => match inner {
                DocumentValue::UInteger(u) => if u <= u32::MAX as u64 {
                    Ok(DocumentValue::Version(u as u32))
                } else {
                    Err(Error::serialization("version out of range"))
                },
                _ => Err(Error::serialization("expected an unsigned integer for a version")),
            },
            WrapperKind::StaticBytes => match inner {
                DocumentValue::Bytes(b) => {
                    if b.0.len() != 32 {
                        return Err(Error::serialization("expected 32 bytes for fixed-length bytes"));
                    }
                    let mut a = [0u8; 32];
                    let mut i: usize = 0;
                    while i < 32
                        invariant
                            b.0@.len() == 32,
                            i <= 32,
                            forall|j: int| 0 <= j < i ==> a@[j] == b.0@[j],
                        decreases 32 - i,
                    {
                        a[i] = b.0[i];
                        i = i + 1;
                    }
                    let out = DocumentValue::StaticBytes(StaticBytes(a));
                    assert(a@ =~= b.0@);
                    Ok(out)
                },
                _ => Err(Error::serialization("expected a byte string for fixed-length bytes")),
            },
            WrapperKind::Bytes => match inner {
                DocumentValue::Bytes(b) => Ok(DocumentValue::Bytes(b)),
                _ => Err(Error::serialization("expected a byte string for bytes")),
            },
            WrapperKind::Identifier => match inner {
                DocumentValue::Bytes(b) => if b.0.len() == 32 {
                    Ok(DocumentValue::Identifier(Identifier { data: b.0 }))
                } else {
                    Err(Error::serialization("expected 32 bytes for an identifier"))
                },
                _ => Err(Error::serialization("expected a byte string for an identifier")),
            },
        }
    }

    /// A named newtype: a declared wrapper name has its inner value re-wrapped
    /// as that wrapper's leaf; any other name passes the inner value through.
    pub fn serialize_newtype_struct(self, name: &str, inner: DocumentValue) -> (r: Result<
        DocumentValue,
        Error,
    >)
        ensures
            wrapper_kind_of(name@) is None ==> r == Ok::<DocumentValue, Error>(inner),
            wrapper_kind_of(name@) matches Some(kind) ==> {
                &&& (r is Ok <==> wraps(kind, inner))
                &&& (r matches Ok(v) ==> wrapped_as(kind, inner, v))
                &&& (r matches Err(e) ==> e is SerializationError)
            },
    {
        match wrapper_kind(name) {
            Some(kind) => self.serialize_wrapped(kind, inner),
            None => Ok(inner),
        }
    }

    /// A variant with a payload cannot be represented.
    pub fn serialize_newtype_variant(
        self,
        _name: &str,
        _variant_index: u32,
        _variant: &str,
        _value: DocumentValue,
    ) -> (r: Result<DocumentValue, Error>)
        ensures
            r matches Err(e) && e is Unsupported,
    {
        Err(Error::unsupported("new type variant"))
    }

    pub fn serialize_seq(self, len: Option<usize>) -> (r: Result<SerializeVec, Error>)
        ensures
            r matches Ok(s) && s.vec@.len() == 0 && s.skips_version() == self.skips_version(),
    {
        let capacity = match len {
            Some(n) => n,
            None => 0,
        };
        Ok(SerializeVec::new(Vec::with_capacity(capacity), self.skip_version))
    }

    pub fn serialize_tuple(self, len: usize) -> (r: Result<SerializeVec, Error>)
        ensures
            r matches Ok(s) && s.vec@.len() == 0 && s.skips_version() == self.skips_version(),
    {
        self.serialize_seq(Some(len))
    }

    /// A tuple struct cannot be represented.
    pub fn serialize_tuple_struct(self, _name: &str, _len: usize) -> (r: Result<(), Error>)
        ensures
            r matches Err(e) && e is Unsupported,
    {
        Err(Error::unsupported("tuple struct isn't supported yet"))
    }

    /// A tuple variant cannot be represented.
    pub fn serialize_tuple_variant(
        self,
        _name: &str,
        _variant_index: u32,
        _variant: &str,
        _len: usize,
    ) -> (r: Result<(), Error>)
        ensures
            r matches Err(e) && e is Unsupported,
    {
        Err(Error::unsupported("tuple variant isn't supported yet"))
    }

    pub fn serialize_map(self, _len: Option<usize>) -> (r: Result<SerializeMap, Error>)
        ensures
            r matches Ok(m) && m.skips_version() == self.skips_version() && m.contents() == Map::<
                Seq<char>,
                DocumentValue,
            >::empty()
                && m.pending_key() is None,
    {
        Ok(SerializeMap::new(self.skip_version))
    }

    pub fn serialize_struct(self, _name: &str, len: usize) -> (r: Result<SerializeMap, Error>)
        ensures
            r matches Ok(m) && m.skips_version() == self.skips_version() && m.contents() == Map::<
                Seq<char>,
                DocumentValue,
            >::empty()
                && m.pending_key() is None,
    {
        self.serialize_map(Some(len))
    }

    /// A struct variant cannot be represented.
    pub fn serialize_struct_variant(
        self,
        _name: &str,
        _variant_index: u32,
        _variant: &str,
        _len: usize,
    ) -> (r: Result<(), Error>)
        ensures
            r matches Err(e) && e is Unsupported,
    {
        Err(Error::unsupported("struct variant is not supported"))
    }
}

/// Recognises a declared wrapper name.
pub fn wrapper_kind(name: &str) -> (r: Option<WrapperKind>)
    ensures
        r == wrapper_kind_of(name@),
{
    if matches!(compare_keys(name, "Version"), Ordering::Equal) {
        Some(WrapperKind::Version)
    } else if matches!(compare_keys(name, "StaticBytes"), Ordering::Equal) {
        Some(WrapperKind::StaticBytes)
    } else if matches!(compare_keys(name, "Bytes"), Ordering::Equal) {
        Some(WrapperKind::Bytes)
    } else if matches!(compare_keys(name, "identifier"), Ordering::Equal) {
        Some(WrapperKind::Identifier)
    } else {
        None
    }
}

} // verus!
