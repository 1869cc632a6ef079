//! A canonical dynamic-value codec.
//!
//! Typed records are built into one dynamic tree ([`DocumentValue`]) by
//! [`ToDashValue`], which recovers identifier, byte-string and version
//! leaves from their wrapper names. A tree is encoded into a wire tree
//! ([`WireValue`]) for the text form or the binary form: map entries always
//! come out in the canonical key order (shorter UTF-8 keys first, then
//! byte-wise), so trees with the same contents encode identically whatever
//! order their entries were inserted in. [`DocumentValue::from_wire`] reads a
//! wire tree back without knowing its record type.

mod bytes;
mod canonical;
mod codec;
mod error;
mod identifier;
mod map_builder;
mod seq_builder;
mod to_value;
mod transform;
mod value;
mod version;
mod wire;

pub use bytes::{bytes_wire, Bytes, StaticBytes};
pub use canonical::{bytes_lt, compare_keys, key_lt, lemma_key_order, lex_lt};
pub use codec::{base58_bytes, base58_text, base64_bytes, base64_text};
pub use error::Error;
pub use identifier::{identifier_wire, Identifier};
pub use map_builder::{lemma_version_suppression, offered, SerializeMap};
pub use seq_builder::SerializeVec;
pub use to_value::{wrapped_as, wrapper_kind, wrapper_kind_of, wraps, ToDashValue, WrapperKind};
pub use value::{
    at_path, byte_free, bytes_replaced, child_at, decoded_from, entries_map, has_key,
    is_byte_array, keys_ascending, last_with_key, lemma_bytes_as_arrays_expands_identifier_at_path,
    lemma_bytes_as_arrays_idempotent_on_byte_free, lemma_encoding_independent_of_insertion_order,
    lemma_identifier_binary_round_trip, same_tree, wire_canonical, wire_of, DashValueIndex,
    DocumentValue, ValueMap,
};
pub use version::Version;
pub use wire::{wire_keys_ascending, wire_view, Wire, WireValue};
