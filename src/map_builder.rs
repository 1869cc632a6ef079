use vstd::prelude::*;

use crate::error::Error;
use crate::to_value::ToDashValue;
use crate::value::{DocumentValue, ValueMap};

verus! {

/// What a map holds after `value` is offered under `key`: a version leaf is
/// left out when versions are suppressed, anything else is stored.
pub open spec fn offered(
    contents: Map<Seq<char>, DocumentValue>,
    skip_version: bool,
    key: Seq<char>,
    value: DocumentValue,
) -> Map<Seq<char>, DocumentValue> {
    if skip_version && value is Version {
        contents
    } else {
        contents.insert(key, value)
    }
}

/// A version leaf offered to a map under a new key is left out when versions
/// are suppressed, and kept with its number unchanged otherwise.
pub proof fn lemma_version_suppression(
    contents: Map<Seq<char>, DocumentValue>,
    key: Seq<char>,
    version: u32,
)
    requires
        !contents.contains_key(key),
    ensures
        !offered(contents, true, key, DocumentValue::Version(version)).contains_key(key),
        offered(contents, false, key, DocumentValue::Version(version)).contains_key(key),
        offered(contents, false, key, DocumentValue::Version(version))[key]
            == DocumentValue::Version(version),
{
}

/// Accumulates the entries of a map or the fields of a struct.
pub struct SerializeMap {
    skip_version: bool,
    map: ValueMap,
    next_key: Option<String>,
}

impl SerializeMap {
    /// Whether version leaves are left out.
    pub closed spec fn skips_version(self) -> bool {
        self.skip_version
    }

    /// The entries accumulated so far.
    pub closed spec fn contents(self) -> Map<Seq<char>, DocumentValue> {
        self.map.as_map()
    }

    /// The key given by `serialize_key` that still awaits its value.
    pub closed spec fn pending_key(self) -> Option<Seq<char>> {
        match self.next_key {
            Some(k) => Some(k@),
            None => None,
        }
    }

    pub fn new(ignore_version: bool) -> (r: Self)
        ensures
            r.skips_version() == ignore_version,
            r.contents() == Map::<Seq<char>, DocumentValue>::empty(),
            r.pending_key() is None,
    {
        SerializeMap { skip_version: ignore_version, map: ValueMap::new(), next_key: None }
    }

    /// The builder for each key and value: it suppresses versions as this
    /// map's builder does, so version leaves of nested maps are left out too.
    pub fn value_builder(&self) -> (r: ToDashValue)
        ensures
            r.skips_version() == self.skips_version(),
    {
        ToDashValue::default().with_skip_version(self.skip_version)
    }

    /// Takes the key of the next entry, which must be a string.
    pub fn serialize_key(&mut self, key: DocumentValue) -> (r: Result<(), Error>)
        ensures
            final(self).skips_version() == old(self).skips_version(),
            final(self).contents() == old(self).contents(),
            key matches DocumentValue::String(k) ==> r is Ok && final(self).pending_key() == Some(k@),
            !(key is String) ==> (r matches Err(e) && e is SerializationError) && final(self).pending_key() == old(self).pending_key(),
    {
        match key {
            DocumentValue::String(k) => {
                self.next_key = Some(k);
                Ok(())
            },
            _ => Err(Error::serialization("map key must be a string")),
        }
    }

    /// Takes the value of the entry whose key came last; a value without a
    /// key is an error.
    pub fn serialize_value(&mut self, value: DocumentValue) -> (r: Result<(), Error>)
        ensures
            final(self).skips_version() == old(self).skips_version(),
            final(self).pending_key() is None,
            old(self).pending_key() is None ==> (r matches Err(e) && e is SerializationError)
                && final(self).contents() == old(self).contents(),
            old(self).pending_key() matches Some(k) ==> r is Ok && final(self).contents() == offered(
                old(self).contents(),
                old(self).skips_version(),
                k,
                value,
            ),
    {
        match self.next_key.take() {
            None => Err(Error::serialization("serialize_value called before serialize_key")),
            Some(key) => {
                if !(self.skip_version && matches!(value, DocumentValue::Version(_))) {
                    self.map.insert(key, value);
                }
                Ok(())
            },
        }
    }

    /// Takes one entry.
    pub fn serialize_entry(&mut self, key: DocumentValue, value: DocumentValue) -> (r: Result<
        (),
        Error,
    >)
        ensures
            final(self).skips_version() == old(self).skips_version(),
            key matches DocumentValue::String(k) ==> r is Ok && final(self).pending_key() is None
                && final(self).contents() == offered(
                old(self).contents(),
                old(self).skips_version(),
                k@,
                value,
            ),
            !(key is String) ==> (r matches Err(e) && e is SerializationError) && final(self).contents() == old(self).contents(),
    {
        match self.serialize_key(key) {
            Ok(()) => self.serialize_value(value),
            Err(e) => Err(e),
        }
    }

    /// Takes one named field of a struct.
    pub fn serialize_field(&mut self, key: &str, value: DocumentValue) -> (r: Result<(), Error>)
        ensures
            r is Ok,
            final(self).skips_version() == old(self).skips_version(),
            final(self).pending_key() is None,
            final(self).contents() == offered(
                old(self).contents(),
                old(self).skips_version(),
                key@,
                value,
            ),
    {
        self.next_key = None;
        if !(self.skip_version && matches!(value, DocumentValue::Version(_))) {
            self.map.insert(key.to_owned(), value);
        }
        Ok(())
    }

    /// The finished map.
    pub fn end(self) -> (r: Result<DocumentValue, Error>)
        ensures
            r matches Ok(DocumentValue::Dict(m)) && m.as_map() == self.contents(),
    {
        Ok(DocumentValue::Dict(self.map))
    }
}

} // verus!
