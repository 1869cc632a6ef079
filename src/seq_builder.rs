use vstd::prelude::*;

use crate::error::Error;
use crate::to_value::ToDashValue;
use crate::value::DocumentValue;

verus! {

/// Accumulates the elements of a sequence or tuple into an array.
pub struct SerializeVec {
    pub vec: Vec<DocumentValue>,
    pub skip_version: bool,
}

impl SerializeVec {
    /// Whether the maps inside the elements leave version leaves out.
    pub open spec fn skips_version(self) -> bool {
        self.skip_version
    }

    /// An empty array accumulator that passes `skip_version` on to its
    /// elements.
    pub fn new(vec: Vec<DocumentValue>, skip_version: bool) -> (r: Self)
        ensures
            r.vec == vec,
            r.skips_version() == skip_version,
    {
        SerializeVec { vec, skip_version }
    }

    /// The builder for each element: it suppresses versions as this
    /// sequence's builder does.
    pub fn element_builder(&self) -> (r: ToDashValue)
        ensures
            r.skips_version() == self.skips_version(),
    {
        ToDashValue::default().with_skip_version(self.skip_version)
    }

    pub fn serialize_element(&mut self, value: DocumentValue) -> (r: Result<(), Error>)
        ensures
            r is Ok,
            final(self).vec@ == old(self).vec@.push(value),
            final(self).skips_version() == old(self).skips_version(),
    {
        self.vec.push(value);
        Ok(())
    }

    pub fn end(self) -> (r: Result<DocumentValue, Error>)
        ensures
            r == Ok::<DocumentValue, Error>(DocumentValue::Array(self.vec)),
    {
        Ok(DocumentValue::Array(self.vec))
    }
}

} // verus!
