use vstd::prelude::*;

verus! {

/// Failures of building, encoding or decoding a value tree.
#[derive(Debug, Clone, PartialEq, Eq)]
pub enum Error {
    /// Building or encoding a tree failed.
    SerializationError(String),
    /// Bytes or a tree could not be read back into the expected shape.
    DeserializationError(String),
    /// The input has a shape that the value tree deliberately cannot represent.
    Unsupported(String),
}

impl Error {
    pub fn unsupported(msg: &str) -> (r: Self)
        ensures
            r matches Error::Unsupported(m) && m@ == msg@,
    {
        Error::Unsupported(msg.to_owned())
    }

    pub fn serialization(msg: &str) -> (r: Self)
        ensures
            r matches Error::SerializationError(m) && m@ == msg@,
    {
        Error::SerializationError(msg.to_owned())
    }

    pub fn deserialization(msg: &str) -> (r: Self)
        ensures
            r matches Error::DeserializationError(m) && m@ == msg@,
    {
        Error::DeserializationError(msg.to_owned())
    }
}

} // verus!
