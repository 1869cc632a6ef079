use vstd::prelude::*;

verus! {

/// A schema or protocol version tag.
///
/// Structurally an unsigned integer; the builder can be told to leave it out
/// of the tree it produces, for wire forms that carry the version out of band.
#[derive(Debug, Clone, Copy, PartialEq, Eq, Structural, PartialOrd, Ord, Hash)]
pub struct Version(pub u32);

impl Default for Version {
    fn default() -> (r: Self)
        ensures
            r.0 == 0,
    {
        Version(0)
    }
}

impl From<u32> for Version {
    fn from(v: u32) -> (r: Self) {
        Version(v)
    }
}

impl vstd::std_specs::convert::FromSpecImpl<u32> for Version {
    open spec fn obeys_from_spec() -> bool {
        true
    }

    open spec fn from_spec(v: u32) -> Self {
        Version(v)
    }
}

impl From<u8> for Version {
    fn from(v: u8) -> (r: Self) {
        Version(v as u32)
    }
}

impl vstd::std_specs::convert::FromSpecImpl<u8> for Version {
    open spec fn obeys_from_spec() -> bool {
        true
    }

    open spec fn from_spec(v: u8) -> Self {
        Version(v as u32)
    }
}

} // verus!
