use vstd::prelude::*;

verus! {

/// Name of an object (commit or tree) in the object store: its 160 bits,
/// most significant first, held as three integers so that ids compare by value.
#[derive(Clone, Copy, Debug, PartialEq, Eq, Structural)]
pub struct ObjectId {
    pub hi: u64,
    pub mid: u64,
    pub lo: u32,
}

} // verus!
