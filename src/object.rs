use vstd::prelude::*;

verus! {

/// Tag bit that marks an object as excluded from persistence.
/// Every view object carries it from the moment it is spawned.
pub const UNLOAD: u64 = 1;

/// Handle of an object in the store. Indices are never reused: a destroyed
/// object keeps its slot and stays dead.
#[derive(Clone, Copy, Debug, PartialEq, Eq, Structural)]
pub struct Object {
    pub index: usize,
}

/// What the store knows of one object: whether it exists and which tags it carries.
/// Tags are the bits of `tags`.
#[derive(Clone, Copy, Debug, PartialEq, Eq, Structural)]
pub struct ObjectState {
    pub alive: bool,
    pub tags: u64,
}

} // verus!
