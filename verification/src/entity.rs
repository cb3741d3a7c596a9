//! Identifiers of the records that the server keeps.

use vstd::prelude::*;

verus! {

/// The identity of one record of the store. Two live records never share one,
/// and an identifier that has left the store is not handed out again.
#[derive(Clone, Copy, Debug, PartialEq, Eq, Hash, Structural)]
pub struct Entity {
    pub bits: u64,
}

impl Entity {
    /// The entity whose identifier is `bits`.
    pub fn from_bits(bits: u64) -> (e: Entity)
        ensures
            e.bits == bits,
    {
        Entity { bits }
    }

    /// The identifier as a number.
    pub fn to_bits(&self) -> (bits: u64)
        ensures
            bits == self.bits,
    {
        self.bits
    }
}

/// A back-reference from a participant to the session that it was placed in.
#[derive(Clone, Copy, Debug, PartialEq, Eq, Structural)]
pub struct EntityId(pub Entity);

/// A value that stands for a member of a session and travels as a number.
pub trait AsIndex: Sized + Copy {
    /// The number that stands for the value.
    spec fn index(&self) -> u64;

    /// The value that `i` stands for; `None` where it stands for none.
    fn from_index(i: u64) -> (found: Option<Self>)
        ensures
            found matches Some(e) ==> e.index() == i,
    ;

    fn to_index(&self) -> (i: u64)
        ensures
            i == self.index(),
    ;
}

impl AsIndex for Entity {
    open spec fn index(&self) -> u64 {
        self.bits
    }

    /// Every number stands for an entity.
    fn from_index(i: u64) -> (found: Option<Self>)
        ensures
            found == Some(Entity { bits: i }),
    {
        Some(Entity { bits: i })
    }

    fn to_index(&self) -> (i: u64) {
        self.bits
    }
}

} // verus!
