//! Chat identity: the value identifying a subscription target.

use vstd::prelude::*;

verus! {

/// Identifier of a chat that can subscribe to announcements.
/// Equality is by value; the identifier is immutable once constructed.
#[derive(Clone, Copy, PartialEq, Eq, Structural, Debug, Hash)]
pub struct Chat {
    pub id: i64,
}

impl Chat {
    pub fn new(id: i64) -> (c: Chat)
        ensures
            c.id == id,
    {
        Chat { id }
    }
}

} // verus!
