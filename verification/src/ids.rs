//! Process-wide identifiers.

use vstd::prelude::*;

verus! {

/// Hands out numbers one after another, starting at one. A process has one source for each kind of
/// identifier, so that no two of them are the same.
#[derive(Debug)]
pub struct IdSource {
    next: u64,
}

impl IdSource {
    /// The number handed out next.
    pub closed spec fn upcoming(self) -> u64 {
        self.next
    }

    pub fn new() -> (r: IdSource)
        ensures
            r.upcoming() == 1,
    {
        IdSource { next: 1 }
    }

    /// Hands out a number; after the largest one it starts over at zero.
    pub fn draw(&mut self) -> (r: u64)
        ensures
            r == old(self).upcoming(),
            final(self).upcoming() == if r == u64::MAX {
                0
            } else {
                r + 1
            },
    {
        let drawn: u64 = self.next;
        self.next = self.next.wrapping_add(1);
        drawn
    }
}

/// Identifier of a request.
#[derive(Debug, Clone, Copy, PartialEq, Eq, Hash, Structural)]
pub struct RequestId {
    pub id: u64,
}

impl RequestId {
    pub open spec fn spec_raw(self) -> u64 {
        self.id
    }

    /// A fresh identifier.
    pub fn new(ids: &mut IdSource) -> (r: RequestId)
        ensures
            r.spec_raw() == old(ids).upcoming(),
            final(ids).upcoming() == if r.spec_raw() == u64::MAX {
                0
            } else {
                r.spec_raw() + 1
            },
    {
        RequestId { id: ids.draw() }
    }

    #[verifier::when_used_as_spec(spec_raw)]
    pub fn raw(self) -> (r: u64)
        ensures
            r == self.spec_raw(),
    {
        self.id
    }
}

} // verus!
