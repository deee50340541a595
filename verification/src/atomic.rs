//! The source of event identifiers.

use vstd::prelude::*;

verus! {

/// Hands out event identifiers in increasing order, starting at 1.
///
/// The generator is advanced through `&mut`: whoever draws an identifier
/// holds the generator alone for the time of the call, so no two calls can
/// ever see the same value, on whichever threads they run. That is what an
/// atomic fetch-and-add gives, and it is what lets the order of the
/// identifiers be proved. Threads that are to draw from one generator share
/// it behind a lock.
#[derive(Debug)]
pub struct AtomicIdGenerator {
    curr_id: u32,
}

impl AtomicIdGenerator {
    /// The identifier that the next call of `next_id` returns.
    pub closed spec fn peek(&self) -> u32 {
        self.curr_id
    }

    /// The identifier that follows `id`; after `u32::MAX` the count starts over at 0.
    pub open spec fn successor(id: u32) -> u32 {
        if id == u32::MAX {
            0
        } else {
            (id + 1) as u32
        }
    }

    /// The identifier that is handed out `n` calls after `id`.
    pub open spec fn advance(id: u32, n: nat) -> u32
        decreases n,
    {
        if n == 0 {
            id
        } else {
            Self::advance(Self::successor(id), (n - 1) as nat)
        }
    }

    pub fn new() -> (generator: Self)
        ensures
            generator.peek() == 1,
    {
        Self { curr_id: 1 }
    }

    pub fn next_id(&mut self) -> (id: u32)
        ensures
            id == old(self).peek(),
            final(self).peek() == Self::successor(id),
    {
        let id: u32 = self.curr_id;
        self.curr_id = id.wrapping_add(1);
        id
    }

    /// As long as the count does not start over, `n` calls later the
    /// identifier is larger by `n`.
    pub proof fn lemma_advance_adds(id: u32, n: nat)
        requires
            id + n <= u32::MAX,
        ensures
            Self::advance(id, n) == id + n,
        decreases n,
    {
        if n > 0 {
            Self::lemma_advance_adds(Self::successor(id), (n - 1) as nat);
        }
    }
}

} // verus!
