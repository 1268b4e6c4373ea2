//! Accounting of the memory that a virtual machine may use.
use vstd::prelude::*;

verus! {

/// The largest block that can be allocated.
pub open spec fn largest() -> int {
    isize::MAX as int
}

/// Per-machine allocation accounting.
#[derive(Debug)]
pub struct MemoryState {
    /// Current number of bytes allocated.
    pub used: usize,
    /// Maximum number of bytes that may be allocated, or `0` when unlimited.
    pub limit: usize,
    /// Temporarily bypasses the memory limit for operations that must allocate.
    pub ignore_limit: bool,
    /// Whether the previous request failed because of the configured limit.
    pub limit_hit: bool,
}

/// What an allocator has to do for a request.
#[derive(Clone, Copy, Debug, PartialEq, Eq, Structural)]
pub enum Allocation {
    /// Give the block back.
    Free,
    /// Nothing, and answer with no block.
    Refuse,
    /// Allocate a new block.
    Allocate,
    /// Change the size of the block.
    Reallocate,
}

/// The bytes in use once a request is granted.
pub open spec fn used_after(used: int, block: Option<usize>, size: int) -> int {
    match block {
        Some(old_size) => used - old_size + size,
        None => used + size,
    }
}

/// Whether a limit counts: it is set, not bypassed, and within what can be
/// allocated at all.
pub open spec fn limited(state: MemoryState) -> bool {
    0 < state.limit && state.limit <= largest() && !state.ignore_limit
}

/// What a request for `size` bytes comes to. `block` is the size of the block
/// that is there already.
pub open spec fn allocation(state: MemoryState, block: Option<usize>, size: int) -> Allocation {
    if size == 0 {
        if block is Some {
            Allocation::Free
        } else {
            Allocation::Refuse
        }
    } else if size > largest() {
        Allocation::Refuse
    } else if limited(state) && used_after(state.used as int, block, size) > state.limit {
        Allocation::Refuse
    } else if block is Some {
        Allocation::Reallocate
    } else {
        Allocation::Allocate
    }
}

impl Default for MemoryState {
    fn default() -> (r: Self)
        ensures
            r.used == 0,
            r.limit == 0,
            !r.ignore_limit,
            !r.limit_hit,
    {
        MemoryState { used: 0, limit: 0, ignore_limit: false, limit_hit: false }
    }
}

impl MemoryState {
    /// Returns the current number of bytes allocated by the machine.
    pub fn used_memory(&self) -> (r: usize)
        ensures
            r == self.used,
    {
        self.used
    }

    /// Returns the configured memory limit in bytes, or `0` when unlimited.
    pub fn memory_limit(&self) -> (r: usize)
        ensures
            r == self.limit,
    {
        self.limit
    }

    /// Replaces the configured memory limit and returns the previous limit.
    pub fn set_memory_limit(&mut self, limit: usize) -> (r: usize)
        ensures
            r == old(self).limit,
            *final(self) == (MemoryState { limit, ..*old(self) }),
    {
        let previous: usize = self.limit;
        self.limit = limit;
        previous
    }

    /// Bypasses the memory limit, or ends that.
    pub fn relax_limit(&mut self, relaxed: bool)
        ensures
            *final(self) == (MemoryState { ignore_limit: relaxed, ..*old(self) }),
    {
        self.ignore_limit = relaxed;
    }

    /// Returns `true` if the previous request hit the configured limit.
    pub fn limit_reached(&self) -> (r: bool)
        ensures
            r == self.limit_hit,
    {
        self.limit_hit
    }

    /// Accounts for a request and says what to do for it.
    pub fn request(&mut self, block: Option<usize>, size: usize) -> (r: Allocation)
        requires
            block matches Some(old_size) ==> old_size <= old(self).used,
            old(self).used <= largest(),
            size <= largest() ==> used_after(old(self).used as int, block, size as int)
                <= largest(),
        ensures
            r == allocation(*old(self), block, size as int),
            final(self).used == (if r == Allocation::Refuse {
                old(self).used as int
            } else {
                used_after(old(self).used as int, block, size as int)
            }),
            final(self).limit_hit == (r == Allocation::Refuse && 0 < size <= largest()),
            final(self).limit == old(self).limit,
            final(self).ignore_limit == old(self).ignore_limit,
    {
        self.limit_hit = false;
        let rest: usize = match block {
            Some(old_size) => self.used - old_size,
            None => self.used,
        };
        if size == 0 {
            if block.is_some() {
                self.used = rest;
                return Allocation::Free;
            }
            return Allocation::Refuse;
        }
        if size > isize::MAX as usize {
            return Allocation::Refuse;
        }
        let after: usize = rest + size;
        if self.limit > 0 && self.limit <= isize::MAX as usize && !self.ignore_limit && after
            > self.limit {
            self.limit_hit = true;
            return Allocation::Refuse;
        }
        self.used = after;
        if block.is_some() {
            Allocation::Reallocate
        } else {
            Allocation::Allocate
        }
    }
}

/// Under a limit that is not bypassed, no granted request leaves more in use
/// than the limit, unless it gives a block back.
pub proof fn law_limit_holds(state: MemoryState, block: Option<usize>, size: int)
    requires
        limited(state),
        size > 0,
        allocation(state, block, size) != Allocation::Refuse,
    ensures
        used_after(state.used as int, block, size) <= state.limit,
{
}

/// What was allocated and is given back is no longer in use.
pub proof fn law_free_undoes_allocate(used: int, size: usize)
    ensures
        used_after(used_after(used, None, size as int), Some(size), 0) == used,
{
}

} // verus!
