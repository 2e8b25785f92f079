//! What the spinning locks decide: when a lock word may change and to
//! what, and what taking and releasing a lock does to the interrupt-enable
//! flag. The spinning itself, on atomic words, is the caller's.

use vstd::prelude::*;

verus! {

/// The word of a reader/writer lock that nobody holds.
pub const RW_FREE: u64 = 0;

/// The word of a reader/writer lock that a writer holds.
pub const RW_EXCLUSIVE: u64 = 0xffff_ffff_ffff_ffff;

/// Who holds a reader/writer lock.
#[derive(Clone, Copy, Debug, PartialEq, Eq, Structural)]
pub enum RwState {
    Free,
    /// Held by this many readers.
    Shared(u64),
    Exclusive,
}

/// What the word of a reader/writer lock says: zero is free, all ones is
/// held by a writer, and any other value is the number of readers.
pub open spec fn rw_state(word: u64) -> RwState {
    if word == RW_FREE {
        RwState::Free
    } else if word == RW_EXCLUSIVE {
        RwState::Exclusive
    } else {
        RwState::Shared(word)
    }
}

/// The word that a writer swaps in to take the lock, if the lock is free.
pub fn try_exclusive_access(word: u64) -> (r: Option<u64>)
    ensures
        r == if rw_state(word) == RwState::Free {
            Some(RW_EXCLUSIVE)
        } else {
            None
        },
{
    if word == RW_FREE {
        Some(RW_EXCLUSIVE)
    } else {
        None
    }
}

/// The word that a reader swaps in to take the lock, if no writer holds it
/// and one more reader can be counted.
pub fn try_shared_access(word: u64) -> (r: Option<u64>)
    ensures
        r == if word < RW_EXCLUSIVE - 1 {
            Some((word + 1) as u64)
        } else {
            None
        },
        r matches Some(w) ==> rw_state(w) == RwState::Shared((word + 1) as u64),
{
    if word < RW_EXCLUSIVE - 1 {
        Some(word + 1)
    } else {
        None
    }
}

/// The word after a reader has released the lock.
pub fn release_shared(word: u64) -> (r: u64)
    requires
        rw_state(word) is Shared,
    ensures
        r == word - 1,
        rw_state(r) == if word == 1 {
            RwState::Free
        } else {
            RwState::Shared((word - 1) as u64)
        },
{
    word - 1
}

/// The word after the writer has released the lock.
pub fn release_exclusive(word: u64) -> (r: u64)
    requires
        rw_state(word) == RwState::Exclusive,
    ensures
        rw_state(r) == RwState::Free,
{
    RW_FREE
}

/// What a lock does around taking and releasing it.
pub trait Listener {
    /// What is remembered from before the lock is taken.
    spec fn remembered(&self) -> bool;

    /// Whether the lock keeps interrupts off while it is held.
    spec fn masks_interrupts(&self) -> bool;

    /// Called before the lock is taken, with the interrupt-enable flag of
    /// that moment. Returns the flag under which the lock is taken.
    fn before_lock(&mut self, irq_enabled: bool) -> (r: bool)
        ensures
            r == (irq_enabled && !final(self).masks_interrupts()),
            final(self).masks_interrupts() == old(self).masks_interrupts(),
            final(self).masks_interrupts() ==> final(self).remembered() == irq_enabled,
    ;

    /// Called after the lock is released, with the interrupt-enable flag
    /// of that moment. Returns the flag with which the caller goes on.
    fn after_unlock(&self, irq_enabled: bool) -> (r: bool)
        ensures
            r == (irq_enabled || (self.masks_interrupts() && self.remembered())),
    ;
}

/// A lock that leaves interrupts alone.
pub struct Spin {}

impl Listener for Spin {
    open spec fn remembered(&self) -> bool {
        false
    }

    open spec fn masks_interrupts(&self) -> bool {
        false
    }

    fn before_lock(&mut self, irq_enabled: bool) -> (r: bool) {
        irq_enabled
    }

    fn after_unlock(&self, irq_enabled: bool) -> (r: bool) {
        irq_enabled
    }
}

/// A lock that disables interrupts while it is held, and enables them on
/// release only if they were enabled when it was taken.
pub struct SpinNoIrq {
    pub irq_enabled: bool,
}

impl SpinNoIrq {
    pub fn new() -> (r: Self)
        ensures
            !r.irq_enabled,
    {
        Self { irq_enabled: false }
    }
}

impl Listener for SpinNoIrq {
    open spec fn remembered(&self) -> bool {
        self.irq_enabled
    }

    open spec fn masks_interrupts(&self) -> bool {
        true
    }

    fn before_lock(&mut self, irq_enabled: bool) -> (r: bool) {
        self.irq_enabled = irq_enabled;
        false
    }

    fn after_unlock(&self, irq_enabled: bool) -> (r: bool) {
        irq_enabled || self.irq_enabled
    }
}

/// Takes the lock of `outer`, then the lock of `inner`, and releases them in
/// the opposite order, starting with the interrupt-enable flag
/// `irq_enabled`. Returns the flag while both locks are held and the flag
/// after both are released.
///
/// Locks nest: whatever the two locks do to interrupts, the flag is in the
/// end what it was at first, and while both are held interrupts are enabled
/// only if they were and neither lock keeps them off.
pub fn hold_nested<A: Listener, B: Listener>(outer: &mut A, inner: &mut B, irq_enabled: bool) -> (r:
    (bool, bool))
    ensures
        r.0 == (irq_enabled && !old(outer).masks_interrupts() && !old(inner).masks_interrupts()),
        r.1 == irq_enabled,
{
    let under_outer = outer.before_lock(irq_enabled);
    let under_both = inner.before_lock(under_outer);
    let after_inner = inner.after_unlock(under_both);
    let after_outer = outer.after_unlock(after_inner);
    (under_both, after_outer)
}

/// Whether the word of a mutual-exclusion lock may be swapped from free to
/// held.
pub fn try_lock(held: bool) -> (r: Option<bool>)
    ensures
        r == if held {
            None::<bool>
        } else {
            Some(true)
        },
{
    if held {
        None
    } else {
        Some(true)
    }
}

} // verus!
