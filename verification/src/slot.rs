//! Slots: discrete timeslots identified by a period and a thread index.

use vstd::prelude::*;

verus! {

/// A timeslot. Slots are ordered by period first, then by thread.
#[derive(Clone, Copy, Debug, PartialEq, Eq, Structural, PartialOrd, Ord, Hash)]
pub struct Slot {
    pub period: u64,
    pub thread: u8,
}

/// Why a slot could not be computed.
#[derive(Clone, Copy, Debug, PartialEq, Eq, Structural)]
pub enum SlotError {
    /// The period after the last representable one was asked for.
    PeriodOverflow,
}

/// Strict lexicographic order on slots.
pub open spec fn slot_lt(a: Slot, b: Slot) -> bool {
    a.period < b.period || (a.period == b.period && a.thread < b.thread)
}

/// Lexicographic order on slots.
pub open spec fn slot_le(a: Slot, b: Slot) -> bool {
    a == b || slot_lt(a, b)
}

/// The slot that follows `s` when each period has `thread_count` threads.
pub open spec fn next_slot(s: Slot, thread_count: u8) -> Slot {
    if s.thread as int + 1 >= thread_count as int {
        Slot { period: (s.period + 1) as u64, thread: 0 }
    } else {
        Slot { period: s.period, thread: (s.thread + 1) as u8 }
    }
}

impl Slot {
    /// Builds a slot from its period and thread.
    pub fn new(period: u64, thread: u8) -> (s: Slot)
        ensures
            s == (Slot { period, thread }),
    {
        Slot { period, thread }
    }

    /// Whether `self` comes strictly before `other`.
    pub fn is_before(&self, other: &Slot) -> (b: bool)
        ensures
            b == slot_lt(*self, *other),
    {
        self.period < other.period || (self.period == other.period && self.thread < other.thread)
    }

    /// The next slot: the next thread of the same period, or thread zero of
    /// the next period once the last thread is reached. Fails only when the
    /// period cannot grow any further.
    pub fn get_next_slot(&self, thread_count: u8) -> (r: Result<Slot, SlotError>)
        ensures
            (self.thread as int + 1 >= thread_count as int && self.period == u64::MAX) ==> r
                == Err::<Slot, SlotError>(SlotError::PeriodOverflow),
            !(self.thread as int + 1 >= thread_count as int && self.period == u64::MAX) ==> r
                == Ok::<Slot, SlotError>(next_slot(*self, thread_count)),
    {
        if self.thread == u8::MAX || self.thread + 1 >= thread_count {
            if self.period == u64::MAX {
                Err(SlotError::PeriodOverflow)
            } else {
                Ok(Slot { period: self.period + 1, thread: 0 })
            }
        } else {
            Ok(Slot { period: self.period, thread: self.thread + 1 })
        }
    }
}

/// The order on slots is total: of two distinct slots one comes first.
pub proof fn lemma_slot_order_total(a: Slot, b: Slot)
    ensures
        slot_lt(a, b) || a == b || slot_lt(b, a),
        !(slot_lt(a, b) && slot_lt(b, a)),
        !slot_lt(a, a),
{
}

/// The order on slots is transitive.
pub proof fn lemma_slot_order_transitive(a: Slot, b: Slot, c: Slot)
    requires
        slot_lt(a, b),
        slot_le(b, c),
    ensures
        slot_lt(a, c),
{
}

/// A slot that has a successor comes strictly before it.
pub proof fn lemma_next_slot_is_later(s: Slot, thread_count: u8)
    requires
        !(s.thread as int + 1 >= thread_count as int && s.period == u64::MAX),
    ensures
        slot_lt(s, next_slot(s, thread_count)),
{
}

} // verus!
