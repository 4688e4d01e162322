//! A counting semaphore that bounds how many files are open at once.
//!
//! Up to `max` holders may hold a slot. A request that finds every slot taken
//! waits in line; when a holder releases its slot and someone is waiting, the
//! slot passes straight to the first in line, and the count of slots in use
//! stays the same. Waiters are told apart by numbers that the caller picks.
//!
//! The semaphore decides; the caller delivers: it hands a granted guard to the
//! waiter it names, and when that waiter has gone away it releases the guard
//! again, which passes the slot on to the next in line.

use vstd::prelude::*;
use std::collections::VecDeque;
use vstd::multiset::Multiset;

verus! {

broadcast use {vstd::multiset::group_multiset_axioms, vstd::multiset::group_multiset_properties,
    vstd::seq_lib::to_multiset_build, vstd::seq_lib::to_multiset_remove,
    vstd::seq_lib::to_multiset_contains, vstd::seq_lib::to_multiset_len};

/// The state of a semaphore: who holds a slot, how many slots there are, and
/// the waiters in order of arrival.
pub struct SemaphoreModel {
    pub holders: Multiset<u64>,
    pub max: nat,
    pub waiting: Seq<u64>,
}

impl SemaphoreModel {
    /// The number of slots in use: one for every guard handed out and not yet released.
    pub open spec fn count(self) -> nat {
        self.holders.len()
    }

    /// Never more slots in use than there are, and nobody waits while a slot
    /// is free.
    pub open spec fn wf(self) -> bool {
        &&& self.count() <= self.max
        &&& self.waiting.len() > 0 ==> self.count() == self.max
    }

    /// A request by `waiter`: the new state, and whether the slot was granted at once.
    pub open spec fn increment(self, waiter: u64) -> (SemaphoreModel, bool) {
        if self.count() >= self.max {
            (SemaphoreModel { waiting: self.waiting.push(waiter), ..self }, false)
        } else {
            (SemaphoreModel { holders: self.holders.insert(waiter), ..self }, true)
        }
    }

    /// The release of the slot held by `holder`: the new state, and the waiter
    /// the slot passes to, if any.
    pub open spec fn release(self, holder: u64) -> (SemaphoreModel, Option<u64>) {
        let rest = self.holders.remove(holder);
        if self.waiting.len() > 0 {
            (
                SemaphoreModel {
                    holders: rest.insert(self.waiting[0]),
                    waiting: self.waiting.drop_first(),
                    ..self
                },
                Some(self.waiting[0]),
            )
        } else {
            (SemaphoreModel { holders: rest, ..self }, None)
        }
    }
}

/// Law: every request, and every release of a slot that is held, keeps the
/// semaphore well formed: never more holders than slots, and nobody waiting
/// while a slot is free. A slot that is held is counted, so its release never
/// takes the count below zero.
pub proof fn lemma_semaphore_invariant(s: SemaphoreModel, waiter: u64, holder: u64)
    requires
        s.wf(),
    ensures
        s.increment(waiter).0.wf(),
        s.holders.contains(holder) ==> s.count() > 0,
        s.holders.contains(holder) ==> s.release(holder).0.wf(),
        s.holders.contains(holder) ==> s.release(holder).0.count() == if s.waiting.len() > 0 {
            s.count()
        } else {
            (s.count() - 1) as nat
        },
{
}

/// Law: every slot handed out is counted as held by the waiter it was handed to.
pub proof fn lemma_handed_out_slots_are_counted(s: SemaphoreModel, waiter: u64, holder: u64)
    requires
        s.wf(),
    ensures
        s.increment(waiter).1 ==> s.increment(waiter).0.holders.contains(waiter),
        s.holders.contains(holder) && s.release(holder).1 is Some ==> s.release(holder).0.holders.contains(
            s.release(holder).1->0,
        ),
{
}

/// Law: a slot granted at once and then released leaves the semaphore as it was.
pub proof fn lemma_grant_then_release(s: SemaphoreModel, waiter: u64)
    requires
        s.wf(),
        s.increment(waiter).1,
    ensures
        s.increment(waiter).0.release(waiter) == (s, None::<u64>),
{
    assert(s.holders.insert(waiter).remove(waiter) =~= s.holders);
}

/// Law: waiters are served in order of arrival. A waiter that joins the line
/// behind others is not served by the next release unless the line was empty,
/// and the line after serving the first keeps everyone else in order.
pub proof fn lemma_first_come_first_served(s: SemaphoreModel, waiter: u64, holder: u64)
    requires
        s.wf(),
        !s.increment(waiter).1,
    ensures
        s.increment(waiter).0.release(holder).1 == Some(
            if s.waiting.len() > 0 {
                s.waiting[0]
            } else {
                waiter
            },
        ),
        s.increment(waiter).0.release(holder).0.waiting == s.waiting.push(waiter).drop_first(),
{
}

/// A slot of the semaphore, held by the waiter it names. Only the semaphore
/// makes guards, and a guard cannot be copied.
pub struct SemaphoreGuard {
    holder: u64,
}

impl SemaphoreGuard {
    /// The waiter that holds this slot.
    pub closed spec fn spec_holder(&self) -> u64 {
        self.holder
    }

    /// The waiter that holds this slot.
    pub fn holder(&self) -> (holder: u64)
        ensures
            holder == self.spec_holder(),
    {
        self.holder
    }
}

/// What a request for a slot comes to.
pub enum Increment {
    /// A slot was free and is now held.
    Granted(SemaphoreGuard),
    /// Every slot is taken; the waiter is in line.
    Queued,
}

/// A counting semaphore with `max` slots.
pub struct Semaphore {
    holders: Vec<u64>,
    max: usize,
    waiting: VecDeque<u64>,
}

impl View for Semaphore {
    type V = SemaphoreModel;

    closed spec fn view(&self) -> SemaphoreModel {
        SemaphoreModel {
            holders: self.holders@.to_multiset(),
            max: self.max as nat,
            waiting: self.waiting@,
        }
    }
}

impl Semaphore {
    /// A semaphore with `max` free slots and nobody waiting.
    pub fn new(max: usize) -> (sem: Self)
        ensures
            sem@ == (SemaphoreModel {
                holders: Multiset::empty(),
                max: max as nat,
                waiting: Seq::empty(),
            }),
            sem@.wf(),
    {
        let sem = Semaphore { holders: Vec::new(), max, waiting: VecDeque::new() };
        assert(sem.holders@.to_multiset() =~= Multiset::<u64>::empty());
        sem
    }

    /// A request for a slot by `waiter`: granted at once if a slot is free,
    /// queued behind the waiters already in line otherwise.
    pub fn increment(&mut self, waiter: u64) -> (outcome: Increment)
        requires
            old(self)@.wf(),
        ensures
            final(self)@ == old(self)@.increment(waiter).0,
            final(self)@.wf(),
            match outcome {
                Increment::Granted(guard) => old(self)@.increment(waiter).1 && guard.spec_holder()
                    == waiter && final(self)@.holders.contains(guard.spec_holder()),
                Increment::Queued => !old(self)@.increment(waiter).1,
            },
    {
        if self.holders.len() >= self.max {
            self.waiting.push_back(waiter);
            Increment::Queued
        } else {
            self.holders.push(waiter);
            Increment::Granted(SemaphoreGuard { holder: waiter })
        }
    }

    /// Whether `guard` holds a slot of this semaphore.
    pub fn holds(&self, guard: &SemaphoreGuard) -> (held: bool)
        ensures
            held == self@.holders.contains(guard.spec_holder()),
    {
        self.position_of(guard.holder).is_some()
    }

    /// Where `holder` stands among the holders, if anywhere.
    fn position_of(&self, holder: u64) -> (pos: Option<usize>)
        ensures
            match pos {
                Some(i) => i < self.holders@.len() && self.holders@[i as int] == holder,
                None => !self.holders@.contains(holder),
            },
            pos is Some <==> self@.holders.contains(holder),
    {
        let n = self.holders.len();
        for i in 0..n
            invariant
                n == self.holders@.len(),
                forall|j: int| 0 <= j < i ==> self.holders@[j] != holder,
        {
            if self.holders[i] == holder {
                assert(self.holders@.contains(holder));
                return Some(i);
            }
        }
        None
    }

    /// Gives up the slot that `guard` holds. If someone is waiting, the slot
    /// passes to the first in line, whose guard is returned; otherwise one slot
    /// more is free.
    pub fn release(&mut self, guard: SemaphoreGuard) -> (next: Option<SemaphoreGuard>)
        requires
            old(self)@.wf(),
            old(self)@.holders.contains(guard.spec_holder()),
        ensures
            final(self)@ == old(self)@.release(guard.spec_holder()).0,
            final(self)@.wf(),
            match next {
                Some(g) => old(self)@.release(guard.spec_holder()).1 == Some(g.spec_holder())
                    && final(self)@.holders.contains(g.spec_holder()),
                None => old(self)@.release(guard.spec_holder()).1 is None,
            },
    {
        let i = match self.position_of(guard.holder) {
            Some(i) => i,
            None => {
                assert(false);
                return None;
            },
        };
        let ghost before = self.holders@;
        self.holders.remove(i);
        assert(before.remove(i as int) == self.holders@);
        match self.waiting.pop_front() {
            Some(waiter) => {
                assert(self.waiting@ =~= old(self).waiting@.drop_first());
                self.holders.push(waiter);
                Some(SemaphoreGuard { holder: waiter })
            },
            None => None,
        }
    }

    /// The number of slots in use.
    pub fn in_use(&self) -> (count: usize)
        ensures
            count == self@.count(),
    {
        self.holders.len()
    }
}

} // verus!
