//! The pool of microbatch slots.

use std::collections::VecDeque;
use vstd::prelude::*;

verus! {

/// A fixed number of slots, each in use or free. Free slots wait in a queue.
pub struct SlotPool {
    free_slots: VecDeque<usize>,
    in_use: Vec<bool>,
}

/// What came of a claim to a particular slot.
#[derive(Clone, Copy, Debug, PartialEq, Eq, Structural)]
pub enum SlotClaim {
    /// The slot was free and is now in use.
    Acquired,
    /// The slot is in use.
    Busy,
    /// There is no such slot.
    Missing,
}

impl SlotPool {
    /// The free slots, in the order in which they will be handed out.
    pub closed spec fn free(self) -> Seq<usize> {
        self.free_slots@
    }

    /// For each slot, whether it is in use.
    pub closed spec fn used(self) -> Seq<bool> {
        self.in_use@
    }

    /// The queue holds every slot that is not in use, once, and no other.
    pub open spec fn wf(self) -> bool {
        &&& self.free().no_duplicates()
        &&& forall|i: int|
            0 <= i < self.free().len() ==> (#[trigger] self.free()[i]) < self.used().len()
                && !self.used()[self.free()[i] as int]
        &&& forall|slot: int|
            0 <= slot < self.used().len() && !(#[trigger] self.used()[slot])
                ==> self.free().contains(slot as usize)
    }

    /// A pool of `num_slots` free slots, queued in ascending order.
    pub fn new(num_slots: usize) -> (pool: Self)
        ensures
            pool.wf(),
            pool.used() == Seq::new(num_slots as nat, |slot: int| false),
            pool.free() == Seq::new(num_slots as nat, |slot: int| slot as usize),
    {
        let mut free_slots: VecDeque<usize> = VecDeque::new();
        let mut slot: usize = 0;
        while slot < num_slots
            invariant
                slot <= num_slots,
                free_slots@ == Seq::new(slot as nat, |i: int| i as usize),
            decreases num_slots - slot,
        {
            free_slots.push_back(slot);
            slot = slot + 1;
            proof {
                assert(free_slots@ =~= Seq::new(slot as nat, |i: int| i as usize));
            }
        }
        let pool = SlotPool { free_slots, in_use: vec![false; num_slots] };
        proof {
            assert(pool.used() =~= Seq::new(num_slots as nat, |slot: int| false));
            assert forall|slot: int|
                0 <= slot < pool.used().len() && !(
                #[trigger] pool.used()[slot]) implies pool.free().contains(slot as usize) by {
                assert(pool.free()[slot] == slot as usize);
            }
        }
        pool
    }

    /// The number of slots.
    pub fn len(&self) -> (len: usize)
        ensures
            len == self.used().len(),
    {
        self.in_use.len()
    }

    /// Takes the free slot that has waited longest, if there is a free slot.
    pub fn try_acquire(&mut self) -> (slot: Option<usize>)
        requires
            old(self).wf(),
        ensures
            final(self).wf(),
            match slot {
                Some(slot) => {
                    &&& old(self).free().len() > 0
                    &&& slot == old(self).free()[0]
                    &&& final(self).free() == old(self).free().drop_first()
                    &&& final(self).used() == old(self).used().update(slot as int, true)
                },
                None => {
                    &&& old(self).free().len() == 0
                    &&& final(self).free() == old(self).free()
                    &&& final(self).used() == old(self).used()
                },
            },
    {
        let ghost before = *self;
        match self.free_slots.pop_front() {
            Some(slot) => {
                proof {
                    assert(before.free()[0] == slot);
                    assert(self.free_slots@ =~= before.free().drop_first());
                }
                self.in_use.set(slot, true);
                proof {
                    assert(self.in_use.len() == self.used().len());
                    assert forall|i: int, j: int|
                        0 <= i < self.free().len() && 0 <= j < self.free().len() && i
                            != j implies self.free()[i] != self.free()[j] by {
                        assert(self.free()[i] == before.free()[i + 1]);
                        assert(self.free()[j] == before.free()[j + 1]);
                    }
                    assert forall|i: int| 0 <= i < self.free().len() implies self.free()[i]
                        < self.used().len() && !self.used()[#[trigger] self.free()[i] as int] by {
                        assert(self.free()[i] == before.free()[i + 1]);
                        assert(before.free()[i + 1] != before.free()[0]);
                    }
                    assert forall|s: int|
                        0 <= s < self.used().len() && !(
                        #[trigger] self.used()[s]) implies self.free().contains(s as usize) by {
                        assert(!before.used()[s]);
                        let j = choose|j: int|
                            0 <= j < before.free().len() && before.free()[j] == s as usize;
                        assert(self.free()[j - 1] == s as usize);
                    }
                }
                Some(slot)
            },
            None => {
                proof {
                    assert(self.free() == before.free());
                    assert(self.used() == before.used());
                }
                None
            },
        }
    }

    /// Takes the free slot that has waited longest.
    pub fn acquire(&mut self) -> (slot: usize)
        requires
            old(self).wf(),
            old(self).free().len() > 0,
        ensures
            final(self).wf(),
            slot == old(self).free()[0],
            final(self).free() == old(self).free().drop_first(),
            final(self).used() == old(self).used().update(slot as int, true),
    {
        match self.try_acquire() {
            Some(slot) => slot,
            None => 0,
        }
    }

    /// Takes a particular slot, if it exists and is free.
    pub fn try_acquire_specific(&mut self, slot: usize) -> (claim: SlotClaim)
        requires
            old(self).wf(),
        ensures
            final(self).wf(),
            claim == if slot >= old(self).used().len() {
                SlotClaim::Missing
            } else if old(self).used()[slot as int] {
                SlotClaim::Busy
            } else {
                SlotClaim::Acquired
            },
            claim == SlotClaim::Acquired ==> {
                &&& old(self).free().contains(slot)
                &&& final(self).free() == old(self).free().remove(old(self).free().index_of(slot))
                &&& final(self).used() == old(self).used().update(slot as int, true)
            },
            claim != SlotClaim::Acquired ==> {
                &&& final(self).free() == old(self).free()
                &&& final(self).used() == old(self).used()
            },
    {
        let ghost before = *self;
        if slot >= self.in_use.len() {
            return SlotClaim::Missing;
        }
        if self.in_use[slot] {
            return SlotClaim::Busy;
        }
        self.in_use.set(slot, true);
        let mut index: usize = 0;
        proof {
            assert(!before.used()[slot as int]);
            assert(before.free().contains(slot));
        }
        while self.free_slots[index] != slot
            invariant
                self.free_slots@ == before.free(),
                before.free().contains(slot),
                index < self.free_slots@.len(),
                forall|i: int| 0 <= i < index ==> #[trigger] before.free()[i] != slot,
                self.in_use@ == before.used().update(slot as int, true),
            decreases self.free_slots@.len() - index,
        {
            proof {
                let j = choose|j: int| 0 <= j < before.free().len() && before.free()[j] == slot;
                assert(j > index);
                assert(self.free_slots.len() == self.free_slots@.len());
            }
            index = index + 1;
        }
        let _ = self.free_slots.remove(index);
        proof {
            assert(before.free()[before.free().index_of(slot)] == slot);
            assert(before.free().index_of(slot) == index);
            let removed = before.free().remove(index as int);
            assert(self.free() == removed);
            assert forall|i: int| 0 <= i < removed.len() implies removed[i] < self.used().len()
                && !self.used()[#[trigger] removed[i] as int] by {
                let j = if i < index { i } else { i + 1 };
                assert(removed[i] == before.free()[j]);
                assert(before.free()[j] != before.free()[index as int]);
            }
            assert forall|i: int, j: int|
                0 <= i < removed.len() && 0 <= j < removed.len() && i
                    != j implies removed[i] != removed[j] by {
                let m = if i < index { i } else { i + 1 };
                let n = if j < index { j } else { j + 1 };
                assert(removed[i] == before.free()[m] && removed[j] == before.free()[n]);
            }
            assert forall|s: int|
                0 <= s < self.used().len() && !(
                #[trigger] self.used()[s]) implies removed.contains(s as usize) by {
                assert(!before.used()[s]);
                let j = choose|j: int|
                    0 <= j < before.free().len() && before.free()[j] == s as usize;
                assert(j != index);
                assert(removed[if j < index { j } else { j - 1 }] == s as usize);
            }
        }
        SlotClaim::Acquired
    }

    /// Takes a particular slot, and says whether there is such a slot.
    pub fn acquire_specific(&mut self, slot: usize) -> (exists_slot: bool)
        requires
            old(self).wf(),
            slot < old(self).used().len() ==> !old(self).used()[slot as int],
        ensures
            final(self).wf(),
            exists_slot == (slot < old(self).used().len()),
            exists_slot ==> {
                &&& old(self).free().contains(slot)
                &&& final(self).free() == old(self).free().remove(old(self).free().index_of(slot))
                &&& final(self).used() == old(self).used().update(slot as int, true)
            },
            !exists_slot ==> {
                &&& final(self).free() == old(self).free()
                &&& final(self).used() == old(self).used()
            },
    {
        match self.try_acquire_specific(slot) {
            SlotClaim::Acquired => true,
            SlotClaim::Busy => false,
            SlotClaim::Missing => false,
        }
    }

    /// Gives a slot back, to the end of the queue, and says whether a slot was freed. A slot
    /// that does not exist or is not in use is left alone.
    pub fn release(&mut self, slot: usize) -> (freed: bool)
        requires
            old(self).wf(),
        ensures
            final(self).wf(),
            freed == (slot < old(self).used().len() && old(self).used()[slot as int]),
            released(*old(self), *final(self), slot),
    {
        let ghost before = *self;
        if slot >= self.in_use.len() {
            return false;
        }
        if !self.in_use[slot] {
            return false;
        }
        self.in_use.set(slot, false);
        self.free_slots.push_back(slot);
        proof {
            assert forall|i: int| 0 <= i < self.free().len() implies self.free()[i]
                < self.used().len() && !self.used()[#[trigger] self.free()[i] as int] by {
                if i < before.free().len() {
                    assert(self.free()[i] == before.free()[i]);
                }
            }
            assert forall|i: int, j: int|
                0 <= i < self.free().len() && 0 <= j < self.free().len() && i
                    != j implies self.free()[i] != self.free()[j] by {
                if i < before.free().len() {
                    assert(self.free()[i] == before.free()[i]);
                }
                if j < before.free().len() {
                    assert(self.free()[j] == before.free()[j]);
                }
            }
            assert forall|s: int|
                0 <= s < self.used().len() && !(
                #[trigger] self.used()[s]) implies self.free().contains(s as usize) by {
                if s == slot {
                    assert(self.free()[before.free().len() as int] == slot);
                } else {
                    assert(!before.used()[s]);
                    let j = choose|j: int|
                        0 <= j < before.free().len() && before.free()[j] == s as usize;
                    assert(self.free()[j] == s as usize);
                }
            }
        }
        true
    }
}

/// A slot that is handed out is not handed out again while it is in use.
pub proof fn law_used_slots_are_not_free(pool: SlotPool, slot: usize)
    requires
        pool.wf(),
        slot < pool.used().len(),
    ensures
        pool.free().contains(slot) <==> !pool.used()[slot as int],
{
    if pool.free().contains(slot) {
        let i = choose|i: int| 0 <= i < pool.free().len() && pool.free()[i] == slot;
        assert(pool.free()[i] == slot);
    }
}

/// Releasing a slot a second time changes nothing.
pub proof fn law_second_release_changes_nothing(
    before: SlotPool,
    once: SlotPool,
    twice: SlotPool,
    slot: usize,
)
    requires
        before.wf(),
        released(before, once, slot),
        released(once, twice, slot),
    ensures
        twice.free() == once.free(),
        twice.used() == once.used(),
{
}

/// Taking a particular slot and giving it back leaves the same slots in use, and the slot at
/// the end of the queue.
pub proof fn law_release_undoes_acquire(
    before: SlotPool,
    taken: SlotPool,
    after: SlotPool,
    slot: usize,
)
    requires
        before.wf(),
        slot < before.used().len(),
        !before.used()[slot as int],
        taken.used() == before.used().update(slot as int, true),
        taken.free() == before.free().remove(before.free().index_of(slot)),
        released(taken, after, slot),
    ensures
        after.used() == before.used(),
        after.free() == before.free().remove(before.free().index_of(slot)).push(slot),
{
    assert(after.used() =~= before.used());
}

/// What a release does to a pool.
pub open spec fn released(before: SlotPool, after: SlotPool, slot: usize) -> bool {
    if slot < before.used().len() && before.used()[slot as int] {
        &&& after.used() == before.used().update(slot as int, false)
        &&& after.free() == before.free().push(slot)
    } else {
        &&& after.used() == before.used()
        &&& after.free() == before.free()
    }
}

} // verus!
