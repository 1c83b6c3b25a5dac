//! What holds of the pool of slots: who gets which slot, and when.

use vstd::prelude::*;
use crate::slot_pool::{SlotClaim, SlotPool};

verus! {

/// A new pool has the given number of slots, all of them free, and hands out the lowest first.
pub proof fn law_new_pool_is_free(num_slots: usize, pool: SlotPool, len: usize, s: int)
    requires
        call_ensures(SlotPool::new, (num_slots,), pool),
        call_ensures(SlotPool::len, (&pool,), len),
        0 <= s < num_slots,
    ensures
        len == num_slots,
        !pool.used()[s],
        pool.free().len() == num_slots,
        pool.free()[s] == s,
{
}

/// Slots are handed out in turn: one that is given back comes after all that are free by then,
/// and what was free before is handed out first.
pub proof fn law_slots_are_handed_out_in_turn(slot: usize)
    ensures
        forall|pool: &mut SlotPool, freed: bool|
            (*pool).wf() && slot < (*pool).used().len() && #[trigger] call_ensures(
                SlotPool::release,
                (pool, slot),
                freed,
            ) ==> {
                let before = *pool;
                let after = *final(pool);
                &&& freed <==> before.used()[slot as int]
                &&& !after.used()[slot as int]
                &&& freed ==> after.free().len() == before.free().len() + 1
                &&& freed ==> after.free()[before.free().len() as int] == slot
                &&& forall|i: int|
                    0 <= i < before.free().len() ==> #[trigger] after.free()[i] == before.free()[i]
                &&& !freed ==> after.free() == before.free()
                &&& forall|s: int|
                    0 <= s < before.used().len() && s != slot ==> #[trigger] after.used()[s]
                        == before.used()[s]
            },
        forall|pool: &mut SlotPool, taken: Option<usize>|
            (*pool).wf() && #[trigger] call_ensures(SlotPool::try_acquire, (pool,), taken) ==> {
                let before = *pool;
                let after = *final(pool);
                &&& taken is None <==> before.free().len() == 0
                &&& taken matches Some(s) ==> {
                    &&& s == before.free()[0]
                    &&& !before.used()[s as int]
                    &&& after.used()[s as int]
                    &&& after.free().len() == before.free().len() - 1
                    &&& forall|i: int|
                        0 <= i < after.free().len() ==> #[trigger] after.free()[i]
                            == before.free()[i + 1]
                    &&& forall|u: int|
                        0 <= u < before.used().len() && u != s ==> #[trigger] after.used()[u]
                            == before.used()[u]
                }
            },
        forall|pool: &mut SlotPool, s: usize|
            (*pool).wf() && (*pool).free().len() > 0 && #[trigger] call_ensures(
                SlotPool::acquire,
                (pool,),
                s,
            ) ==> {
                &&& s == (*pool).free()[0]
                &&& (*final(pool)).used()[s as int]
                &&& (*final(pool)).free().len() == (*pool).free().len() - 1
            },
{
    assert forall|pool: &mut SlotPool, taken: Option<usize>|
        (*pool).wf() && #[trigger] call_ensures(SlotPool::try_acquire, (pool,), taken)
            && taken is Some implies (*pool).free()[0] == taken->0 && taken->0
        < (*pool).used().len() by {}
    assert forall|pool: &mut SlotPool, s: usize|
        (*pool).wf() && (*pool).free().len() > 0 && #[trigger] call_ensures(
            SlotPool::acquire,
            (pool,),
            s,
        ) implies s < (*pool).used().len() by {
        assert((*pool).free()[0] == s);
    }
}

/// Whether a slot and no other was taken out of turn.
pub open spec fn took(before: SlotPool, after: SlotPool, slot: usize) -> bool {
    &&& slot < before.used().len()
    &&& !before.used()[slot as int]
    &&& after.used().len() == before.used().len()
    &&& after.used()[slot as int]
    &&& forall|u: int|
        0 <= u < before.used().len() && u != slot ==> #[trigger] after.used()[u]
            == before.used()[u]
    &&& after.free().len() == before.free().len() - 1
}

/// A particular slot is taken just where it exists and is free; otherwise nothing changes.
pub proof fn law_a_free_slot_can_be_claimed(slot: usize)
    ensures
        forall|pool: &mut SlotPool, claim: SlotClaim|
            (*pool).wf() && #[trigger] call_ensures(
                SlotPool::try_acquire_specific,
                (pool, slot),
                claim,
            ) ==> {
                let before = *pool;
                let after = *final(pool);
                &&& claim == SlotClaim::Missing <==> slot >= before.used().len()
                &&& claim == SlotClaim::Busy <==> slot < before.used().len()
                    && before.used()[slot as int]
                &&& claim == SlotClaim::Acquired ==> took(before, after, slot)
                &&& claim != SlotClaim::Acquired ==> after.used() == before.used() && after.free()
                    == before.free()
            },
        forall|pool: &mut SlotPool, exists_slot: bool|
            (*pool).wf() && (slot < (*pool).used().len() ==> !(*pool).used()[slot as int])
                && #[trigger] call_ensures(SlotPool::acquire_specific, (pool, slot), exists_slot)
                ==> {
                &&& exists_slot <==> slot < (*pool).used().len()
                &&& exists_slot ==> took(*pool, *final(pool), slot)
                &&& !exists_slot ==> (*final(pool)).used() == (*pool).used()
                &&& !exists_slot ==> (*final(pool)).free() == (*pool).free()
            },
{
    assert forall|pool: &mut SlotPool, claim: SlotClaim|
        (*pool).wf() && #[trigger] call_ensures(
            SlotPool::try_acquire_specific,
            (pool, slot),
            claim,
        ) && claim == SlotClaim::Acquired implies took(*pool, *final(pool), slot) by {
        assert((*pool).free()[(*pool).free().index_of(slot)] == slot);
    }
    assert forall|pool: &mut SlotPool, exists_slot: bool|
        (*pool).wf() && (slot < (*pool).used().len() ==> !(*pool).used()[slot as int])
            && #[trigger] call_ensures(SlotPool::acquire_specific, (pool, slot), exists_slot)
            && exists_slot implies took(*pool, *final(pool), slot) by {
        assert((*pool).free()[(*pool).free().index_of(slot)] == slot);
    }
}

} // verus!
