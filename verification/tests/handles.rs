use p2p_all_to_all::handles::{
    ContextError, DispatchHandleState, HandlePhase, HandleTable, SlotGenerationState,
};

#[test]
fn dispatch_passes_through_its_phases() {
    let mut table = HandleTable::new(2);
    let handle = table.begin_dispatch_handle(1, 7).unwrap();
    assert_eq!(handle, DispatchHandleState { slot: 1, generation: 1 });
    assert_eq!(table.validate_dispatch_handle(1, 1, HandlePhase::DispatchSent), Ok(7));
    assert_eq!(table.transition_dispatch_received(1, 1), Ok(()));
    assert_eq!(table.validate_dispatch_handle(1, 1, HandlePhase::DispatchReceived), Ok(7));
    assert_eq!(table.transition_combine_sent(1, 1), Ok(()));
    assert_eq!(table.validate_dispatch_handle(1, 1, HandlePhase::CombineSent), Ok(7));
    assert_eq!(table.validate_live_dispatch_handle(1, 1), Ok(7));
    assert_eq!(table.release_handle(1, 1), Ok(()));
    assert_eq!(table.slot_states, vec![SlotGenerationState::Idle, SlotGenerationState::Idle]);
}

#[test]
fn each_dispatch_gets_its_own_generation() {
    let mut table = HandleTable::new(2);
    assert_eq!(table.begin_dispatch_handle(0, 1).unwrap().generation, 1);
    assert_eq!(table.begin_dispatch_handle(1, 1).unwrap().generation, 2);
    let busy = SlotGenerationState::DispatchSent { generation: 1, num_tokens: 1 };
    assert_eq!(
        table.begin_dispatch_handle(0, 1),
        Err(ContextError::NotIdle { slot: 0, found: busy })
    );
    assert_eq!(
        table.begin_dispatch_handle(2, 1),
        Err(ContextError::InvalidSlot { slot: 2 })
    );
    assert_eq!(table.next_generation, 5);
}

#[test]
fn generations_wrap() {
    let mut table = HandleTable::new(1);
    table.next_generation = u64::MAX;
    assert_eq!(table.begin_dispatch_handle(0, 1).unwrap().generation, u64::MAX);
    assert_eq!(table.next_generation, 0);
}

#[test]
fn stale_generations_are_refused() {
    let mut table = HandleTable::new(1);
    table.begin_dispatch_handle(0, 4).unwrap();
    let found = SlotGenerationState::DispatchSent { generation: 1, num_tokens: 4 };
    assert_eq!(
        table.validate_dispatch_handle(0, 2, HandlePhase::DispatchSent),
        Err(ContextError::StaleHandle {
            slot: 0,
            generation: 2,
            expected: HandlePhase::DispatchSent,
            found,
        })
    );
    assert_eq!(
        table.validate_live_dispatch_handle(0, 0),
        Err(ContextError::StaleLiveHandle { slot: 0, generation: 0, found })
    );
    assert_eq!(
        table.transition_dispatch_received(0, 2),
        Err(ContextError::StaleDispatchRecv { slot: 0, generation: 2, found })
    );
    assert_eq!(table.slot_states, vec![found]);
}

#[test]
fn phases_out_of_turn_are_refused() {
    let mut table = HandleTable::new(1);
    table.begin_dispatch_handle(0, 4).unwrap();
    let found = SlotGenerationState::DispatchSent { generation: 1, num_tokens: 4 };
    assert_eq!(
        table.transition_combine_sent(0, 1),
        Err(ContextError::StaleCombineSend { slot: 0, generation: 1, found })
    );
    assert_eq!(
        table.release_handle(0, 1),
        Err(ContextError::StaleCombineRecv { slot: 0, generation: 1, found })
    );
    table.transition_dispatch_received(0, 1).unwrap();
    let found = SlotGenerationState::DispatchReceived { generation: 1, num_tokens: 4 };
    assert_eq!(
        table.transition_dispatch_received(0, 1),
        Err(ContextError::StaleDispatchRecv { slot: 0, generation: 1, found })
    );
    assert_eq!(
        table.validate_dispatch_handle(0, 1, HandlePhase::CombineSent),
        Err(ContextError::StaleHandle {
            slot: 0,
            generation: 1,
            expected: HandlePhase::CombineSent,
            found,
        })
    );
}

#[test]
fn released_handles_are_dead() {
    let mut table = HandleTable::new(1);
    table.begin_dispatch_handle(0, 4).unwrap();
    table.transition_dispatch_received(0, 1).unwrap();
    table.transition_combine_sent(0, 1).unwrap();
    table.release_handle(0, 1).unwrap();
    let found = SlotGenerationState::Idle;
    assert_eq!(
        table.release_handle(0, 1),
        Err(ContextError::StaleCombineRecv { slot: 0, generation: 1, found })
    );
    assert_eq!(
        table.validate_live_dispatch_handle(0, 1),
        Err(ContextError::StaleLiveHandle { slot: 0, generation: 1, found })
    );
}

#[test]
fn unknown_slots_are_refused() {
    let mut table = HandleTable::new(1);
    let error = ContextError::InvalidSlot { slot: 3 };
    assert_eq!(table.slot_state(3), Err(error));
    assert_eq!(table.validate_dispatch_handle(3, 1, HandlePhase::CombineSent), Err(error));
    assert_eq!(table.validate_live_dispatch_handle(3, 1), Err(error));
    assert_eq!(table.transition_dispatch_received(3, 1), Err(error));
    assert_eq!(table.transition_combine_sent(3, 1), Err(error));
    assert_eq!(table.release_handle(3, 1), Err(error));
}
