//! What holds of the calls of a context: which calls are taken in which order, what kernels are
//! launched with, and what a refusal says.

use vstd::prelude::*;
use crate::config::ContextConfig;
use crate::context::{
    AllToAllContext, CombineRecvLaunch, CombineSendLaunch, DispatchRecvLaunch, DispatchSendLaunch,
    LaunchOutcome,
};
use crate::handles::{
    ContextError, DispatchHandleState, HandlePhase, HandleTable, Kernel, SlotGenerationState,
};

verus! {

/// Whether a dispatch is launched with the parameters of a context, each under its own name.
pub open spec fn configured_send(
    launch: DispatchSendLaunch,
    config: ContextConfig,
    num_blocks: usize,
) -> bool {
    &&& launch.num_blocks == num_blocks
    &&& launch.hidden_dim == config.hidden_dim
    &&& launch.hidden_dim_scale == config.hidden_dim_scale
    &&& launch.num_experts == config.num_experts
    &&& launch.num_experts_per_token == config.num_experts_per_token
    &&& launch.max_private_tokens == config.max_private_tokens
    &&& launch.rank == config.rank
    &&& launch.dp_size == config.dp_size
    &&& launch.node_size == config.node_size
    &&& launch.world_size == config.world_size
    &&& launch.in_elemsize == config.in_elemsize
    &&& launch.scale_elemsize == config.scale_elemsize
}

/// Whether a slot and no other went from free to taken between two states of a context, and
/// nothing else changed.
pub open spec fn takes_slot(before: AllToAllContext, after: AllToAllContext, slot: usize) -> bool {
    let was = before.slot_pool.used();
    let is = after.slot_pool.used();
    &&& was.len() == is.len()
    &&& slot < was.len()
    &&& !was[slot as int]
    &&& is[slot as int]
    &&& forall|s: int| 0 <= s < was.len() && s != slot ==> #[trigger] is[s] == was[s]
    &&& !after.slot_pool.free().contains(slot)
    &&& forall|s: usize|
        s != slot ==> (#[trigger] after.slot_pool.free().contains(s)
            <==> before.slot_pool.free().contains(s))
    &&& after.handles == before.handles
    &&& after.config == before.config
    &&& after.num_blocks == before.num_blocks
    &&& after.node_route_exchange == before.node_route_exchange
}

/// Whether two states of a context are the same.
pub open spec fn unchanged(before: AllToAllContext, after: AllToAllContext) -> bool {
    &&& after.slot_pool.used() == before.slot_pool.used()
    &&& after.slot_pool.free() == before.slot_pool.free()
    &&& after.handles == before.handles
    &&& after.config == before.config
    &&& after.num_blocks == before.num_blocks
    &&& after.node_route_exchange == before.node_route_exchange
}

/// What a dispatch on some slot amounts to.
pub open spec fn starts_dispatch(
    before: AllToAllContext,
    after: AllToAllContext,
    num_tokens: usize,
    launch: Result<Option<DispatchSendLaunch>, ContextError>,
) -> bool {
    match launch {
        Ok(Some(launch)) => {
            &&& num_tokens <= before.config.max_num_tokens
            &&& configured_send(launch, before.config, before.num_blocks)
            &&& launch.num_tokens == num_tokens
            &&& takes_slot(before, after, launch.slot)
            // The slot that has been free for longest is taken.
            &&& before.slot_pool.free() == seq![launch.slot] + after.slot_pool.free()
        },
        Ok(None) => {
            &&& num_tokens <= before.config.max_num_tokens
            &&& forall|s: int|
                0 <= s < before.slot_pool.used().len() ==> #[trigger] before.slot_pool.used()[s]
            &&& unchanged(before, after)
        },
        Err(error) => {
            &&& num_tokens > before.config.max_num_tokens
            &&& error == ContextError::TooManyTokens
            &&& unchanged(before, after)
        },
    }
}

/// A dispatch hands the kernel every parameter of the context under its own name, and the number
/// of tokens of the call. It takes the slot that has been free for longest, and no other. It is
/// refused just for too many tokens, and waits just while every slot is taken.
pub proof fn law_dispatch_takes_a_free_slot(num_tokens: usize)
    ensures
        forall|
            context: &mut AllToAllContext,
            launch: Result<Option<DispatchSendLaunch>, ContextError>,
        |
            (*context).wf() && #[trigger] call_ensures(
                AllToAllContext::dispatch_send,
                (context, num_tokens),
                launch,
            ) ==> starts_dispatch(*context, *final(context), num_tokens, launch),
{
    assert forall|
        context: &mut AllToAllContext,
        launch: Result<Option<DispatchSendLaunch>, ContextError>,
    |
        (*context).wf() && #[trigger] call_ensures(
            AllToAllContext::dispatch_send,
            (context, num_tokens),
            launch,
        ) implies starts_dispatch(*context, *final(context), num_tokens, launch) by {
        let before = (*context).slot_pool;
        let after = (*final(context)).slot_pool;
        match launch {
            Ok(Some(launch)) => {
                assert(before.free()[0] == launch.slot);
                assert(before.free() =~= seq![launch.slot] + after.free());
                lemma_taken(*context, *final(context), launch.slot, 0);
            },
            Ok(None) => {
                assert forall|s: int| 0 <= s < before.used().len() implies #[trigger]
                    before.used()[s] by {
                    if !before.used()[s] {
                        assert(before.free().contains(s as usize));
                    }
                }
            },
            Err(_) => {},
        }
    }
}

/// Taking a slot out of the queue takes out no other.
proof fn lemma_taken(before: AllToAllContext, after: AllToAllContext, slot: usize, at: int)
    requires
        before.wf(),
        0 <= at < before.slot_pool.free().len(),
        before.slot_pool.free()[at] == slot,
        after.slot_pool.free() == before.slot_pool.free().remove(at)
            || at == 0 && after.slot_pool.free() == before.slot_pool.free().drop_first(),
    ensures
        !after.slot_pool.free().contains(slot),
        forall|s: usize|
            s != slot ==> (#[trigger] after.slot_pool.free().contains(s)
                <==> before.slot_pool.free().contains(s)),
{
    let was = before.slot_pool.free();
    let is = after.slot_pool.free();
    assert forall|i: int| 0 <= i < is.len() implies #[trigger] is[i] == was[if i < at {
        i
    } else {
        i + 1
    }] by {}
    if is.contains(slot) {
        let i = choose|i: int| 0 <= i < is.len() && is[i] == slot;
        let j = if i < at {
            i
        } else {
            i + 1
        };
        assert(was[j] == slot && j != at);
    }
    assert forall|s: usize| s != slot implies (#[trigger] is.contains(s) <==> was.contains(s)) by {
        if is.contains(s) {
            let i = choose|i: int| 0 <= i < is.len() && is[i] == s;
            assert(was[if i < at {
                i
            } else {
                i + 1
            }] == s);
        }
        if was.contains(s) {
            let j = choose|j: int| 0 <= j < was.len() && was[j] == s;
            assert(j != at);
            assert(is[if j < at {
                j
            } else {
                j - 1
            }] == s);
        }
    }
}

/// What a dispatch on a particular slot amounts to.
pub open spec fn starts_dispatch_on(
    before: AllToAllContext,
    after: AllToAllContext,
    slot: usize,
    num_tokens: usize,
    launch: Result<Option<DispatchSendLaunch>, ContextError>,
) -> bool {
    match launch {
        Ok(Some(launch)) => {
            &&& num_tokens <= before.config.max_num_tokens
            &&& configured_send(launch, before.config, before.num_blocks)
            &&& launch.num_tokens == num_tokens
            &&& launch.slot == slot
            &&& takes_slot(before, after, slot)
        },
        Ok(None) => {
            &&& num_tokens <= before.config.max_num_tokens
            &&& slot < before.slot_pool.used().len()
            &&& before.slot_pool.used()[slot as int]
            &&& unchanged(before, after)
        },
        Err(ContextError::TooManyTokens) => {
            &&& num_tokens > before.config.max_num_tokens
            &&& unchanged(before, after)
        },
        Err(error) => {
            &&& num_tokens <= before.config.max_num_tokens
            &&& slot >= before.slot_pool.used().len()
            &&& error == (ContextError::SlotUnavailable { slot })
            &&& unchanged(before, after)
        },
    }
}

/// A dispatch on a particular slot is launched as any other is, on that slot; it waits just
/// while the slot is taken, and is refused just for too many tokens or for want of the slot.
pub proof fn law_dispatch_takes_the_named_slot(slot: usize, num_tokens: usize)
    ensures
        forall|
            context: &mut AllToAllContext,
            launch: Result<Option<DispatchSendLaunch>, ContextError>,
        |
            (*context).wf() && #[trigger] call_ensures(
                AllToAllContext::dispatch_send_on_slot,
                (context, slot, num_tokens),
                launch,
            ) ==> starts_dispatch_on(*context, *final(context), slot, num_tokens, launch),
{
    assert forall|
        context: &mut AllToAllContext,
        launch: Result<Option<DispatchSendLaunch>, ContextError>,
    |
        (*context).wf() && #[trigger] call_ensures(
            AllToAllContext::dispatch_send_on_slot,
            (context, slot, num_tokens),
            launch,
        ) implies starts_dispatch_on(*context, *final(context), slot, num_tokens, launch) by {
        let before = (*context).slot_pool;
        if let Ok(Some(_)) = launch {
            let at = before.free().index_of(slot);
            assert(before.free()[at] == slot);
            lemma_taken(*context, *final(context), slot, at);
        }
    }
}

/// Whether a launch goes well: the kernel starts, and no transfer has failed.
pub open spec fn goes_well(outcome: LaunchOutcome) -> bool {
    outcome == (LaunchOutcome::Launched { transfer_errors: 0 })
}

/// The error of a launch that does not go well. It names the kernel and the slot.
pub open spec fn names_failure(
    error: ContextError,
    outcome: LaunchOutcome,
    kernel: Kernel,
    slot: usize,
) -> bool {
    match error {
        ContextError::KernelFailed { kernel: k, slot: s } => outcome == LaunchOutcome::Failed && k
            == kernel && s == slot,
        ContextError::TransferFailed { kernel: k, slot: s } => outcome != LaunchOutcome::Failed
            && k == kernel && s == slot,
        _ => false,
    }
}

/// Whether two states of a context differ in nothing but what one slot is in the middle of.
pub open spec fn only_slot_moved(
    before: AllToAllContext,
    after: AllToAllContext,
    slot: usize,
) -> bool {
    &&& after.slot_pool == before.slot_pool
    &&& after.config == before.config
    &&& after.num_blocks == before.num_blocks
    &&& after.node_route_exchange == before.node_route_exchange
    &&& after.handles.slot_states@.len() == before.handles.slot_states@.len()
    &&& forall|s: int|
        0 <= s < before.handles.slot_states@.len() && s != slot
            ==> #[trigger] after.handles.slot_states@[s] == before.handles.slot_states@[s]
}

/// What a slot is in the middle of.
pub open spec fn state_of(context: AllToAllContext, slot: usize) -> SlotGenerationState {
    context.handles.slot_states@[slot as int]
}

/// What it amounts to that a dispatch was sent.
pub open spec fn dispatch_begins(
    before: AllToAllContext,
    after: AllToAllContext,
    slot: usize,
    num_tokens: usize,
    outcome: LaunchOutcome,
    handle: Result<DispatchHandleState, ContextError>,
) -> bool {
    &&& only_slot_moved(before, after, slot)
    &&& match handle {
        Ok(handle) => {
            &&& goes_well(outcome)
            &&& handle.slot == slot
            &&& slot < before.handles.slot_states@.len()
            &&& state_of(before, slot) is Idle
            &&& state_of(after, slot) == (SlotGenerationState::DispatchSent {
                generation: handle.generation,
                num_tokens,
            })
            // The next handle has another generation.
            &&& handle.generation == before.handles.next_generation
            &&& after.handles.next_generation != handle.generation
            &&& handle.generation < u64::MAX ==> after.handles.next_generation
                == handle.generation + 1
        },
        Err(error) => {
            &&& after.handles.slot_states@ == before.handles.slot_states@
            &&& if !goes_well(outcome) {
                &&& names_failure(error, outcome, Kernel::DispatchSend, slot)
                &&& after.handles == before.handles
            } else if slot >= before.handles.slot_states@.len() {
                error == (ContextError::InvalidSlot { slot })
            } else {
                &&& !(state_of(before, slot) is Idle)
                &&& error == (ContextError::NotIdle { slot, found: state_of(before, slot) })
            }
        },
    }
}

/// A dispatch that was sent gets a handle that names its slot and a generation of its own, and
/// its slot remembers the generation and the number of tokens. It gets one just where the launch
/// went well and the slot was idle; a refusal says why, and leaves every slot as it was.
pub proof fn law_sent_dispatch_gets_a_handle(
    slot: usize,
    num_tokens: usize,
    outcome: LaunchOutcome,
)
    ensures
        forall|context: &mut AllToAllContext, handle: Result<DispatchHandleState, ContextError>|
            (*context).wf() && #[trigger] call_ensures(
                AllToAllContext::dispatch_sent,
                (context, slot, num_tokens, outcome),
                handle,
            ) ==> dispatch_begins(*context, *final(context), slot, num_tokens, outcome, handle),
{
}

/// What it amounts to that a dispatch moves on from one phase: it does so just where the launch
/// went well and the handle names the dispatch that the slot is in the middle of, in that phase.
pub open spec fn dispatch_moves(
    before: AllToAllContext,
    after: AllToAllContext,
    slot: usize,
    outcome: LaunchOutcome,
    kernel: Kernel,
    from: SlotGenerationState,
    to: SlotGenerationState,
    result: Result<(), ContextError>,
) -> bool {
    &&& only_slot_moved(before, after, slot)
    &&& after.handles.next_generation == before.handles.next_generation
    &&& result is Ok <==> goes_well(outcome) && slot < before.handles.slot_states@.len()
        && state_of(before, slot) == from
    &&& result is Ok ==> state_of(after, slot) == to
    &&& result is Err ==> after.handles.slot_states@ == before.handles.slot_states@
    &&& result is Err && !goes_well(outcome) ==> names_failure(
        result->Err_0,
        outcome,
        kernel,
        slot,
    )
    &&& result is Err && goes_well(outcome) && slot >= before.handles.slot_states@.len()
        ==> result->Err_0 == (ContextError::InvalidSlot { slot })
}

/// The number of tokens that a slot remembers.
pub open spec fn remembered(state: SlotGenerationState) -> usize {
    match state {
        SlotGenerationState::Idle => 0,
        SlotGenerationState::DispatchSent { generation: _, num_tokens } => num_tokens,
        SlotGenerationState::DispatchReceived { generation: _, num_tokens } => num_tokens,
        SlotGenerationState::CombineSent { generation: _, num_tokens } => num_tokens,
    }
}

/// A dispatch moves from sent to received, from received to sent back, and from sent back to
/// done, in this order, each time keeping its generation and number of tokens. A call out of
/// turn, with another generation or after a failed launch moves nothing.
pub proof fn law_dispatch_moves_in_order(slot: usize, generation: u64, outcome: LaunchOutcome)
    ensures
        forall|context: &mut AllToAllContext, result: Result<(), ContextError>|
            (*context).wf() && #[trigger] call_ensures(
                AllToAllContext::dispatch_received,
                (context, slot, generation, outcome),
                result,
            ) ==> {
                let num_tokens = remembered(state_of(*context, slot));
                &&& dispatch_moves(
                    *context,
                    *final(context),
                    slot,
                    outcome,
                    Kernel::DispatchRecv,
                    SlotGenerationState::DispatchSent { generation, num_tokens },
                    SlotGenerationState::DispatchReceived { generation, num_tokens },
                    result,
                )
                &&& result is Err && goes_well(outcome) && slot
                    < (*context).handles.slot_states@.len() ==> result->Err_0 == (
                ContextError::StaleDispatchRecv {
                    slot,
                    generation,
                    found: state_of(*context, slot),
                })
            },
        forall|context: &mut AllToAllContext, result: Result<(), ContextError>|
            (*context).wf() && #[trigger] call_ensures(
                AllToAllContext::combine_sent,
                (context, slot, generation, outcome),
                result,
            ) ==> {
                let num_tokens = remembered(state_of(*context, slot));
                &&& dispatch_moves(
                    *context,
                    *final(context),
                    slot,
                    outcome,
                    Kernel::CombineSend,
                    SlotGenerationState::DispatchReceived { generation, num_tokens },
                    SlotGenerationState::CombineSent { generation, num_tokens },
                    result,
                )
                &&& result is Err && goes_well(outcome) && slot
                    < (*context).handles.slot_states@.len() ==> result->Err_0 == (
                ContextError::StaleCombineSend {
                    slot,
                    generation,
                    found: state_of(*context, slot),
                })
            },
        forall|context: &mut AllToAllContext, result: Result<(), ContextError>|
            (*context).wf() && #[trigger] call_ensures(
                AllToAllContext::combine_received,
                (context, slot, generation, outcome),
                result,
            ) ==> {
                let num_tokens = remembered(state_of(*context, slot));
                &&& dispatch_moves(
                    *context,
                    *final(context),
                    slot,
                    outcome,
                    Kernel::CombineRecv,
                    SlotGenerationState::CombineSent { generation, num_tokens },
                    SlotGenerationState::Idle,
                    result,
                )
                &&& result is Err && goes_well(outcome) && slot
                    < (*context).handles.slot_states@.len() ==> result->Err_0 == (
                ContextError::StaleCombineRecv {
                    slot,
                    generation,
                    found: state_of(*context, slot),
                })
            },
{
}

/// Why a call on a handle is refused, if it is refused for its handle: the slot does not exist,
/// or it is not in the middle of that generation in that phase.
pub open spec fn refuses_handle(
    context: AllToAllContext,
    slot: usize,
    generation: u64,
    expected: HandlePhase,
    taken: SlotGenerationState,
    error: Option<ContextError>,
) -> bool {
    match error {
        None => slot < context.handles.slot_states@.len() && state_of(context, slot) == taken,
        Some(ContextError::InvalidSlot { slot: s }) => s == slot && slot
            >= context.handles.slot_states@.len(),
        Some(error) => {
            &&& slot < context.handles.slot_states@.len()
            &&& state_of(context, slot) != taken
            &&& error == (ContextError::StaleHandle {
                slot,
                generation,
                expected,
                found: state_of(context, slot),
            })
        },
    }
}

/// Tokens are received just for a dispatch that was sent, and the kernel gets every parameter
/// under its own name.
pub proof fn law_receive_follows_send(
    context: AllToAllContext,
    slot: usize,
    generation: u64,
    launch: Result<DispatchRecvLaunch, ContextError>,
)
    requires
        call_ensures(AllToAllContext::dispatch_recv, (&context, slot, generation), launch),
    ensures
        ({
            let num_tokens = remembered(state_of(context, slot));
            refuses_handle(
                context,
                slot,
                generation,
                HandlePhase::DispatchSent,
                SlotGenerationState::DispatchSent { generation, num_tokens },
                launch.err(),
            )
        }),
        launch matches Ok(launch) ==> {
            &&& launch.num_blocks == context.num_blocks
            &&& launch.hidden_dim == context.config.hidden_dim
            &&& launch.hidden_dim_scale == context.config.hidden_dim_scale
            &&& launch.in_elemsize == context.config.in_elemsize
            &&& launch.scale_elemsize == context.config.scale_elemsize
            &&& launch.num_experts == context.config.num_experts
            &&& launch.rank == context.config.rank
            &&& launch.dp_size == context.config.dp_size
            &&& launch.node_size == context.config.node_size
            &&& launch.world_size == context.config.world_size
        },
{
}

/// Tokens are sent back just for a dispatch that was received, and the kernel gets every
/// parameter under its own name.
pub proof fn law_send_back_follows_receive(
    context: AllToAllContext,
    slot: usize,
    generation: u64,
    launch: Result<CombineSendLaunch, ContextError>,
)
    requires
        call_ensures(AllToAllContext::combine_send, (&context, slot, generation), launch),
    ensures
        ({
            let num_tokens = remembered(state_of(context, slot));
            refuses_handle(
                context,
                slot,
                generation,
                HandlePhase::DispatchReceived,
                SlotGenerationState::DispatchReceived { generation, num_tokens },
                launch.err(),
            )
        }),
        launch matches Ok(launch) ==> {
            &&& launch.num_blocks == context.num_blocks
            &&& launch.hidden_dim == context.config.hidden_dim
            &&& launch.out_elemsize == context.config.out_elemsize
            &&& launch.rank == context.config.rank
            &&& launch.node_size == context.config.node_size
            &&& launch.dp_size == context.config.dp_size
        },
{
}

/// Tokens are combined just for a dispatch that was sent back, and just for the number of tokens
/// that it was sent with; the kernel gets every parameter under its own name.
pub proof fn law_combine_follows_send_back(
    context: AllToAllContext,
    slot: usize,
    generation: u64,
    num_tokens: usize,
    num_recv_tokens: usize,
    launch: Result<CombineRecvLaunch, ContextError>,
)
    requires
        call_ensures(
            AllToAllContext::combine_recv,
            (&context, slot, generation, num_tokens, num_recv_tokens),
            launch,
        ),
    ensures
        match launch {
            Ok(launch) => {
                &&& slot < context.handles.slot_states@.len()
                &&& state_of(context, slot) == (SlotGenerationState::CombineSent {
                    generation,
                    num_tokens,
                })
                &&& launch.num_blocks == context.num_blocks
                &&& launch.hidden_dim == context.config.hidden_dim
                &&& launch.out_elemsize == context.config.out_elemsize
                &&& launch.num_experts == context.config.num_experts
                &&& launch.num_experts_per_token == context.config.num_experts_per_token
                &&& launch.rank == context.config.rank
                &&& launch.node_size == context.config.node_size
                &&& launch.world_size == context.config.world_size
                &&& launch.max_recv_tokens == context.config.max_recv_tokens
                &&& launch.num_tokens == num_tokens
                &&& launch.num_recv_tokens == num_recv_tokens
            },
            Err(ContextError::TokenCountMismatch { slot: s, expected, got }) => {
                &&& slot < context.handles.slot_states@.len()
                &&& state_of(context, slot) == (SlotGenerationState::CombineSent {
                    generation,
                    num_tokens: expected,
                })
                &&& s == slot
                &&& got == num_tokens
                &&& expected != num_tokens
            },
            Err(error) => refuses_handle(
                context,
                slot,
                generation,
                HandlePhase::CombineSent,
                SlotGenerationState::CombineSent {
                    generation,
                    num_tokens: remembered(state_of(context, slot)),
                },
                Some(error),
            ),
        },
{
}

/// A live handle is one that the slot is in the middle of, in whatever phase; looking at it gives
/// the number of tokens that the dispatch was sent with.
pub proof fn law_live_handles_are_those_under_way(
    table: HandleTable,
    slot: usize,
    generation: u64,
    tokens: Result<usize, ContextError>,
)
    requires
        call_ensures(
            HandleTable::validate_live_dispatch_handle,
            (&table, slot, generation),
            tokens,
        ),
    ensures
        tokens is Ok <==> slot < table.slot_states@.len() && {
            let state = table.slot_states@[slot as int];
            let num_tokens = remembered(state);
            ||| state == (SlotGenerationState::DispatchSent { generation, num_tokens })
            ||| state == (SlotGenerationState::DispatchReceived { generation, num_tokens })
            ||| state == (SlotGenerationState::CombineSent { generation, num_tokens })
        },
        tokens is Ok ==> tokens->Ok_0 == remembered(table.slot_states@[slot as int]),
        tokens is Err ==> tokens->Err_0 == if slot < table.slot_states@.len() {
            ContextError::StaleLiveHandle {
                slot,
                generation,
                found: table.slot_states@[slot as int],
            }
        } else {
            ContextError::InvalidSlot { slot }
        },
{
}

/// A slot that is given back is free again, and last in the queue; giving back a slot that is not
/// taken, or that does not exist, changes nothing.
pub proof fn law_released_slots_are_free_again(slot: usize)
    ensures
        forall|context: &mut AllToAllContext, freed: bool|
            (*context).wf() && #[trigger] call_ensures(
                AllToAllContext::release_slot,
                (context, slot),
                freed,
            ) ==> {
                let before = *context;
                let after = *final(context);
                &&& freed <==> slot < before.slot_pool.used().len()
                    && before.slot_pool.used()[slot as int]
                &&& freed ==> {
                    &&& !after.slot_pool.used()[slot as int]
                    &&& after.slot_pool.free().last() == slot
                    &&& after.slot_pool.free().drop_last() == before.slot_pool.free()
                    &&& after.slot_pool.used().len() == before.slot_pool.used().len()
                    &&& forall|s: int|
                        0 <= s < before.slot_pool.used().len() && s != slot
                            ==> #[trigger] after.slot_pool.used()[s]
                            == before.slot_pool.used()[s]
                    &&& after.handles == before.handles
                    &&& after.config == before.config
                }
                &&& !freed ==> unchanged(before, after)
            },
{
    assert forall|context: &mut AllToAllContext, freed: bool|
        (*context).wf() && #[trigger] call_ensures(
            AllToAllContext::release_slot,
            (context, slot),
            freed,
        ) && freed implies (*final(context)).slot_pool.free().drop_last()
        == (*context).slot_pool.free() by {
        assert((*final(context)).slot_pool.free().drop_last() =~= (*context).slot_pool.free());
    }
}

} // verus!
