//! What holds of a context when it is made: its slots, their buffers and their workers.

use vstd::prelude::*;
use crate::config::ContextConfig;
use crate::context::{
    check_rank_descriptors, AllToAllContext, ContextBuffers, ContextParts,
};
use crate::counters::{WaitKind, WorkerCounters};
use crate::handles::ContextError;
use crate::worker::{MicrobatchSlot, SlotFlags, StopSignal, WorkerState};
use crate::workspace::{DeviceBuffer, DeviceWorkspace};

verus! {

/// Whether there are as many buffers of every kind as slots.
pub open spec fn complete(buffers: ContextBuffers, slots: int) -> bool {
    &&& buffers.num_routed_ptrs == slots
    &&& buffers.num_routed_mrs == slots
    &&& buffers.send_buffer_ptrs == slots
    &&& buffers.send_buffer_mrs == slots
    &&& buffers.recv_buffer_ptrs == slots
    &&& buffers.recv_buffer_mrs == slots
    &&& buffers.rank_handles == slots
    &&& buffers.sync_ptrs@.len() == slots
    &&& buffers.send_ptrs@.len() == slots
    &&& buffers.recv_ptrs@.len() == slots
    &&& buffers.node_route_count_ptrs@.len() == slots
    &&& buffers.node_route_epoch_ptrs@.len() == slots
}

/// Whether an error names buffers that are not as many as slots: it gives the number of slots
/// and the numbers that were found, one of which is another.
pub open spec fn names_missing(buffers: ContextBuffers, slots: usize, error: ContextError) -> bool {
    match error {
        ContextError::RoutedBuffers { expected, ptrs, mrs } => {
            &&& expected == slots
            &&& ptrs == buffers.num_routed_ptrs
            &&& mrs == buffers.num_routed_mrs
            &&& ptrs != slots || mrs != slots
        },
        ContextError::PayloadBuffers { expected, send_ptrs, send_mrs, recv_ptrs, recv_mrs } => {
            &&& expected == slots
            &&& send_ptrs == buffers.send_buffer_ptrs
            &&& send_mrs == buffers.send_buffer_mrs
            &&& recv_ptrs == buffers.recv_buffer_ptrs
            &&& recv_mrs == buffers.recv_buffer_mrs
            &&& send_ptrs != slots || send_mrs != slots || recv_ptrs != slots || recv_mrs != slots
            &&& buffers.num_routed_ptrs == slots && buffers.num_routed_mrs == slots
        },
        ContextError::RankHandleSets { expected, got } => {
            &&& expected == slots
            &&& got == buffers.rank_handles
            &&& got != slots
            &&& buffers.num_routed_ptrs == slots && buffers.send_buffer_ptrs == slots
                && buffers.recv_buffer_mrs == slots
        },
        ContextError::NvlinkPointerSets { expected, sync, send, recv } => {
            &&& expected == slots
            &&& sync == buffers.sync_ptrs@.len()
            &&& send == buffers.send_ptrs@.len()
            &&& recv == buffers.recv_ptrs@.len()
            &&& sync != slots || send != slots || recv != slots
            &&& buffers.recv_buffer_ptrs == slots && buffers.rank_handles == slots
        },
        ContextError::NodeRoutePointerSets { expected, counts, epochs } => {
            &&& expected == slots
            &&& counts == buffers.node_route_count_ptrs@.len()
            &&& epochs == buffers.node_route_epoch_ptrs@.len()
            &&& counts != slots || epochs != slots
            &&& buffers.rank_handles == slots && buffers.sync_ptrs@.len() == slots
                && buffers.send_ptrs@.len() == slots && buffers.recv_ptrs@.len() == slots
        },
        _ => false,
    }
}

/// The numbers of pointer sets are sizes.
proof fn lemma_set_counts(buffers: ContextBuffers)
    ensures
        buffers.sync_ptrs@.len() <= usize::MAX,
        buffers.send_ptrs@.len() <= usize::MAX,
        buffers.recv_ptrs@.len() <= usize::MAX,
        buffers.node_route_count_ptrs@.len() <= usize::MAX,
        buffers.node_route_epoch_ptrs@.len() <= usize::MAX,
{
    assert(buffers.sync_ptrs.len() == buffers.sync_ptrs@.len());
    assert(buffers.send_ptrs.len() == buffers.send_ptrs@.len());
    assert(buffers.recv_ptrs.len() == buffers.recv_ptrs@.len());
    assert(buffers.node_route_count_ptrs.len() == buffers.node_route_count_ptrs@.len());
    assert(buffers.node_route_epoch_ptrs.len() == buffers.node_route_epoch_ptrs@.len());
}

/// Buffers pass just where there are as many of every kind as slots, and a refusal names those
/// that are not, and how many there are.
pub proof fn law_incomplete_buffers_are_named(
    buffers: ContextBuffers,
    slots: usize,
    found: Option<ContextError>,
)
    requires
        call_ensures(ContextBuffers::check, (&buffers, slots), found),
    ensures
        found is None <==> complete(buffers, slots as int),
        found matches Some(error) ==> names_missing(buffers, slots, error),
{
    lemma_set_counts(buffers);
}

/// A rank passes just where it gave one descriptor of each kind for every slot, of which there is
/// at least one.
pub proof fn law_missing_descriptors_are_named(
    num_slots: usize,
    routed: usize,
    recv: usize,
    found: Option<ContextError>,
)
    requires
        call_ensures(check_rank_descriptors, (num_slots, routed, recv), found),
    ensures
        found is None <==> routed == recv && routed >= 1 && (routed == num_slots || routed == 1
            && num_slots == 0),
        found matches Some(error) ==> match error {
            ContextError::RoutedDescriptors { expected, got } => got == routed && got != expected
                && expected >= 1 && expected >= num_slots && (expected == num_slots || num_slots
                == 0 && expected == 1),
            ContextError::RecvDescriptors { expected, got } => got == recv && got != expected
                && routed == expected,
            _ => false,
        },
{
}

/// The immediate value that a worker uses for one of its five messages.
pub open spec fn immediate(worker: WorkerState, which: int) -> u32 {
    if which == 0 {
        worker.route_imm
    } else if which == 1 {
        worker.dispatch_imm
    } else if which == 2 {
        worker.combine_imm
    } else if which == 3 {
        worker.dispatch_barrier_imm
    } else {
        worker.combine_barrier_imm
    }
}

/// A context has at least one slot, all of them free, idle and queued from the lowest up. Every
/// slot has a worker for it, not told to stop and in round one, that nothing was counted by, and
/// the addresses that were given for it.
pub proof fn law_new_context_is_idle(
    config: ContextConfig,
    buffers: ContextBuffers,
    imm_base: u32,
    num_slots: usize,
    num_blocks: usize,
    made: Result<ContextParts, ContextError>,
)
    requires
        call_ensures(
            AllToAllContext::new,
            (config, &buffers, imm_base, num_slots, num_blocks),
            made,
        ),
    ensures
        made matches Ok(parts) ==> {
            let slots = parts.workers@.len();
            &&& slots >= 1
            &&& num_slots >= 1 ==> slots == num_slots
            &&& num_slots == 0 ==> slots == 1
            &&& complete(buffers, slots as int)
            &&& parts.workspaces@.len() == slots
            &&& parts.context.config == config
            &&& parts.context.num_blocks == num_blocks
            &&& parts.context.handles.slot_states@.len() == slots
            &&& parts.context.slot_pool.used().len() == slots
            &&& parts.context.slot_pool.free().len() == slots
            &&& parts.context.handles.next_generation == 1
            &&& forall|s: int|
                0 <= s < slots ==> {
                    let worker = #[trigger] parts.workers@[s];
                    &&& parts.context.handles.slot_states@[s] is Idle
                    &&& !parts.context.slot_pool.used()[s]
                    &&& parts.context.slot_pool.free()[s] == s
                    &&& worker.slot_idx == s
                    &&& worker.config == config
                    &&& !worker.stopped
                    &&& worker.epoch == 1
                    &&& worker.dp_group * config.dp_size + worker.dp_rank == config.rank
                    &&& worker.dp_rank < config.dp_size
                    &&& worker.node_route_count_ptrs@.len()
                        == buffers.node_route_count_ptrs@[s]@.len()
                    &&& forall|i: int|
                        0 <= i < worker.node_route_count_ptrs@.len()
                            ==> #[trigger] worker.node_route_count_ptrs@[i]
                            == buffers.node_route_count_ptrs@[s]@[i] as usize
                    &&& worker.node_route_epoch_ptrs@.len()
                        == buffers.node_route_epoch_ptrs@[s]@.len()
                    &&& forall|i: int|
                        0 <= i < worker.node_route_epoch_ptrs@.len()
                            ==> #[trigger] worker.node_route_epoch_ptrs@[i]
                            == buffers.node_route_epoch_ptrs@[s]@[i] as usize
                    &&& nothing_counted(worker.counters, config.world_size as int)
                }
        },
        made matches Err(error) ==> !complete(
            buffers,
            if num_slots == 0 {
                1
            } else {
                num_slots as int
            },
        ) && names_missing(
            buffers,
            if num_slots == 0 {
                1
            } else {
                num_slots
            },
            error,
        ),
{
    lemma_set_counts(buffers);
    if let Ok(parts) = made {
        crate::config::lemma_has_groups(config);
        assert forall|s: int| 0 <= s < parts.workers@.len() implies ({
            let worker = #[trigger] parts.workers@[s];
            &&& worker.dp_group * config.dp_size + worker.dp_rank == config.rank
            &&& worker.dp_rank < config.dp_size
        }) by {
            let worker = parts.workers@[s];
            assert(worker.wf());
            vstd::arithmetic::div_mod::lemma_fundamental_div_mod(
                config.rank as int,
                config.dp_size as int,
            );
            assert(worker.dp_group * config.dp_size == config.dp_size * worker.dp_group)
                by (nonlinear_arith);
        }
    }
}

/// Whether nothing was counted so far.
pub open spec fn nothing_counted(counters: WorkerCounters, world_size: int) -> bool {
    &&& counters.dispatch.local == 0 && counters.dispatch.nvlink == 0 && counters.dispatch.network
        == 0
    &&& counters.combine.local == 0 && counters.combine.nvlink == 0 && counters.combine.network
        == 0
    &&& counters.dispatch.peer@.len() == world_size && counters.combine.peer@.len() == world_size
    &&& forall|p: int| 0 <= p < world_size ==> #[trigger] counters.dispatch.peer@[p] == 0
    &&& forall|p: int| 0 <= p < world_size ==> #[trigger] counters.combine.peer@[p] == 0
    &&& forall|kind: WaitKind| #[trigger] counters.times.spent(kind) == 0
}

/// No two messages of the slots of a context carry the same immediate value: those of the first
/// slot start at the given value, and all of them are the next ones up, slot after slot.
pub proof fn law_immediates_are_distinct(
    config: ContextConfig,
    buffers: ContextBuffers,
    imm_base: u32,
    num_slots: usize,
    num_blocks: usize,
    parts: ContextParts,
    s: int,
    i: int,
    u: int,
    j: int,
)
    requires
        call_ensures(
            AllToAllContext::new,
            (config, &buffers, imm_base, num_slots, num_blocks),
            Ok::<ContextParts, ContextError>(parts),
        ),
        0 <= s < parts.workers@.len(),
        0 <= u < parts.workers@.len(),
        0 <= i < 5,
        0 <= j < 5,
    ensures
        s != u || i != j ==> immediate(parts.workers@[s], i) != immediate(parts.workers@[u], j),
        imm_base <= immediate(parts.workers@[s], i) < imm_base + 5 * parts.workers@.len(),
        parts.workers@[0].route_imm == imm_base,
        s < u || s == u && i < j ==> immediate(parts.workers@[s], i) < immediate(
            parts.workers@[u],
            j,
        ),
{
    assert(parts.workers@[s].slot_idx == s);
    assert(parts.workers@[u].slot_idx == u);
    assert(parts.workers@[0].slot_idx == 0);
}

/// Route counts are exchanged within the node just where there is one node, and every rank gave
/// the places of its counts and of its epoch.
pub proof fn law_node_exchange_needs_every_address(worker: WorkerState, exchange: bool)
    requires
        call_ensures(WorkerState::has_node_route_exchange, (&worker,), exchange),
    ensures
        exchange <==> worker.config.node_size == worker.config.world_size
            && worker.node_route_count_ptrs@.len() == worker.config.world_size
            && worker.node_route_epoch_ptrs@.len() == worker.config.world_size,
{
}

/// A context exchanges route counts within the node just where its workers do.
pub proof fn law_context_exchanges_as_its_workers(
    config: ContextConfig,
    buffers: ContextBuffers,
    imm_base: u32,
    num_slots: usize,
    num_blocks: usize,
    parts: ContextParts,
    exchange: bool,
)
    requires
        call_ensures(
            AllToAllContext::new,
            (config, &buffers, imm_base, num_slots, num_blocks),
            Ok::<ContextParts, ContextError>(parts),
        ),
        call_ensures(AllToAllContext::uses_node_route_exchange, (&parts.context,), exchange),
    ensures
        exchange <==> config.node_size == config.world_size
            && buffers.node_route_count_ptrs@[0]@.len() == config.world_size
            && buffers.node_route_epoch_ptrs@[0]@.len() == config.world_size,
{
    assert(parts.workers@[0].slot_idx == 0);
}

/// Whether a buffer holds one 32-bit word, zeroed.
pub open spec fn one_zero(buffer: DeviceBuffer) -> bool {
    buffer.bytes == 4 && buffer.zeroed
}

/// Whether a table on the device holds the given pointers; without pointers there is none.
pub open spec fn same_pointers(on_device: Option<Vec<u64>>, host: Seq<u64>) -> bool {
    &&& on_device is None <==> host.len() == 0
    &&& on_device matches Some(table) ==> table@ == host
}

/// The private buffers of a slot: a zeroed word for every expert, a word for every token and each
/// of its experts, counters at zero, and the tables of pointers, each its own.
pub proof fn law_device_buffers_have_room(
    num_experts: usize,
    max_num_tokens: usize,
    num_experts_per_token: usize,
    sync_ptrs: &[u64],
    send_ptrs: &[u64],
    recv_ptrs: &[u64],
    workspace: DeviceWorkspace,
)
    requires
        call_ensures(
            DeviceWorkspace::new,
            (
                num_experts,
                max_num_tokens,
                num_experts_per_token,
                sync_ptrs,
                send_ptrs,
                recv_ptrs,
            ),
            workspace,
        ),
    ensures
        workspace.expert_offsets.bytes == 4 * num_experts,
        workspace.expert_offsets.zeroed,
        workspace.token_offset.bytes == 4 * (max_num_tokens * num_experts_per_token),
        workspace.combine_recv_position.bytes == 4 * (max_num_tokens * num_experts_per_token),
        !workspace.token_offset.zeroed,
        !workspace.combine_recv_position.zeroed,
        one_zero(workspace.token_counter),
        one_zero(workspace.dispatch_send_counter),
        one_zero(workspace.dispatch_recv_counter),
        one_zero(workspace.epoch_counter),
        one_zero(workspace.current_epoch),
        one_zero(workspace.sync_counter),
        same_pointers(workspace.sync_ptrs, sync_ptrs@),
        same_pointers(workspace.send_ptrs, send_ptrs@),
        same_pointers(workspace.recv_ptrs, recv_ptrs@),
{
}

/// Every slot of a context gets the private buffers that its parameters and its own pointers
/// call for.
pub proof fn law_slots_get_their_own_buffers(
    config: ContextConfig,
    buffers: ContextBuffers,
    imm_base: u32,
    num_slots: usize,
    num_blocks: usize,
    parts: ContextParts,
    s: int,
)
    requires
        call_ensures(
            AllToAllContext::new,
            (config, &buffers, imm_base, num_slots, num_blocks),
            Ok::<ContextParts, ContextError>(parts),
        ),
        0 <= s < parts.workspaces@.len(),
    ensures
        ({
            let workspace = parts.workspaces@[s];
            &&& workspace.expert_offsets.bytes == 4 * config.num_experts
            &&& workspace.token_offset.bytes == 4 * (config.max_num_tokens
                * config.num_experts_per_token)
            &&& workspace.combine_recv_position.bytes == 4 * (config.max_num_tokens
                * config.num_experts_per_token)
            &&& one_zero(workspace.epoch_counter)
            &&& same_pointers(workspace.sync_ptrs, buffers.sync_ptrs@[s]@)
            &&& same_pointers(workspace.send_ptrs, buffers.send_ptrs@[s]@)
            &&& same_pointers(workspace.recv_ptrs, buffers.recv_ptrs@[s]@)
        }),
{
}

/// Whether the flags of a slot are those of a slot that nothing has happened on: no epoch was
/// reached, nothing was received, and the send buffer may be filled.
pub open spec fn untouched(flags: SlotFlags) -> bool {
    &&& flags.dispatch_route_done == 0
    &&& flags.dispatch_send_done == 0
    &&& flags.dispatch_recv_done == 0
    &&& flags.combine_send_done == 0
    &&& flags.combine_recv_done == 0
    &&& flags.num_recv_tokens_ready == 0
    &&& flags.num_recv_tokens == 0
    &&& flags.tx_ready
    &&& !flags.dispatch_recv_flag
    &&& !flags.combine_recv_flag
}

/// The shared buffers of a slot have room for every token that may be received, for a count per
/// local expert, and for a run per local expert and group; its flags are untouched.
pub proof fn law_slot_buffers_have_room(
    num_local_experts: usize,
    num_ep_groups: usize,
    max_recv_tokens: usize,
    slot: MicrobatchSlot,
)
    requires
        call_ensures(
            MicrobatchSlot::new,
            (num_local_experts, num_ep_groups, max_recv_tokens),
            slot,
        ),
    ensures
        slot.tokens_per_expert == num_local_experts,
        slot.layout_range == num_local_experts * num_ep_groups,
        slot.source_dispatch_offset == max_recv_tokens,
        slot.combine_send_offset == max_recv_tokens,
        slot.source_rank == max_recv_tokens,
        slot.padded_index == max_recv_tokens,
        slot.num_recv_tokens == 3,
        untouched(slot.initial),
{
}

/// The shared buffers of a worker's slot: a group's block of experts is the smallest that leaves
/// no expert without a group.
pub proof fn law_worker_slot_has_room(
    worker: WorkerState,
    groups: int,
    block: int,
    slot: MicrobatchSlot,
)
    requires
        call_ensures(WorkerState::slot_sizes, (&worker,), slot),
        worker.wf(),
        groups * worker.config.dp_size <= worker.config.world_size,
        worker.config.world_size < (groups + 1) * worker.config.dp_size,
        block * groups >= worker.config.num_experts,
        (block - 1) * groups < worker.config.num_experts,
    ensures
        slot.tokens_per_expert == block,
        slot.layout_range == block * groups,
        slot.source_dispatch_offset == worker.config.max_recv_tokens,
        slot.combine_send_offset == worker.config.max_recv_tokens,
        slot.source_rank == worker.config.max_recv_tokens,
        slot.padded_index == worker.config.max_recv_tokens,
        slot.num_recv_tokens == 3,
        untouched(slot.initial),
{
    let config = worker.config;
    crate::cluster_laws::lemma_groups(config.world_size as int, config.dp_size as int, groups);
    crate::config::lemma_has_groups(config);
    crate::cluster_laws::lemma_block_size(config.num_experts as int, groups, block);
}

/// Stopping a worker lets go everything that waits for its round, and changes nothing of the
/// worker but that it no longer runs.
pub proof fn law_stopping_lets_waiters_go()
    ensures
        forall|worker: &mut WorkerState, signal: StopSignal| #[trigger]
            call_ensures(WorkerState::stop, (worker,), signal) ==> {
                &&& signal.epoch == (*worker).epoch
                &&& signal.tx_ready
                &&& (*final(worker)).stopped
                &&& (*final(worker)).epoch == (*worker).epoch
                &&& (*final(worker)).counters == (*worker).counters
                &&& (*final(worker)).slot_idx == (*worker).slot_idx
                &&& (*final(worker)).config == (*worker).config
            },
        forall|worker: WorkerState, running: bool| #[trigger]
            call_ensures(WorkerState::is_running, (&worker,), running) ==> running
                == !worker.stopped,
{
}

/// A worker has failed just where any transfer has.
pub proof fn law_any_error_is_a_failure(worker: WorkerState, errors: i64, failed: bool)
    requires
        call_ensures(WorkerState::failed, (&worker, errors), failed),
    ensures
        !failed <==> errors == 0,
{
}

/// Parameters are accepted just where there is a group, the private buffers have a size, and
/// every message of every slot has an immediate value.
pub proof fn law_creatable_contexts_fit(
    config: ContextConfig,
    num_slots: usize,
    imm_base: u32,
    creatable: bool,
)
    requires
        call_ensures(AllToAllContext::check_creatable, (&config, num_slots, imm_base), creatable),
    ensures
        creatable <==> {
            let slots = if num_slots == 0 {
                1
            } else {
                num_slots as int
            };
            &&& 0 < config.dp_size <= config.world_size
            &&& 4 * config.num_experts <= usize::MAX
            &&& 4 * (config.max_num_tokens * config.num_experts_per_token) <= usize::MAX
            &&& imm_base + 5 * slots <= 0x1_0000_0000
        },
{
}

/// A worker tells the round that it is in.
pub proof fn law_epoch_is_told(worker: WorkerState, epoch: u32)
    requires
        call_ensures(WorkerState::epoch, (&worker,), epoch),
    ensures
        epoch == worker.epoch,
{
}

} // verus!
