//! The all-to-all context: what each call may do, and what it hands to the kernels.

use vstd::prelude::*;
use crate::arith::{align_up, ceil_div, lemma_ceil_div, min_usize};
use crate::cluster::Cluster;
use crate::config::{lemma_has_groups, ContextConfig};
use crate::counters::{sum_counters, sums_fit, AllToAllPerfStats, WorkerCounters};
use crate::handles::{
    ContextError, DispatchHandleState, HandlePhase, HandleTable, Kernel, SlotGenerationState,
};
use crate::limits::{block_total, check_plan, wide_product};
use crate::receive_plan::runs_match;
use crate::route_layout::{compute_low_latency_route_layout_plan, LowLatencyRouteLayoutPlan};
use crate::routing::{table, RouteTable};
use crate::slot_pool::{SlotClaim, SlotPool};
use crate::traffic::{lemma_block, lemma_valid_sizes};
use crate::worker::{flat_table, WorkerState, IMMEDIATES_PER_SLOT};
use crate::workspace::{
    add_workspace_tensor, aligned, checked_align, checked_tensor_end, extent_product,
    tensor_bytes, tensor_fits, tensors_match, workspace_end, workspace_fits, DeviceWorkspace,
    LowLatencyWorkspaceLayout, LowLatencyWorkspaceTensorSpec, TensorRequest,
    LOW_LATENCY_WORKSPACE_ALIGNMENT, WORD_BYTES,
};

verus! {

/// The buffers that a context is made with: how many there are of each kind, and the addresses
/// that ranks of the node gave for each slot.
#[derive(Debug)]
pub struct ContextBuffers {
    pub num_routed_ptrs: usize,
    pub num_routed_mrs: usize,
    pub send_buffer_ptrs: usize,
    pub send_buffer_mrs: usize,
    pub recv_buffer_ptrs: usize,
    pub recv_buffer_mrs: usize,
    pub rank_handles: usize,
    pub sync_ptrs: Vec<Vec<u64>>,
    pub send_ptrs: Vec<Vec<u64>>,
    pub recv_ptrs: Vec<Vec<u64>>,
    pub node_route_count_ptrs: Vec<Vec<u64>>,
    pub node_route_epoch_ptrs: Vec<Vec<u64>>,
}

impl ContextBuffers {
    /// What is wrong with the number of buffers, if anything: the first of the kinds of which
    /// there are not as many as slots.
    pub open spec fn mismatch(self, num_slots: usize) -> Option<ContextError> {
        if self.num_routed_ptrs != num_slots || self.num_routed_mrs != num_slots {
            Some(
                ContextError::RoutedBuffers {
                    expected: num_slots,
                    ptrs: self.num_routed_ptrs,
                    mrs: self.num_routed_mrs,
                },
            )
        } else if self.send_buffer_ptrs != num_slots || self.send_buffer_mrs != num_slots
            || self.recv_buffer_ptrs != num_slots || self.recv_buffer_mrs != num_slots {
            Some(
                ContextError::PayloadBuffers {
                    expected: num_slots,
                    send_ptrs: self.send_buffer_ptrs,
                    send_mrs: self.send_buffer_mrs,
                    recv_ptrs: self.recv_buffer_ptrs,
                    recv_mrs: self.recv_buffer_mrs,
                },
            )
        } else if self.rank_handles != num_slots {
            Some(ContextError::RankHandleSets { expected: num_slots, got: self.rank_handles })
        } else if self.sync_ptrs@.len() != num_slots || self.send_ptrs@.len() != num_slots
            || self.recv_ptrs@.len() != num_slots {
            Some(
                ContextError::NvlinkPointerSets {
                    expected: num_slots,
                    sync: self.sync_ptrs@.len() as usize,
                    send: self.send_ptrs@.len() as usize,
                    recv: self.recv_ptrs@.len() as usize,
                },
            )
        } else if self.node_route_count_ptrs@.len() != num_slots
            || self.node_route_epoch_ptrs@.len() != num_slots {
            Some(
                ContextError::NodeRoutePointerSets {
                    expected: num_slots,
                    counts: self.node_route_count_ptrs@.len() as usize,
                    epochs: self.node_route_epoch_ptrs@.len() as usize,
                },
            )
        } else {
            None
        }
    }

    /// Checks that there are as many buffers of each kind as slots.
    pub fn check(&self, num_slots: usize) -> (mismatch: Option<ContextError>)
        ensures
            mismatch == self.mismatch(num_slots),
    {
        if self.num_routed_ptrs != num_slots || self.num_routed_mrs != num_slots {
            return Some(
                ContextError::RoutedBuffers {
                    expected: num_slots,
                    ptrs: self.num_routed_ptrs,
                    mrs: self.num_routed_mrs,
                },
            );
        }
        if self.send_buffer_ptrs != num_slots || self.send_buffer_mrs != num_slots
            || self.recv_buffer_ptrs != num_slots || self.recv_buffer_mrs != num_slots {
            return Some(
                ContextError::PayloadBuffers {
                    expected: num_slots,
                    send_ptrs: self.send_buffer_ptrs,
                    send_mrs: self.send_buffer_mrs,
                    recv_ptrs: self.recv_buffer_ptrs,
                    recv_mrs: self.recv_buffer_mrs,
                },
            );
        }
        if self.rank_handles != num_slots {
            return Some(
                ContextError::RankHandleSets { expected: num_slots, got: self.rank_handles },
            );
        }
        if self.sync_ptrs.len() != num_slots || self.send_ptrs.len() != num_slots
            || self.recv_ptrs.len() != num_slots {
            return Some(
                ContextError::NvlinkPointerSets {
                    expected: num_slots,
                    sync: self.sync_ptrs.len(),
                    send: self.send_ptrs.len(),
                    recv: self.recv_ptrs.len(),
                },
            );
        }
        if self.node_route_count_ptrs.len() != num_slots || self.node_route_epoch_ptrs.len()
            != num_slots {
            return Some(
                ContextError::NodeRoutePointerSets {
                    expected: num_slots,
                    counts: self.node_route_count_ptrs.len(),
                    epochs: self.node_route_epoch_ptrs.len(),
                },
            );
        }
        None
    }
}

/// Checks that a rank gave one descriptor of each kind per slot.
pub fn check_rank_descriptors(num_slots: usize, num_routed_descs: usize, recv_buffer_descs: usize)
    -> (mismatch: Option<ContextError>)
    ensures
        mismatch == if num_routed_descs != slot_count(num_slots) {
            Some(
                ContextError::RoutedDescriptors {
                    expected: slot_count(num_slots),
                    got: num_routed_descs,
                },
            )
        } else if recv_buffer_descs != slot_count(num_slots) {
            Some(
                ContextError::RecvDescriptors {
                    expected: slot_count(num_slots),
                    got: recv_buffer_descs,
                },
            )
        } else {
            None
        },
{
    let expected: usize = at_least_one(num_slots);
    if num_routed_descs != expected {
        return Some(ContextError::RoutedDescriptors { expected, got: num_routed_descs });
    }
    if recv_buffer_descs != expected {
        return Some(ContextError::RecvDescriptors { expected, got: recv_buffer_descs });
    }
    None
}

/// The number of slots of a context: at least one.
pub open spec fn slot_count(num_slots: usize) -> usize {
    if num_slots >= 1 {
        num_slots
    } else {
        1
    }
}

/// The number of slots of a context.
fn at_least_one(num_slots: usize) -> (count: usize)
    ensures
        count == slot_count(num_slots),
{
    if num_slots >= 1 {
        num_slots
    } else {
        1
    }
}

/// Addresses as machine words.
pub open spec fn addresses(ptrs: Seq<u64>) -> Seq<usize> {
    Seq::new(ptrs.len(), |i: int| ptrs[i] as usize)
}

/// Turns addresses into machine words.
fn to_addresses(ptrs: &Vec<u64>) -> (words: Vec<usize>)
    ensures
        words@ == addresses(ptrs@),
{
    let mut words: Vec<usize> = Vec::new();
    let mut i: usize = 0;
    while i < ptrs.len()
        invariant
            i <= ptrs@.len(),
            words@ == addresses(ptrs@.take(i as int)),
        decreases ptrs@.len() - i,
    {
        words.push(ptrs[i] as usize);
        i = i + 1;
        proof {
            assert(words@ =~= addresses(ptrs@.take(i as int)));
        }
    }
    proof {
        assert(ptrs@.take(i as int) =~= ptrs@);
    }
    words
}

/// What came of a kernel launch.
#[derive(Debug, Clone, Copy, PartialEq, Eq, Structural)]
pub enum LaunchOutcome {
    /// The kernel could not be launched.
    Failed,
    /// The kernel was launched, and this many transfers had failed by then.
    Launched { transfer_errors: i64 },
}

/// What the dispatch-send kernel is launched with.
#[derive(Debug, Clone, Copy, PartialEq, Eq, Structural)]
pub struct DispatchSendLaunch {
    pub slot: usize,
    pub num_blocks: usize,
    pub hidden_dim: usize,
    pub hidden_dim_scale: usize,
    pub num_experts: usize,
    pub num_experts_per_token: usize,
    pub max_private_tokens: usize,
    pub rank: usize,
    pub dp_size: usize,
    pub node_size: usize,
    pub world_size: usize,
    pub num_tokens: usize,
    pub in_elemsize: usize,
    pub scale_elemsize: usize,
}

/// What the dispatch-receive kernel is launched with.
#[derive(Debug, Clone, Copy, PartialEq, Eq, Structural)]
pub struct DispatchRecvLaunch {
    pub num_blocks: usize,
    pub hidden_dim: usize,
    pub hidden_dim_scale: usize,
    pub in_elemsize: usize,
    pub scale_elemsize: usize,
    pub num_experts: usize,
    pub rank: usize,
    pub dp_size: usize,
    pub node_size: usize,
    pub world_size: usize,
}

/// What the combine-send kernel is launched with.
#[derive(Debug, Clone, Copy, PartialEq, Eq, Structural)]
pub struct CombineSendLaunch {
    pub num_blocks: usize,
    pub hidden_dim: usize,
    pub out_elemsize: usize,
    pub rank: usize,
    pub node_size: usize,
    pub dp_size: usize,
}

/// What the combine-receive kernel is launched with.
#[derive(Debug, Clone, Copy, PartialEq, Eq, Structural)]
pub struct CombineRecvLaunch {
    pub num_blocks: usize,
    pub hidden_dim: usize,
    pub out_elemsize: usize,
    pub num_experts: usize,
    pub num_experts_per_token: usize,
    pub rank: usize,
    pub node_size: usize,
    pub world_size: usize,
    pub num_tokens: usize,
    pub num_recv_tokens: usize,
    pub max_recv_tokens: usize,
}

/// The state of a context.
pub struct AllToAllContext {
    /// The parameters that it was made with.
    pub config: ContextConfig,
    /// The number of blocks to launch kernels with.
    pub num_blocks: usize,
    /// Which slots are in use.
    pub slot_pool: SlotPool,
    /// What each slot is in the middle of.
    pub handles: HandleTable,
    /// Whether route counts are exchanged within the node.
    pub node_route_exchange: bool,
}

/// What a context and its slots start with.
pub struct ContextParts {
    pub context: AllToAllContext,
    /// The device buffers of each slot.
    pub workspaces: Vec<DeviceWorkspace>,
    /// The worker of each slot.
    pub workers: Vec<WorkerState>,
}

/// What the launch of a kernel amounts to, if not success.
pub open spec fn launch_error(outcome: LaunchOutcome, kernel: Kernel, slot: usize) -> Option<
    ContextError,
> {
    match outcome {
        LaunchOutcome::Failed => Some(ContextError::KernelFailed { kernel, slot }),
        LaunchOutcome::Launched { transfer_errors } => if transfer_errors != 0 {
            Some(ContextError::TransferFailed { kernel, slot })
        } else {
            None
        },
    }
}

/// Looks at what came of a kernel launch.
fn check_launch(outcome: LaunchOutcome, kernel: Kernel, slot: usize) -> (error: Option<
    ContextError,
>)
    ensures
        error == launch_error(outcome, kernel, slot),
{
    match outcome {
        LaunchOutcome::Failed => Some(ContextError::KernelFailed { kernel, slot }),
        LaunchOutcome::Launched { transfer_errors } => if transfer_errors != 0 {
            Some(ContextError::TransferFailed { kernel, slot })
        } else {
            None
        },
    }
}

impl AllToAllContext {
    /// There is a slot state for every slot, and at least one slot.
    pub open spec fn wf(self) -> bool {
        &&& self.slot_pool.wf()
        &&& self.slot_pool.used().len() == self.handles.slot_states@.len()
        &&& self.handles.slot_states@.len() >= 1
    }

    /// What dispatch-send is launched with.
    pub open spec fn send_launch(self, slot: usize, num_tokens: usize) -> DispatchSendLaunch {
        DispatchSendLaunch {
            slot,
            num_blocks: self.num_blocks,
            hidden_dim: self.config.hidden_dim,
            hidden_dim_scale: self.config.hidden_dim_scale,
            num_experts: self.config.num_experts,
            num_experts_per_token: self.config.num_experts_per_token,
            max_private_tokens: self.config.max_private_tokens,
            rank: self.config.rank,
            dp_size: self.config.dp_size,
            node_size: self.config.node_size,
            world_size: self.config.world_size,
            num_tokens,
            in_elemsize: self.config.in_elemsize,
            scale_elemsize: self.config.scale_elemsize,
        }
    }

    /// Whether the parameters allow for a context with this many slots.
    pub open spec fn creatable(config: ContextConfig, num_slots: usize, imm_base: u32) -> bool {
        &&& config.has_groups()
        &&& config.num_experts * WORD_BYTES <= usize::MAX
        &&& config.max_num_tokens * config.num_experts_per_token * WORD_BYTES <= usize::MAX
        &&& imm_base + slot_count(num_slots) * IMMEDIATES_PER_SLOT <= u32::MAX + 1
    }

    /// Checks that the parameters allow for a context with this many slots.
    pub fn check_creatable(config: &ContextConfig, num_slots: usize, imm_base: u32) -> (creatable:
        bool)
        ensures
            creatable == Self::creatable(*config, num_slots, imm_base),
    {
        let slots: u128 = at_least_one(num_slots) as u128;
        let routed: u128 = wide_product(
            config.max_num_tokens as u64,
            config.num_experts_per_token as u64,
        );
        let immediates: u128 = slots * IMMEDIATES_PER_SLOT as u128;
        0 < config.dp_size && config.dp_size <= config.world_size && config.num_experts as u128
            * WORD_BYTES as u128 <= usize::MAX as u128 && routed <= usize::MAX as u128 && routed
            * WORD_BYTES as u128 <= usize::MAX as u128 && imm_base as u128 + immediates
            <= u32::MAX as u128 + 1
    }

    /// Makes a context, with the device buffers and the worker of each slot.
    pub fn new(
        config: ContextConfig,
        buffers: &ContextBuffers,
        imm_base: u32,
        num_slots: usize,
        num_blocks: usize,
    ) -> (made: Result<ContextParts, ContextError>)
        requires
            buffers.mismatch(slot_count(num_slots)) is None ==> Self::creatable(
                config,
                num_slots,
                imm_base,
            ),
        ensures
            match made {
                Err(error) => buffers.mismatch(slot_count(num_slots)) == Some(error),
                Ok(parts) => {
                    let slots = slot_count(num_slots);
                    &&& buffers.mismatch(slots) is None
                    &&& parts.context.wf()
                    &&& parts.context.config == config
                    &&& parts.context.num_blocks == num_blocks
                    &&& parts.context.slot_pool.used() == Seq::new(slots as nat, |s: int| false)
                    &&& parts.context.slot_pool.free() == Seq::new(
                        slots as nat,
                        |s: int| s as usize,
                    )
                    &&& parts.context.handles.next_generation == 1
                    &&& parts.context.handles.fresh()
                    &&& parts.context.handles.slot_states@ == Seq::new(
                        slots as nat,
                        |s: int| SlotGenerationState::Idle,
                    )
                    &&& parts.context.node_route_exchange == parts.workers@[0].node_exchange()
                    &&& parts.workspaces@.len() == slots
                    &&& forall|s: int|
                        0 <= s < slots ==> (#[trigger] parts.workspaces@[s]).made_for(
                            config.num_experts as int,
                            config.max_num_tokens as int,
                            config.num_experts_per_token as int,
                            buffers.sync_ptrs@[s]@,
                            buffers.send_ptrs@[s]@,
                            buffers.recv_ptrs@[s]@,
                        )
                    &&& parts.workers@.len() == slots
                    &&& forall|s: int|
                        0 <= s < slots ==> {
                            let worker = #[trigger] parts.workers@[s];
                            &&& worker.wf()
                            &&& worker.slot_idx == s
                            &&& worker.config == config
                            &&& worker.route_imm == imm_base + s * IMMEDIATES_PER_SLOT
                            &&& worker.dispatch_imm == worker.route_imm + 1
                            &&& worker.combine_imm == worker.route_imm + 2
                            &&& worker.dispatch_barrier_imm == worker.route_imm + 3
                            &&& worker.combine_barrier_imm == worker.route_imm + 4
                            &&& worker.node_route_count_ptrs@ == addresses(
                                buffers.node_route_count_ptrs@[s]@,
                            )
                            &&& worker.node_route_epoch_ptrs@ == addresses(
                                buffers.node_route_epoch_ptrs@[s]@,
                            )
                            &&& !worker.stopped
                            &&& worker.epoch == 1
                            &&& worker.counters.at_zero(config.world_size as int)
                        }
                },
            },
    {
        let num_slots: usize = at_least_one(num_slots);
        if let Some(error) = buffers.check(num_slots) {
            return Err(error);
        }
        let mut workspaces: Vec<DeviceWorkspace> = Vec::new();
        let mut workers: Vec<WorkerState> = Vec::new();
        let mut slot_idx: usize = 0;
        while slot_idx < num_slots
            invariant
                slot_idx <= num_slots,
                slot_count(num_slots) == num_slots,
                Self::creatable(config, num_slots, imm_base),
                buffers.mismatch(num_slots) is None,
                workspaces@.len() == slot_idx,
                forall|s: int|
                    0 <= s < slot_idx ==> (#[trigger] workspaces@[s]).made_for(
                        config.num_experts as int,
                        config.max_num_tokens as int,
                        config.num_experts_per_token as int,
                        buffers.sync_ptrs@[s]@,
                        buffers.send_ptrs@[s]@,
                        buffers.recv_ptrs@[s]@,
                    ),
                workers@.len() == slot_idx,
                forall|s: int|
                    0 <= s < slot_idx ==> {
                        let worker = #[trigger] workers@[s];
                        &&& worker.wf()
                        &&& worker.slot_idx == s
                        &&& worker.config == config
                        &&& worker.route_imm == imm_base + s * IMMEDIATES_PER_SLOT
                        &&& worker.dispatch_imm == worker.route_imm + 1
                        &&& worker.combine_imm == worker.route_imm + 2
                        &&& worker.dispatch_barrier_imm == worker.route_imm + 3
                        &&& worker.combine_barrier_imm == worker.route_imm + 4
                        &&& worker.node_route_count_ptrs@ == addresses(
                            buffers.node_route_count_ptrs@[s]@,
                        )
                        &&& worker.node_route_epoch_ptrs@ == addresses(
                            buffers.node_route_epoch_ptrs@[s]@,
                        )
                        &&& !worker.stopped
                        &&& worker.epoch == 1
                        &&& worker.counters.at_zero(config.world_size as int)
                    },
            decreases num_slots - slot_idx,
        {
            workspaces.push(
                DeviceWorkspace::new(
                    config.num_experts,
                    config.max_num_tokens,
                    config.num_experts_per_token,
                    buffers.sync_ptrs[slot_idx].as_slice(),
                    buffers.send_ptrs[slot_idx].as_slice(),
                    buffers.recv_ptrs[slot_idx].as_slice(),
                ),
            );
            let slot_imm_base: u32 = imm_base + slot_idx as u32 * IMMEDIATES_PER_SLOT;
            workers.push(
                WorkerState::new(
                    slot_idx,
                    config,
                    to_addresses(&buffers.node_route_count_ptrs[slot_idx]),
                    to_addresses(&buffers.node_route_epoch_ptrs[slot_idx]),
                    slot_imm_base,
                ),
            );
            slot_idx = slot_idx + 1;
        }
        let node_route_exchange: bool = workers[0].has_node_route_exchange();
        let context = AllToAllContext {
            config,
            num_blocks,
            slot_pool: SlotPool::new(num_slots),
            handles: HandleTable::new(num_slots),
            node_route_exchange,
        };
        Ok(ContextParts { context, workspaces, workers })
    }

    /// Reserves a slot for a dispatch. Without a free slot, the caller waits for one and tries
    /// again.
    pub fn dispatch_send(&mut self, num_tokens: usize) -> (launch: Result<
        Option<DispatchSendLaunch>,
        ContextError,
    >)
        requires
            old(self).wf(),
        ensures
            final(self).wf(),
            final(self).config == old(self).config,
            final(self).num_blocks == old(self).num_blocks,
            final(self).handles == old(self).handles,
            final(self).node_route_exchange == old(self).node_route_exchange,
            launch == if num_tokens > old(self).config.max_num_tokens {
                Err::<Option<DispatchSendLaunch>, ContextError>(ContextError::TooManyTokens)
            } else if old(self).slot_pool.free().len() == 0 {
                Ok(None)
            } else {
                Ok(Some(old(self).send_launch(old(self).slot_pool.free()[0], num_tokens)))
            },
            match launch {
                Ok(Some(reserved)) => {
                    &&& final(self).slot_pool.free() == old(self).slot_pool.free().drop_first()
                    &&& final(self).slot_pool.used() == old(self).slot_pool.used().update(
                        reserved.slot as int,
                        true,
                    )
                },
                _ => {
                    &&& final(self).slot_pool.free() == old(self).slot_pool.free()
                    &&& final(self).slot_pool.used() == old(self).slot_pool.used()
                },
            },
    {
        if num_tokens > self.config.max_num_tokens {
            return Err(ContextError::TooManyTokens);
        }
        match self.slot_pool.try_acquire() {
            Some(slot) => Ok(Some(self.dispatch_send_on_reserved_slot(slot, num_tokens))),
            None => Ok(None),
        }
    }

    /// Reserves a particular slot for a dispatch. While it is in use, the caller waits for it
    /// and tries again.
    pub fn dispatch_send_on_slot(&mut self, slot: usize, num_tokens: usize) -> (launch: Result<
        Option<DispatchSendLaunch>,
        ContextError,
    >)
        requires
            old(self).wf(),
        ensures
            final(self).wf(),
            final(self).config == old(self).config,
            final(self).num_blocks == old(self).num_blocks,
            final(self).handles == old(self).handles,
            final(self).node_route_exchange == old(self).node_route_exchange,
            launch == if num_tokens > old(self).config.max_num_tokens {
                Err::<Option<DispatchSendLaunch>, ContextError>(ContextError::TooManyTokens)
            } else if slot >= old(self).slot_pool.used().len() {
                Err(ContextError::SlotUnavailable { slot })
            } else if old(self).slot_pool.used()[slot as int] {
                Ok(None)
            } else {
                Ok(Some(old(self).send_launch(slot, num_tokens)))
            },
            match launch {
                Ok(Some(_)) => {
                    &&& old(self).slot_pool.free().contains(slot)
                    &&& final(self).slot_pool.free() == old(self).slot_pool.free().remove(
                        old(self).slot_pool.free().index_of(slot),
                    )
                    &&& final(self).slot_pool.used() == old(self).slot_pool.used().update(
                        slot as int,
                        true,
                    )
                },
                _ => {
                    &&& final(self).slot_pool.free() == old(self).slot_pool.free()
                    &&& final(self).slot_pool.used() == old(self).slot_pool.used()
                },
            },
    {
        if num_tokens > self.config.max_num_tokens {
            return Err(ContextError::TooManyTokens);
        }
        match self.slot_pool.try_acquire_specific(slot) {
            SlotClaim::Acquired => Ok(Some(self.dispatch_send_on_reserved_slot(slot, num_tokens))),
            SlotClaim::Busy => Ok(None),
            SlotClaim::Missing => Err(ContextError::SlotUnavailable { slot }),
        }
    }

    /// What dispatch-send is launched with on a slot that was reserved for it.
    fn dispatch_send_on_reserved_slot(&self, slot: usize, num_tokens: usize) -> (launch:
        DispatchSendLaunch)
        ensures
            launch == self.send_launch(slot, num_tokens),
    {
        DispatchSendLaunch {
            slot,
            num_blocks: self.num_blocks,
            hidden_dim: self.config.hidden_dim,
            hidden_dim_scale: self.config.hidden_dim_scale,
            num_experts: self.config.num_experts,
            num_experts_per_token: self.config.num_experts_per_token,
            max_private_tokens: self.config.max_private_tokens,
            rank: self.config.rank,
            dp_size: self.config.dp_size,
            node_size: self.config.node_size,
            world_size: self.config.world_size,
            num_tokens,
            in_elemsize: self.config.in_elemsize,
            scale_elemsize: self.config.scale_elemsize,
        }
    }

    /// Goes on with a dispatch, given what came of the launch of dispatch-send. After a failure
    /// there is no handle, and the slot stays reserved.
    pub fn dispatch_sent(&mut self, slot: usize, num_tokens: usize, outcome: LaunchOutcome) -> (
    handle: Result<DispatchHandleState, ContextError>)
        requires
            old(self).wf(),
        ensures
            final(self).wf(),
            *final(self) == (AllToAllContext { handles: final(self).handles, ..*old(self) }),
            old(self).handles.fresh() && old(self).handles.next_generation < u64::MAX
                ==> final(self).handles.fresh(),
            match launch_error(outcome, Kernel::DispatchSend, slot) {
                Some(error) => {
                    &&& handle == Err::<DispatchHandleState, ContextError>(error)
                    &&& final(self).handles == old(self).handles
                },
                None => {
                    let states = old(self).handles.slot_states@;
                    let generation = old(self).handles.next_generation;
                    &&& final(self).handles.next_generation == crate::handles::next_generation(
                        generation,
                    )
                    &&& handle == if slot >= states.len() {
                        Err(ContextError::InvalidSlot { slot })
                    } else if states[slot as int] != SlotGenerationState::Idle {
                        Err(ContextError::NotIdle { slot, found: states[slot as int] })
                    } else {
                        Ok(DispatchHandleState { slot, generation })
                    }
                    &&& final(self).handles.slot_states@ == if handle is Ok {
                        crate::handles::sent(states, slot as int, generation, num_tokens)
                    } else {
                        states
                    }
                },
            },
    {
        match check_launch(outcome, Kernel::DispatchSend, slot) {
            Some(error) => Err(error),
            None => self.handles.begin_dispatch_handle(slot, num_tokens),
        }
    }

    /// Checks a handle for dispatch-receive, and gives what the kernel is launched with.
    pub fn dispatch_recv(&self, slot: usize, generation: u64) -> (launch: Result<
        DispatchRecvLaunch,
        ContextError,
    >)
        ensures
            launch == if slot >= self.handles.slot_states@.len() {
                Err::<DispatchRecvLaunch, ContextError>(ContextError::InvalidSlot { slot })
            } else if !self.handles.slot_states@[slot as int].is_in(
                HandlePhase::DispatchSent,
                generation,
            ) {
                Err(
                    ContextError::StaleHandle {
                        slot,
                        generation,
                        expected: HandlePhase::DispatchSent,
                        found: self.handles.slot_states@[slot as int],
                    },
                )
            } else {
                Ok(
                    DispatchRecvLaunch {
                        num_blocks: self.num_blocks,
                        hidden_dim: self.config.hidden_dim,
                        hidden_dim_scale: self.config.hidden_dim_scale,
                        in_elemsize: self.config.in_elemsize,
                        scale_elemsize: self.config.scale_elemsize,
                        num_experts: self.config.num_experts,
                        rank: self.config.rank,
                        dp_size: self.config.dp_size,
                        node_size: self.config.node_size,
                        world_size: self.config.world_size,
                    },
                )
            },
    {
        match self.handles.validate_dispatch_handle(slot, generation, HandlePhase::DispatchSent) {
            Err(error) => Err(error),
            Ok(_) => Ok(
                DispatchRecvLaunch {
                    num_blocks: self.num_blocks,
                    hidden_dim: self.config.hidden_dim,
                    hidden_dim_scale: self.config.hidden_dim_scale,
                    in_elemsize: self.config.in_elemsize,
                    scale_elemsize: self.config.scale_elemsize,
                    num_experts: self.config.num_experts,
                    rank: self.config.rank,
                    dp_size: self.config.dp_size,
                    node_size: self.config.node_size,
                    world_size: self.config.world_size,
                },
            ),
        }
    }

    /// Goes on with a dispatch, given what came of the launch of dispatch-receive.
    pub fn dispatch_received(&mut self, slot: usize, generation: u64, outcome: LaunchOutcome) -> (
    result: Result<(), ContextError>)
        requires
            old(self).wf(),
        ensures
            final(self).wf(),
            *final(self) == (AllToAllContext { handles: final(self).handles, ..*old(self) }),
            final(self).handles.next_generation == old(self).handles.next_generation,
            old(self).handles.fresh() ==> final(self).handles.fresh(),
            ({
                let states = old(self).handles.slot_states@;
                &&& result == match launch_error(outcome, Kernel::DispatchRecv, slot) {
                    Some(error) => Err::<(), ContextError>(error),
                    None => if slot >= states.len() {
                        Err(ContextError::InvalidSlot { slot })
                    } else if !states[slot as int].is_in(HandlePhase::DispatchSent, generation) {
                        Err(
                            ContextError::StaleDispatchRecv {
                                slot,
                                generation,
                                found: states[slot as int],
                            },
                        )
                    } else {
                        Ok(())
                    },
                }
                &&& final(self).handles.slot_states@ == if result is Ok {
                    states.update(
                        slot as int,
                        SlotGenerationState::DispatchReceived {
                            generation,
                            num_tokens: states[slot as int].tokens(),
                        },
                    )
                } else {
                    states
                }
            }),
    {
        match check_launch(outcome, Kernel::DispatchRecv, slot) {
            Some(error) => Err(error),
            None => self.handles.transition_dispatch_received(slot, generation),
        }
    }

    /// Checks a handle for combine-send, and gives what the kernel is launched with.
    pub fn combine_send(&self, slot: usize, generation: u64) -> (launch: Result<
        CombineSendLaunch,
        ContextError,
    >)
        ensures
            launch == if slot >= self.handles.slot_states@.len() {
                Err::<CombineSendLaunch, ContextError>(ContextError::InvalidSlot { slot })
            } else if !self.handles.slot_states@[slot as int].is_in(
                HandlePhase::DispatchReceived,
                generation,
            ) {
                Err(
                    ContextError::StaleHandle {
                        slot,
                        generation,
                        expected: HandlePhase::DispatchReceived,
                        found: self.handles.slot_states@[slot as int],
                    },
                )
            } else {
                Ok(
                    CombineSendLaunch {
                        num_blocks: self.num_blocks,
                        hidden_dim: self.config.hidden_dim,
                        out_elemsize: self.config.out_elemsize,
                        rank: self.config.rank,
                        node_size: self.config.node_size,
                        dp_size: self.config.dp_size,
                    },
                )
            },
    {
        match self.handles.validate_dispatch_handle(
            slot,
            generation,
            HandlePhase::DispatchReceived,
        ) {
            Err(error) => Err(error),
            Ok(_) => Ok(
                CombineSendLaunch {
                    num_blocks: self.num_blocks,
                    hidden_dim: self.config.hidden_dim,
                    out_elemsize: self.config.out_elemsize,
                    rank: self.config.rank,
                    node_size: self.config.node_size,
                    dp_size: self.config.dp_size,
                },
            ),
        }
    }

    /// Goes on with a dispatch, given what came of the launch of combine-send.
    pub fn combine_sent(&mut self, slot: usize, generation: u64, outcome: LaunchOutcome) -> (
    result: Result<(), ContextError>)
        requires
            old(self).wf(),
        ensures
            final(self).wf(),
            *final(self) == (AllToAllContext { handles: final(self).handles, ..*old(self) }),
            final(self).handles.next_generation == old(self).handles.next_generation,
            old(self).handles.fresh() ==> final(self).handles.fresh(),
            ({
                let states = old(self).handles.slot_states@;
                &&& result == match launch_error(outcome, Kernel::CombineSend, slot) {
                    Some(error) => Err::<(), ContextError>(error),
                    None => if slot >= states.len() {
                        Err(ContextError::InvalidSlot { slot })
                    } else if !states[slot as int].is_in(
                        HandlePhase::DispatchReceived,
                        generation,
                    ) {
                        Err(
                            ContextError::StaleCombineSend {
                                slot,
                                generation,
                                found: states[slot as int],
                            },
                        )
                    } else {
                        Ok(())
                    },
                }
                &&& final(self).handles.slot_states@ == if result is Ok {
                    states.update(
                        slot as int,
                        SlotGenerationState::CombineSent {
                            generation,
                            num_tokens: states[slot as int].tokens(),
                        },
                    )
                } else {
                    states
                }
            }),
    {
        match check_launch(outcome, Kernel::CombineSend, slot) {
            Some(error) => Err(error),
            None => self.handles.transition_combine_sent(slot, generation),
        }
    }

    /// Checks a handle and its number of tokens for combine-receive, and gives what the kernel is
    /// launched with.
    pub fn combine_recv(
        &self,
        slot: usize,
        generation: u64,
        num_tokens: usize,
        num_recv_tokens: usize,
    ) -> (launch: Result<CombineRecvLaunch, ContextError>)
        ensures
            launch == if slot >= self.handles.slot_states@.len() {
                Err::<CombineRecvLaunch, ContextError>(ContextError::InvalidSlot { slot })
            } else if !self.handles.slot_states@[slot as int].is_in(
                HandlePhase::CombineSent,
                generation,
            ) {
                Err(
                    ContextError::StaleHandle {
                        slot,
                        generation,
                        expected: HandlePhase::CombineSent,
                        found: self.handles.slot_states@[slot as int],
                    },
                )
            } else if self.handles.slot_states@[slot as int].tokens() != num_tokens {
                Err(
                    ContextError::TokenCountMismatch {
                        slot,
                        expected: self.handles.slot_states@[slot as int].tokens(),
                        got: num_tokens,
                    },
                )
            } else {
                Ok(
                    CombineRecvLaunch {
                        num_blocks: self.num_blocks,
                        hidden_dim: self.config.hidden_dim,
                        out_elemsize: self.config.out_elemsize,
                        num_experts: self.config.num_experts,
                        num_experts_per_token: self.config.num_experts_per_token,
                        rank: self.config.rank,
                        node_size: self.config.node_size,
                        world_size: self.config.world_size,
                        num_tokens,
                        num_recv_tokens,
                        max_recv_tokens: self.config.max_recv_tokens,
                    },
                )
            },
    {
        match self.handles.validate_dispatch_handle(slot, generation, HandlePhase::CombineSent) {
            Err(error) => Err(error),
            Ok(expected) => {
                if expected != num_tokens {
                    return Err(
                        ContextError::TokenCountMismatch { slot, expected, got: num_tokens },
                    );
                }
                Ok(
                    CombineRecvLaunch {
                        num_blocks: self.num_blocks,
                        hidden_dim: self.config.hidden_dim,
                        out_elemsize: self.config.out_elemsize,
                        num_experts: self.config.num_experts,
                        num_experts_per_token: self.config.num_experts_per_token,
                        rank: self.config.rank,
                        node_size: self.config.node_size,
                        world_size: self.config.world_size,
                        num_tokens,
                        num_recv_tokens,
                        max_recv_tokens: self.config.max_recv_tokens,
                    },
                )
            },
        }
    }

    /// Ends a dispatch, given what came of the launch of combine-receive.
    pub fn combine_received(&mut self, slot: usize, generation: u64, outcome: LaunchOutcome) -> (
    result: Result<(), ContextError>)
        requires
            old(self).wf(),
        ensures
            final(self).wf(),
            *final(self) == (AllToAllContext { handles: final(self).handles, ..*old(self) }),
            final(self).handles.next_generation == old(self).handles.next_generation,
            old(self).handles.fresh() ==> final(self).handles.fresh(),
            ({
                let states = old(self).handles.slot_states@;
                &&& result == match launch_error(outcome, Kernel::CombineRecv, slot) {
                    Some(error) => Err::<(), ContextError>(error),
                    None => if slot >= states.len() {
                        Err(ContextError::InvalidSlot { slot })
                    } else if !states[slot as int].is_in(HandlePhase::CombineSent, generation) {
                        Err(
                            ContextError::StaleCombineRecv {
                                slot,
                                generation,
                                found: states[slot as int],
                            },
                        )
                    } else {
                        Ok(())
                    },
                }
                &&& final(self).handles.slot_states@ == if result is Ok {
                    states.update(slot as int, SlotGenerationState::Idle)
                } else {
                    states
                }
            }),
    {
        match check_launch(outcome, Kernel::CombineRecv, slot) {
            Some(error) => Err(error),
            None => self.handles.release_handle(slot, generation),
        }
    }

    /// Gives a slot back once its worker is done with it, and says whether a slot was freed.
    pub fn release_slot(&mut self, slot: usize) -> (freed: bool)
        requires
            old(self).wf(),
        ensures
            final(self).wf(),
            *final(self) == (AllToAllContext { slot_pool: final(self).slot_pool, ..*old(self) }),
            freed == (slot < old(self).slot_pool.used().len() && old(self).slot_pool.used()[
                slot as int]),
            crate::slot_pool::released(old(self).slot_pool, final(self).slot_pool, slot),
    {
        self.slot_pool.release(slot)
    }

    /// Adds up the counters of all workers.
    pub fn get_perf_stats(&self, workers: &Vec<WorkerCounters>) -> (stats: AllToAllPerfStats)
        requires
            sums_fit(workers@, self.config.world_size as int),
        ensures
            stats.sums(workers@, self.config.world_size as int),
    {
        sum_counters(workers, self.config.world_size)
    }

    /// The layout of the low-latency workspace: one tensor after another, each aligned.
    pub fn low_latency_workspace_layout(&self) -> (layout: LowLatencyWorkspaceLayout)
        requires
            self.config.has_groups(),
            workspace_fits(self.config.workspace_requests()),
        ensures
            layout.alignment == LOW_LATENCY_WORKSPACE_ALIGNMENT,
            tensors_match(layout.tensors@, self.config.workspace_requests()),
            layout.total_bytes == aligned(
                workspace_end(
                    self.config.workspace_requests(),
                    self.config.workspace_requests().len() as int,
                ),
            ),
    {
        let ghost requests = self.config.workspace_requests();
        let num_local_experts: usize = self.config.num_local_experts();
        let mut tensors: Vec<LowLatencyWorkspaceTensorSpec> = Vec::new();
        let mut total_bytes: usize = 0;
        proof {
            lemma_has_groups(self.config);
            lemma_requests(self.config);
        }
        let expert_shape: Vec<usize> = vec![num_local_experts];
        proof {
            assert(expert_shape@ =~= requests[0].shape);
        }
        add_requested_tensor(
            &mut tensors,
            &mut total_bytes,
            "expert_num_tokens",
            expert_shape,
            "int32",
            WORD_BYTES,
            Ghost(requests),
        );
        add_requested_tensor(
            &mut tensors,
            &mut total_bytes,
            "expert_x",
            vec![num_local_experts, self.config.max_tokens_per_expert, self.config.hidden_dim],
            "activation",
            self.config.in_elemsize,
            Ghost(requests),
        );
        add_requested_tensor(
            &mut tensors,
            &mut total_bytes,
            "indices",
            vec![self.config.max_num_tokens, self.config.num_experts_per_token],
            "uint32",
            WORD_BYTES,
            Ghost(requests),
        );
        add_requested_tensor(
            &mut tensors,
            &mut total_bytes,
            "weights",
            vec![self.config.max_num_tokens, self.config.num_experts_per_token],
            "float32",
            WORD_BYTES,
            Ghost(requests),
        );
        add_requested_tensor(
            &mut tensors,
            &mut total_bytes,
            "dp_x",
            vec![self.config.max_num_tokens, self.config.hidden_dim],
            "activation",
            self.config.in_elemsize,
            Ghost(requests),
        );
        if self.config.scale_elemsize != 0 {
            add_requested_tensor(
                &mut tensors,
                &mut total_bytes,
                "expert_x_scale",
                vec![num_local_experts, self.config.max_tokens_per_expert, self.config.hidden_dim_scale],
                "scale",
                self.config.scale_elemsize,
                Ghost(requests),
            );
            add_requested_tensor(
                &mut tensors,
                &mut total_bytes,
                "dp_x_scale",
                vec![self.config.max_num_tokens, self.config.hidden_dim_scale],
                "scale",
                self.config.scale_elemsize,
                Ghost(requests),
            );
        }
        proof {
            assert(requests.take(requests.len() as int) =~= requests);
        }
        LowLatencyWorkspaceLayout {
            alignment: LOW_LATENCY_WORKSPACE_ALIGNMENT,
            total_bytes: align_up(total_bytes, LOW_LATENCY_WORKSPACE_ALIGNMENT),
            tensors,
        }
    }

    /// Checks that the offsets and sizes of all tensors of the workspace fit.
    pub fn check_workspace(&self) -> (fits: bool)
        requires
            self.config.has_groups(),
        ensures
            fits == workspace_fits(self.config.workspace_requests()),
    {
        let config: &ContextConfig = &self.config;
        let ghost requests = config.workspace_requests();
        proof {
            lemma_has_groups(*config);
            lemma_requests(*config);
        }
        let experts: usize = config.num_local_experts();
        let mut shapes: Vec<Vec<usize>> = Vec::new();
        let mut sizes: Vec<usize> = Vec::new();
        shapes.push(vec![experts]);
        sizes.push(WORD_BYTES);
        shapes.push(vec![experts, config.max_tokens_per_expert, config.hidden_dim]);
        sizes.push(config.in_elemsize);
        shapes.push(vec![config.max_num_tokens, config.num_experts_per_token]);
        sizes.push(WORD_BYTES);
        shapes.push(vec![config.max_num_tokens, config.num_experts_per_token]);
        sizes.push(WORD_BYTES);
        shapes.push(vec![config.max_num_tokens, config.hidden_dim]);
        sizes.push(config.in_elemsize);
        if config.scale_elemsize != 0 {
            shapes.push(vec![experts, config.max_tokens_per_expert, config.hidden_dim_scale]);
            sizes.push(config.scale_elemsize);
            shapes.push(vec![config.max_num_tokens, config.hidden_dim_scale]);
            sizes.push(config.scale_elemsize);
        }
        proof {
            assert(shapes@.len() == requests.len());
            assert forall|i: int| 0 <= i < requests.len() implies (#[trigger] shapes@[i])@
                == requests[i].shape && sizes@[i] == requests[i].element_size by {
                assert(shapes@[i]@ =~= requests[i].shape);
            }
        }
        let mut end: usize = 0;
        let mut i: usize = 0;
        while i < shapes.len()
            invariant
                i <= shapes@.len(),
                requests == self.config.workspace_requests(),
                shapes@.len() == requests.len(),
                sizes@.len() == requests.len(),
                forall|j: int|
                    0 <= j < requests.len() ==> (#[trigger] shapes@[j])@ == requests[j].shape
                        && sizes@[j] == requests[j].element_size,
                end == workspace_end(requests, i as int),
                forall|j: int|
                    #![trigger requests[j]]
                    0 <= j < i ==> {
                        &&& 0 <= requests[j].element_size
                        &&& tensor_fits(requests[j].shape, requests[j].element_size)
                        &&& aligned(workspace_end(requests, j)) <= usize::MAX
                        &&& workspace_end(requests, j + 1) <= usize::MAX
                    },
            decreases shapes@.len() - i,
        {
            proof {
                assert(shapes@[i as int]@ == requests[i as int].shape);
                assert(sizes@[i as int] == requests[i as int].element_size);
            }
            match checked_tensor_end(end, &shapes[i], sizes[i]) {
                Some(after) => {
                    end = after;
                },
                None => {
                    proof {
                        let request = requests[i as int];
                        assert(workspace_end(requests, i + 1) == aligned(end as int)
                            + tensor_bytes(request.shape, request.element_size));
                    }
                    return false;
                },
            }
            i = i + 1;
        }
        checked_align(end).is_some()
    }

    /// What is wrong with the shape of a table of route counts, if anything: the number of rows,
    /// or the length of the first row that has a wrong one.
    pub open spec fn table_error(self, t: RouteTable) -> Option<ContextError> {
        let groups = self.config.world_size as int / self.config.dp_size as int;
        if t.len() != groups {
            Some(ContextError::RouteRows { expected: groups as usize, got: t.len() as usize })
        } else {
            row_error(t, self.config.num_experts, t.len() as int)
        }
    }

    /// The layout of the tokens that this rank would receive by a table of route counts.
    pub fn debug_low_latency_route_layout_plan(&self, num_routed: &Vec<Vec<u32>>) -> (plan: Result<
        LowLatencyRouteLayoutPlan,
        ContextError,
    >)
        requires
            self.config.has_groups(),
            self.table_error(table(num_routed)) is None ==> self.layout_plannable(
                table(num_routed),
            ),
        ensures
            match plan {
                Err(error) => self.table_error(table(num_routed)) == Some(error),
                Ok(plan) => {
                    &&& self.table_error(table(num_routed)) is None
                    &&& plan.matches(
                        self.config.cluster(),
                        table(num_routed),
                        self.config.expert_padding as int,
                        self.config.max_tokens_per_expert as int,
                    )
                    &&& runs_match(
                        self.config.cluster(),
                        table(num_routed),
                        plan.layout_range@,
                        self.config.cluster().source_order().len() as int,
                    )
                    &&& plan.source_token_index@.len() == 0
                },
            },
    {
        let num_ep_groups: usize = self.config.world_size / self.config.dp_size;
        if num_routed.len() != num_ep_groups {
            return Err(ContextError::RouteRows { expected: num_ep_groups, got: num_routed.len() });
        }
        let ghost t = table(num_routed);
        let mut source_group: usize = 0;
        while source_group < num_routed.len()
            invariant
                source_group <= num_routed@.len(),
                t == table(num_routed),
                num_routed@.len() == self.config.world_size as int / self.config.dp_size as int,
                row_error(t, self.config.num_experts, source_group as int) is None,
            decreases num_routed@.len() - source_group,
        {
            let got: usize = num_routed[source_group].len();
            if got != self.config.num_experts {
                let error = ContextError::ExpertCounts {
                    expected: self.config.num_experts,
                    source_group,
                    got,
                };
                proof {
                    assert(t[source_group as int].len() == got);
                    assert(row_error(t, self.config.num_experts, source_group + 1) == Some(error));
                    lemma_first_row_error(
                        t,
                        self.config.num_experts,
                        source_group + 1,
                        t.len() as int,
                    );
                }
                return Err(error);
            }
            source_group = source_group + 1;
        }
        proof {
            lemma_has_groups(self.config);
        }
        Ok(
            compute_low_latency_route_layout_plan(
                self.config.rank / self.config.dp_size,
                self.config.rank % self.config.dp_size,
                self.config.dp_size,
                self.config.node_size,
                self.config.world_size,
                self.config.num_experts,
                self.config.expert_padding,
                self.config.max_tokens_per_expert,
                self.config.max_private_tokens,
                1,
                num_routed,
            ),
        )
    }

    /// Checks that a table of route counts is either refused for its shape or can be laid out.
    pub fn check_route_layout(&self, num_routed: &Vec<Vec<u32>>) -> (fit: bool)
        requires
            self.config.has_groups(),
        ensures
            fit == (self.table_error(table(num_routed)) is Some || self.layout_plannable(
                table(num_routed),
            )),
    {
        let ghost t = table(num_routed);
        let ghost c = self.config.cluster();
        let num_ep_groups: usize = self.config.world_size / self.config.dp_size;
        if num_routed.len() != num_ep_groups {
            return true;
        }
        let mut source_group: usize = 0;
        while source_group < num_routed.len()
            invariant
                source_group <= num_routed@.len(),
                t == table(num_routed),
                num_routed@.len() == self.config.world_size as int / self.config.dp_size as int,
                forall|g: int|
                    0 <= g < source_group ==> (#[trigger] t[g]).len() == self.config.num_experts,
                row_error(t, self.config.num_experts, source_group as int) is None,
            decreases num_routed@.len() - source_group,
        {
            proof {
                assert(t[source_group as int] == num_routed@[source_group as int]@);
            }
            if num_routed[source_group].len() != self.config.num_experts {
                proof {
                    assert(row_error(t, self.config.num_experts, source_group + 1) is Some);
                    lemma_first_row_error(
                        t,
                        self.config.num_experts,
                        source_group + 1,
                        t.len() as int,
                    );
                }
                return true;
            }
            source_group = source_group + 1;
        }
        proof {
            lemma_has_groups(self.config);
        }
        if !check_plan(&self.config, num_routed, 1) {
            return false;
        }
        if self.config.dp_size as u32 != 0 {
            return true;
        }
        let cluster: Cluster = self.config.get_cluster();
        proof {
            lemma_valid_sizes(cluster);
            lemma_block(cluster, cluster.dp_group as int);
        }
        let experts_per_rank: usize = ceil_div(cluster.num_experts, num_ep_groups);
        let first_local: usize = cluster.dp_group * experts_per_rank;
        let last_local: usize = min_usize(first_local + experts_per_rank, cluster.num_experts);
        proof {
            assert forall|g: int| 0 <= g < num_ep_groups implies last_local <= (
            #[trigger] num_routed@[g])@.len() by {
                assert(t[g] == num_routed@[g]@);
            }
        }
        block_total(num_routed, num_ep_groups, first_local, last_local) == Some(0u64)
    }

    /// Whether the layout by a table of route counts can be computed.
    pub open spec fn layout_plannable(self, t: RouteTable) -> bool {
        &&& self.config.cluster().plannable(
            t,
            self.config.expert_padding as int,
            self.config.max_tokens_per_expert as int,
            self.config.max_private_tokens as int,
            1,
        )
        &&& self.config.cluster().received(t) > 0 ==> self.config.dp_size as u32 != 0
    }

    /// The layout of the tokens of a live dispatch: by the route counts of its slot, with the runs
    /// and the source indices that the device holds.
    pub fn debug_low_latency_route_layout_plan_for_handle(
        &self,
        slot: usize,
        generation: u64,
        counts: &Vec<u32>,
        device_layout_range: &Vec<u64>,
        device_source_token_index: &Vec<u32>,
    ) -> (plan: Result<LowLatencyRouteLayoutPlan, ContextError>)
        requires
            slot < self.handles.slot_states@.len() && self.handles.slot_states@[
                slot as int].is_live(generation) ==> {
                let c = self.config.cluster();
                let t = flat_table(counts@, c.groups(), self.config.num_experts as int);
                &&& self.config.has_groups()
                &&& c.groups() * self.config.num_experts <= counts@.len()
                &&& self.layout_plannable(t)
                &&& c.local_experts() * c.groups() <= device_layout_range@.len()
                &&& forall|p: int|
                    #![trigger c.arrivals(t)[p]]
                    0 <= p < c.received(t) ==> (if p < c.arrivals(t).len() {
                        c.output_row(
                            t,
                            self.config.expert_padding as int,
                            self.config.max_tokens_per_expert as int,
                            c.arrivals(t)[p],
                        )
                    } else {
                        0
                    }) < device_source_token_index@.len()
            },
        ensures
            match plan {
                Err(error) => if slot >= self.handles.slot_states@.len() {
                    error == (ContextError::InvalidSlot { slot })
                } else {
                    &&& !self.handles.slot_states@[slot as int].is_live(generation)
                    &&& error == (ContextError::StaleLiveHandle {
                        slot,
                        generation,
                        found: self.handles.slot_states@[slot as int],
                    })
                },
                Ok(plan) => {
                    let c = self.config.cluster();
                    let t = flat_table(counts@, c.groups(), self.config.num_experts as int);
                    &&& slot < self.handles.slot_states@.len()
                    &&& self.handles.slot_states@[slot as int].is_live(generation)
                    &&& plan.matches(
                        c,
                        t,
                        self.config.expert_padding as int,
                        self.config.max_tokens_per_expert as int,
                    )
                    &&& plan.layout_range@ == device_layout_range@.take(
                        c.local_experts() * c.groups(),
                    )
                    &&& plan.source_token_index@.len() == plan.final_index@.len()
                    &&& forall|p: int|
                        0 <= p < plan.final_index@.len() ==> #[trigger] plan.source_token_index@[p]
                            == device_source_token_index@[plan.final_index@[p] as int]
                },
            },
    {
        if let Err(error) = self.handles.validate_live_dispatch_handle(slot, generation) {
            return Err(error);
        }
        let ghost c = self.config.cluster();
        let ghost t = flat_table(counts@, c.groups(), self.config.num_experts as int);
        proof {
            lemma_has_groups(self.config);
        }
        let num_routed: Vec<Vec<u32>> = crate::worker::route_table(
            self.config.world_size / self.config.dp_size,
            self.config.num_experts,
            counts,
        );
        let mut plan: LowLatencyRouteLayoutPlan = compute_low_latency_route_layout_plan(
            self.config.rank / self.config.dp_size,
            self.config.rank % self.config.dp_size,
            self.config.dp_size,
            self.config.node_size,
            self.config.world_size,
            self.config.num_experts,
            self.config.expert_padding,
            self.config.max_tokens_per_expert,
            self.config.max_private_tokens,
            1,
            &num_routed,
        );
        let ghost computed = plan;
        let runs: usize = plan.layout_range.len();
        let mut layout_range: Vec<u64> = Vec::new();
        let mut index: usize = 0;
        while index < runs
            invariant
                index <= runs <= device_layout_range@.len(),
                layout_range@ == device_layout_range@.take(index as int),
            decreases runs - index,
        {
            layout_range.push(device_layout_range[index]);
            index = index + 1;
            proof {
                assert(layout_range@ =~= device_layout_range@.take(index as int));
            }
        }
        proof {
            assert forall|q: int| 0 <= q < plan.final_index@.len() implies (
            #[trigger] plan.final_index@[q]) < device_source_token_index@.len() by {
                let arrival = c.arrivals(t)[q];
                assert(q < c.received(t));
            }
        }
        let mut source_token_index: Vec<u32> = Vec::new();
        let mut p: usize = 0;
        while p < plan.final_index.len()
            invariant
                p <= plan.final_index@.len(),
                plan == computed,
                source_token_index@.len() == p,
                forall|q: int|
                    0 <= q < plan.final_index@.len() ==> (#[trigger] plan.final_index@[q])
                        < device_source_token_index@.len(),
                forall|q: int|
                    0 <= q < p ==> #[trigger] source_token_index@[q]
                        == device_source_token_index@[plan.final_index@[q] as int],
            decreases plan.final_index@.len() - p,
        {
            source_token_index.push(device_source_token_index[plan.final_index[p] as usize]);
            p = p + 1;
        }
        plan.layout_range = layout_range;
        plan.source_token_index = source_token_index;
        Ok(plan)
    }

    /// Whether route counts are exchanged within the node.
    pub fn uses_node_route_exchange(&self) -> (exchange: bool)
        ensures
            exchange == self.node_route_exchange,
    {
        self.node_route_exchange
    }
}

/// What is wrong with the length of the first `n` rows, if anything.
pub open spec fn row_error(t: RouteTable, num_experts: usize, n: int) -> Option<ContextError>
    decreases n,
{
    if n <= 0 {
        None
    } else {
        match row_error(t, num_experts, n - 1) {
            Some(error) => Some(error),
            None => if t[n - 1].len() != num_experts {
                Some(
                    ContextError::ExpertCounts {
                        expected: num_experts,
                        source_group: (n - 1) as usize,
                        got: t[n - 1].len() as usize,
                    },
                )
            } else {
                None
            },
        }
    }
}

/// The first error stays the first.
proof fn lemma_first_row_error(t: RouteTable, num_experts: usize, m: int, n: int)
    requires
        m <= n,
        row_error(t, num_experts, m) is Some,
    ensures
        row_error(t, num_experts, n) == row_error(t, num_experts, m),
    decreases n - m,
{
    if m < n {
        lemma_first_row_error(t, num_experts, m, n - 1);
    }
}

/// Adds the next of the tensors that are asked for.
fn add_requested_tensor(
    tensors: &mut Vec<LowLatencyWorkspaceTensorSpec>,
    total_bytes: &mut usize,
    name: &'static str,
    shape: Vec<usize>,
    dtype: &'static str,
    element_size: usize,
    Ghost(requests): Ghost<Seq<TensorRequest>>,
)
    requires
        workspace_fits(requests),
        old(tensors)@.len() < requests.len(),
        tensors_match(old(tensors)@, requests.take(old(tensors)@.len() as int)),
        *old(total_bytes) == workspace_end(requests, old(tensors)@.len() as int),
        name@ == requests[old(tensors)@.len() as int].name,
        shape@ == requests[old(tensors)@.len() as int].shape,
        dtype@ == requests[old(tensors)@.len() as int].dtype,
        element_size == requests[old(tensors)@.len() as int].element_size,
    ensures
        final(tensors)@.len() == old(tensors)@.len() + 1,
        tensors_match(final(tensors)@, requests.take(final(tensors)@.len() as int)),
        *final(total_bytes) == workspace_end(requests, final(tensors)@.len() as int),
{
    let ghost n = tensors@.len() as int;
    let ghost before = tensors@;
    proof {
        lemma_request_fits(requests, n);
    }
    add_workspace_tensor(tensors, total_bytes, name, shape, dtype, element_size);
    proof {
        assert forall|i: int| 0 <= i < n + 1 implies ({
            let tensor = #[trigger] tensors@[i];
            let asked = requests.take(n + 1);
            &&& tensor.name@ == asked[i].name
            &&& tensor.shape@ == asked[i].shape
            &&& tensor.dtype@ == asked[i].dtype
            &&& tensor.nbytes == tensor_bytes(asked[i].shape, asked[i].element_size)
            &&& tensor.offset_bytes == aligned(workspace_end(asked, i))
        }) by {
            lemma_workspace_end_of_prefix(requests, n + 1, i);
            if i < n {
                assert(tensors@[i] == before[i]);
                lemma_workspace_end_of_prefix(requests, n, i);
            }
        }
    }
}

/// Where the first tensors end does not depend on those that follow.
proof fn lemma_workspace_end_of_prefix(requests: Seq<TensorRequest>, m: int, n: int)
    requires
        0 <= n <= m <= requests.len(),
    ensures
        workspace_end(requests.take(m), n) == workspace_end(requests, n),
    decreases n,
{
    if n > 0 {
        lemma_workspace_end_of_prefix(requests, m, n - 1);
    }
}

/// The tensors of a workspace, one by one.
proof fn lemma_requests(config: ContextConfig)
    ensures
        config.workspace_requests().len() == if config.scale_elemsize != 0 {
            7int
        } else {
            5
        },
{
}

/// What fits of a workspace fits of its next tensor.
proof fn lemma_request_fits(requests: Seq<TensorRequest>, i: int)
    requires
        workspace_fits(requests),
        0 <= i < requests.len(),
    ensures
        tensor_fits(requests[i].shape, requests[i].element_size),
        aligned(workspace_end(requests, i)) + tensor_bytes(
            requests[i].shape,
            requests[i].element_size,
        ) == workspace_end(requests, i + 1),
        workspace_end(requests, i + 1) <= usize::MAX,
        aligned(workspace_end(requests, i)) <= usize::MAX,
        0 <= tensor_bytes(requests[i].shape, requests[i].element_size),
        0 <= aligned(workspace_end(requests, i)),
{
    let request = requests[i];
    crate::workspace::lemma_extent_product_nonneg(request.shape, request.shape.len() as int);
    crate::workspace::lemma_workspace_end_nonneg(requests, i);
    lemma_ceil_div(workspace_end(requests, i), LOW_LATENCY_WORKSPACE_ALIGNMENT as int);
    assert(0 <= tensor_bytes(request.shape, request.element_size)) by (nonlinear_arith)
        requires
            tensor_bytes(request.shape, request.element_size) == extent_product(
                request.shape,
                request.shape.len() as int,
            ) * request.element_size,
            0 <= extent_product(request.shape, request.shape.len() as int),
            0 <= request.element_size,
    ;
}

/// The immediate values of different slots are different.
pub proof fn law_slots_use_distinct_immediates(imm_base: int, s: int, u: int, i: int, j: int)
    requires
        0 <= s,
        0 <= u,
        s != u,
        0 <= i < IMMEDIATES_PER_SLOT,
        0 <= j < IMMEDIATES_PER_SLOT,
    ensures
        imm_base + s * IMMEDIATES_PER_SLOT + i != imm_base + u * IMMEDIATES_PER_SLOT + j,
{
}

} // verus!
