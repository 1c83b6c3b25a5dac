//! The worker of one slot: what it exchanges with its peers in each round.

use vstd::prelude::*;
use vstd::arithmetic::div_mod::{lemma_fundamental_div_mod, lemma_fundamental_div_mod_converse};
use crate::config::{lemma_has_groups, ContextConfig};
use crate::counters::WorkerCounters;
use crate::ranges::ScatterRange;
use crate::routing::RouteTable;
use crate::workspace::WORD_BYTES;

verus! {

/// How many immediate values each slot takes up.
pub const IMMEDIATES_PER_SLOT: u32 = 5;

/// The state of the worker of one slot.
#[derive(Debug)]
pub struct WorkerState {
    /// The slot that the worker serves.
    pub slot_idx: usize,
    /// The parameters of the context.
    pub config: ContextConfig,
    /// The rank within its group.
    pub dp_rank: usize,
    /// The group of the rank.
    pub dp_group: usize,
    /// The immediate value that comes with route counts.
    pub route_imm: u32,
    /// The immediate value that comes with dispatched tokens.
    pub dispatch_imm: u32,
    /// The immediate value that comes with returned tokens.
    pub combine_imm: u32,
    /// The immediate value of the barrier after dispatch.
    pub dispatch_barrier_imm: u32,
    /// The immediate value of the barrier after combine.
    pub combine_barrier_imm: u32,
    /// Where each rank of the node keeps its route counts.
    pub node_route_count_ptrs: Vec<usize>,
    /// Where each rank of the node keeps the epoch of its route counts.
    pub node_route_epoch_ptrs: Vec<usize>,
    /// Whether the worker was told to stop.
    pub stopped: bool,
    /// The round that the worker is in.
    pub epoch: u32,
    /// What the worker has moved and waited for.
    pub counters: WorkerCounters,
}

/// The flags and words of a slot that host and kernels share.
#[derive(Clone, Copy, Debug, PartialEq, Eq, Structural)]
pub struct SlotFlags {
    pub dispatch_route_done: u32,
    pub dispatch_send_done: u32,
    pub dispatch_recv_done: u32,
    pub combine_send_done: u32,
    pub combine_recv_done: u32,
    pub num_recv_tokens_ready: u32,
    /// Each of the words that count received tokens.
    pub num_recv_tokens: u32,
    pub tx_ready: bool,
    pub dispatch_recv_flag: bool,
    pub combine_recv_flag: bool,
}

/// The flags of a slot before its first round: no epoch was reached, nothing was received, and
/// the send buffer may be filled.
pub open spec fn initial_flags() -> SlotFlags {
    SlotFlags {
        dispatch_route_done: 0,
        dispatch_send_done: 0,
        dispatch_recv_done: 0,
        combine_send_done: 0,
        combine_recv_done: 0,
        num_recv_tokens_ready: 0,
        num_recv_tokens: 0,
        tx_ready: true,
        dispatch_recv_flag: false,
        combine_recv_flag: false,
    }
}

/// How many entries the device buffers of a slot hold, and what its flags start with.
#[derive(Clone, Copy, Debug, PartialEq, Eq, Structural)]
pub struct MicrobatchSlot {
    pub tokens_per_expert: usize,
    pub source_dispatch_offset: usize,
    pub combine_send_offset: usize,
    pub source_rank: usize,
    pub padded_index: usize,
    pub layout_range: usize,
    pub num_recv_tokens: usize,
    /// What the flags start with.
    pub initial: SlotFlags,
}

/// What to write to the flags of a slot when its worker stops.
#[derive(Clone, Copy, Debug, PartialEq, Eq, Structural)]
pub struct StopSignal {
    /// The value for each of the five epochs that the worker waits for.
    pub epoch: u32,
    /// The value for the flag that lets the next dispatch start.
    pub tx_ready: bool,
}

/// A row of route counts shared within a node.
#[derive(Clone, Copy, Debug, PartialEq, Eq, Structural)]
pub struct NodeRouteRow {
    /// Where the rank that owns the row keeps its counts.
    pub count_ptr: usize,
    /// Where the rank that owns the row keeps its epoch.
    pub epoch_ptr: usize,
    /// Where the row starts in this rank's table of counts.
    pub start: usize,
    /// The number of counts.
    pub len: usize,
}

/// What to do next while waiting.
#[derive(Clone, Copy, Debug, PartialEq, Eq, Structural)]
pub enum WaitPoll {
    /// What was waited for is there.
    Ready,
    /// The worker was told to stop.
    Stopped,
    /// Look again.
    Again,
}

impl MicrobatchSlot {
    /// The buffer sizes and first flags for a slot.
    pub fn new(num_local_experts: usize, num_ep_groups: usize, max_recv_tokens: usize) -> (slot:
        Self)
        requires
            num_local_experts * num_ep_groups <= usize::MAX,
        ensures
            slot.tokens_per_expert == num_local_experts,
            slot.source_dispatch_offset == max_recv_tokens,
            slot.combine_send_offset == max_recv_tokens,
            slot.source_rank == max_recv_tokens,
            slot.padded_index == max_recv_tokens,
            slot.layout_range == num_local_experts * num_ep_groups,
            slot.num_recv_tokens == 3,
            slot.initial == initial_flags(),
    {
        proof {
            assert(0 <= num_local_experts * num_ep_groups) by (nonlinear_arith);
        }
        MicrobatchSlot {
            tokens_per_expert: num_local_experts,
            source_dispatch_offset: max_recv_tokens,
            combine_send_offset: max_recv_tokens,
            source_rank: max_recv_tokens,
            padded_index: max_recv_tokens,
            layout_range: num_local_experts * num_ep_groups,
            num_recv_tokens: 3,
            initial: SlotFlags {
                dispatch_route_done: 0,
                dispatch_send_done: 0,
                dispatch_recv_done: 0,
                combine_send_done: 0,
                combine_recv_done: 0,
                num_recv_tokens_ready: 0,
                num_recv_tokens: 0,
                tx_ready: true,
                dispatch_recv_flag: false,
                combine_recv_flag: false,
            },
        }
    }
}

/// A table of route counts, laid out row after row.
pub open spec fn flat_table(counts: Seq<u32>, groups: int, experts: int) -> RouteTable {
    Seq::new(
        groups as nat,
        |g: int| Seq::new(experts as nat, |e: int| counts[g * experts + e]),
    )
}

/// The ranks after `rank`, all around the ring: the first `n` of them.
pub open spec fn ring(rank: int, world_size: int, n: int) -> Seq<int> {
    Seq::new(n as nat, |i: int| (rank + 1 + i) % world_size)
}

/// The peers among the first `n` ranks after this one: same place in another group.
pub open spec fn route_peers(config: ContextConfig, n: int) -> Seq<int>
    decreases n,
{
    if n <= 0 {
        Seq::empty()
    } else {
        let peer = (config.rank + n) % config.world_size as int;
        let before = route_peers(config, n - 1);
        if peer / config.dp_size as int == config.rank as int / config.dp_size as int || peer
            % config.dp_size as int != config.rank as int % config.dp_size as int {
            before
        } else {
            before.push(peer)
        }
    }
}

/// The row of route counts that goes to a peer: the same place in both tables.
pub open spec fn route_target(config: ContextConfig, peer: int) -> ScatterRange {
    let length = config.num_experts * WORD_BYTES;
    let offset = (config.rank as int / config.dp_size as int) * length;
    ScatterRange {
        peer_rank: peer as usize,
        length: length as u64,
        src_offset: offset as u64,
        dst_offset: offset as u64,
    }
}

/// Polls an epoch: what was observed is held against what is waited for before anything else.
pub fn poll_epoch(observed: u32, epoch: u32, running: bool) -> (poll: WaitPoll)
    ensures
        poll == if observed == epoch {
            WaitPoll::Ready
        } else if !running {
            WaitPoll::Stopped
        } else {
            WaitPoll::Again
        },
{
    if observed == epoch {
        WaitPoll::Ready
    } else if !running {
        WaitPoll::Stopped
    } else {
        WaitPoll::Again
    }
}

/// Polls the counter of completed transfers: none is outstanding once it is not negative.
pub fn poll_transfers(count: i64, running: bool) -> (poll: WaitPoll)
    ensures
        poll == if count >= 0 {
            WaitPoll::Ready
        } else if !running {
            WaitPoll::Stopped
        } else {
            WaitPoll::Again
        },
{
    if count >= 0 {
        WaitPoll::Ready
    } else if !running {
        WaitPoll::Stopped
    } else {
        WaitPoll::Again
    }
}

/// The table of route counts, row by row.
pub fn route_table(num_dp_groups: usize, num_experts: usize, counts: &Vec<u32>) -> (rows: Vec<
    Vec<u32>,
>)
    requires
        num_dp_groups * num_experts <= counts@.len(),
    ensures
        crate::routing::table(&rows) == flat_table(
            counts@,
            num_dp_groups as int,
            num_experts as int,
        ),
{
    let ghost t = flat_table(counts@, num_dp_groups as int, num_experts as int);
    let mut rows: Vec<Vec<u32>> = Vec::new();
    let mut group: usize = 0;
    while group < num_dp_groups
        invariant
            num_dp_groups * num_experts <= counts@.len(),
            group <= num_dp_groups,
            t == flat_table(counts@, num_dp_groups as int, num_experts as int),
            rows@.len() == group,
            forall|g: int| 0 <= g < group ==> (#[trigger] rows@[g])@ == t[g],
        decreases num_dp_groups - group,
    {
        let mut row: Vec<u32> = Vec::new();
        let mut expert: usize = 0;
        while expert < num_experts
            invariant
                num_dp_groups * num_experts <= counts@.len(),
                group < num_dp_groups,
                expert <= num_experts,
                row@.len() == expert,
                forall|e: int|
                    0 <= e < expert ==> #[trigger] row@[e] == counts@[group * num_experts + e],
            decreases num_experts - expert,
        {
            proof {
                lemma_cell(
                    group as int,
                    expert as int,
                    num_dp_groups as int,
                    num_experts as int,
                );
                assert(counts.len() == counts@.len());
            }
            row.push(counts[group * num_experts + expert]);
            expert = expert + 1;
        }
        proof {
            assert(row@ =~= t[group as int]);
        }
        rows.push(row);
        group = group + 1;
    }
    proof {
        assert(crate::routing::table(&rows) =~= t);
    }
    rows
}

impl WorkerState {
    /// The groups of the rank follow from its configuration.
    pub open spec fn wf(self) -> bool {
        &&& self.config.has_groups()
        &&& self.dp_rank == self.config.rank as int % self.config.dp_size as int
        &&& self.dp_group == self.config.rank as int / self.config.dp_size as int
        &&& self.counters.dispatch.peer@.len() == self.config.world_size
        &&& self.counters.combine.peer@.len() == self.config.world_size
    }

    /// The worker of a slot, in its first round.
    pub fn new(
        slot_idx: usize,
        config: ContextConfig,
        node_route_count_ptrs: Vec<usize>,
        node_route_epoch_ptrs: Vec<usize>,
        imm_base: u32,
    ) -> (worker: Self)
        requires
            config.has_groups(),
            imm_base + 4 <= u32::MAX,
        ensures
            worker.wf(),
            worker.slot_idx == slot_idx,
            worker.config == config,
            worker.route_imm == imm_base,
            worker.dispatch_imm == imm_base + 1,
            worker.combine_imm == imm_base + 2,
            worker.dispatch_barrier_imm == imm_base + 3,
            worker.combine_barrier_imm == imm_base + 4,
            worker.node_route_count_ptrs == node_route_count_ptrs,
            worker.node_route_epoch_ptrs == node_route_epoch_ptrs,
            !worker.stopped,
            worker.epoch == 1,
            worker.counters.at_zero(config.world_size as int),
    {
        WorkerState {
            slot_idx,
            config,
            dp_rank: config.rank % config.dp_size,
            dp_group: config.rank / config.dp_size,
            route_imm: imm_base,
            dispatch_imm: imm_base + 1,
            combine_imm: imm_base + 2,
            dispatch_barrier_imm: imm_base + 3,
            combine_barrier_imm: imm_base + 4,
            node_route_count_ptrs,
            node_route_epoch_ptrs,
            stopped: false,
            epoch: 1,
            counters: WorkerCounters::new(config.world_size),
        }
    }

    /// The device buffer sizes and first flags of the slot.
    pub fn slot_sizes(&self) -> (slot: MicrobatchSlot)
        requires
            self.wf(),
            self.config.local_experts() * (self.config.world_size as int
                / self.config.dp_size as int) <= usize::MAX,
        ensures
            slot.tokens_per_expert == self.config.local_experts(),
            slot.source_dispatch_offset == self.config.max_recv_tokens,
            slot.combine_send_offset == self.config.max_recv_tokens,
            slot.source_rank == self.config.max_recv_tokens,
            slot.padded_index == self.config.max_recv_tokens,
            slot.layout_range == self.config.local_experts() * (self.config.world_size as int
                / self.config.dp_size as int),
            slot.num_recv_tokens == 3,
            slot.initial == initial_flags(),
    {
        let num_local_experts: usize = self.config.num_local_experts();
        MicrobatchSlot::new(
            num_local_experts,
            self.config.world_size / self.config.dp_size,
            self.config.max_recv_tokens,
        )
    }

    /// Whether the worker goes on.
    pub fn is_running(&self) -> (running: bool)
        ensures
            running == !self.stopped,
    {
        !self.stopped
    }

    /// Tells the worker to stop. The signal releases whatever waits for this round.
    pub fn stop(&mut self) -> (signal: StopSignal)
        ensures
            final(self).stopped,
            *final(self) == (WorkerState { stopped: true, ..*old(self) }),
            signal == (StopSignal { epoch: old(self).epoch, tx_ready: true }),
    {
        self.stopped = true;
        StopSignal { epoch: self.epoch, tx_ready: true }
    }

    /// Whether any transfer failed, given the number of errors.
    pub fn failed(&self, errors: i64) -> (failed: bool)
        ensures
            failed == (errors != 0),
    {
        errors != 0
    }

    /// The round that the worker is in.
    pub fn epoch(&self) -> (epoch: u32)
        ensures
            epoch == self.epoch,
    {
        self.epoch
    }

    /// The number of tokens that a group routes to an expert.
    pub fn get_num_routed(&self, counts: &Vec<u32>, dp_group: usize, expert: usize) -> (count: u32)
        requires
            self.wf(),
            dp_group < self.config.world_size as int / self.config.dp_size as int,
            expert < self.config.num_experts,
            (self.config.world_size as int / self.config.dp_size as int) * self.config.num_experts
                <= counts@.len(),
        ensures
            count == counts@[dp_group * self.config.num_experts + expert],
    {
        proof {
            lemma_cell(
                dp_group as int,
                expert as int,
                self.config.world_size as int / self.config.dp_size as int,
                self.config.num_experts as int,
            );
            assert(counts.len() == counts@.len());
        }
        counts[dp_group * self.config.num_experts + expert]
    }

    /// Whether route counts are exchanged within the node.
    pub open spec fn node_exchange(self) -> bool {
        &&& self.config.world_size == self.config.node_size
        &&& self.node_route_count_ptrs@.len() == self.config.world_size
        &&& self.node_route_epoch_ptrs@.len() == self.config.world_size
    }

    /// Whether route counts are exchanged within the node: there is one node, and every rank of
    /// it gave the places of its counts and epoch.
    pub fn has_node_route_exchange(&self) -> (exchange: bool)
        ensures
            exchange == self.node_exchange(),
    {
        self.config.world_size == self.config.node_size && self.node_route_count_ptrs.len()
            == self.config.world_size && self.node_route_epoch_ptrs.len()
            == self.config.world_size
    }

    /// The row that this rank shares within the node: its counts are copied to `count_ptr` and
    /// the epoch then stored at `epoch_ptr`.
    pub fn publish_local_node_route_counts(&self) -> (row: NodeRouteRow)
        requires
            self.wf(),
            self.node_exchange(),
            self.config.rank < self.config.world_size,
            self.dp_group * self.config.num_experts <= usize::MAX,
        ensures
            row == (NodeRouteRow {
                count_ptr: self.node_route_count_ptrs@[self.config.rank as int],
                epoch_ptr: self.node_route_epoch_ptrs@[self.config.rank as int],
                start: (self.dp_group * self.config.num_experts) as usize,
                len: self.config.num_experts,
            }),
    {
        proof {
            assert(0 <= self.dp_group * self.config.num_experts) by (nonlinear_arith);
        }
        NodeRouteRow {
            count_ptr: self.node_route_count_ptrs[self.config.rank],
            epoch_ptr: self.node_route_epoch_ptrs[self.config.rank],
            start: self.dp_group * self.config.num_experts,
            len: self.config.num_experts,
        }
    }

    /// The rows to collect within the node, group by group: once the epoch at `epoch_ptr` is
    /// that of the round, the counts at `count_ptr` are copied into this rank's table.
    pub fn wait_node_route_counts(&self) -> (rows: Vec<NodeRouteRow>)
        requires
            self.wf(),
            self.node_exchange(),
            self.config.cluster().rank_of(self.config.cluster().groups() - 1)
                < self.config.world_size,
            self.config.cluster().groups() * self.config.num_experts <= usize::MAX,
        ensures
            rows@.len() == self.config.cluster().groups(),
            forall|g: int|
                0 <= g < rows@.len() ==> #[trigger] rows@[g] == (NodeRouteRow {
                    count_ptr: self.node_route_count_ptrs@[self.config.cluster().rank_of(g)],
                    epoch_ptr: self.node_route_epoch_ptrs@[self.config.cluster().rank_of(g)],
                    start: (g * self.config.num_experts) as usize,
                    len: self.config.num_experts,
                }),
    {
        let ghost c = self.config.cluster();
        proof {
            lemma_has_groups(self.config);
        }
        let num_dp_groups: usize = self.config.world_size / self.config.dp_size;
        let mut rows: Vec<NodeRouteRow> = Vec::new();
        let mut peer_group: usize = 0;
        while peer_group < num_dp_groups
            invariant
                self.wf(),
                self.node_exchange(),
                c == self.config.cluster(),
                c.dp_rank == self.dp_rank,
                c.dp_size == self.config.dp_size,
                c.groups() == num_dp_groups,
                c.rank_of(c.groups() - 1) < self.config.world_size,
                c.groups() * self.config.num_experts <= usize::MAX,
                peer_group <= num_dp_groups,
                rows@.len() == peer_group,
                forall|g: int|
                    0 <= g < rows@.len() ==> #[trigger] rows@[g] == (NodeRouteRow {
                        count_ptr: self.node_route_count_ptrs@[c.rank_of(g)],
                        epoch_ptr: self.node_route_epoch_ptrs@[c.rank_of(g)],
                        start: (g * self.config.num_experts) as usize,
                        len: self.config.num_experts,
                    }),
            decreases num_dp_groups - peer_group,
        {
            proof {
                crate::traffic::lemma_group_at(c, peer_group as int);
                assert(0 <= peer_group * self.config.num_experts <= c.groups()
                    * self.config.num_experts) by (nonlinear_arith)
                    requires
                        0 <= peer_group <= c.groups(),
                ;
                assert(0 <= peer_group * self.config.dp_size) by (nonlinear_arith);
            }
            let peer_rank: usize = peer_group * self.config.dp_size + self.dp_rank;
            rows.push(
                NodeRouteRow {
                    count_ptr: self.node_route_count_ptrs[peer_rank],
                    epoch_ptr: self.node_route_epoch_ptrs[peer_rank],
                    start: peer_group * self.config.num_experts,
                    len: self.config.num_experts,
                },
            );
            peer_group = peer_group + 1;
        }
        rows
    }

    /// The writes that send this rank's route counts to its peers in the other groups.
    pub fn route_targets(&self) -> (targets: Vec<ScatterRange>)
        requires
            self.wf(),
            self.config.rank + self.config.world_size <= usize::MAX,
            route_peers(self.config, self.config.world_size - 1).len() > 0 ==> {
                &&& self.config.num_experts * WORD_BYTES <= usize::MAX
                &&& self.dp_group * (self.config.num_experts * WORD_BYTES) <= u64::MAX
            },
        ensures
            targets@ == Seq::new(
                route_peers(self.config, self.config.world_size - 1).len(),
                |i: int|
                    route_target(
                        self.config,
                        route_peers(self.config, self.config.world_size - 1)[i],
                    ),
            ),
    {
        let ghost all = route_peers(self.config, self.config.world_size - 1);
        let mut targets: Vec<ScatterRange> = Vec::new();
        let mut i: usize = 1;
        while i < self.config.world_size
            invariant
                self.wf(),
                self.config.rank + self.config.world_size <= usize::MAX,
                1 <= i <= self.config.world_size,
                all == route_peers(self.config, self.config.world_size - 1),
                all.len() > 0 ==> {
                    &&& self.config.num_experts * WORD_BYTES <= usize::MAX
                    &&& self.dp_group * (self.config.num_experts * WORD_BYTES) <= u64::MAX
                },
                targets@ == Seq::new(
                    route_peers(self.config, i - 1).len(),
                    |k: int| route_target(self.config, route_peers(self.config, i - 1)[k]),
                ),
            decreases self.config.world_size - i,
        {
            let ghost before = route_peers(self.config, i - 1);
            let peer_rank: usize = (self.config.rank + i) % self.config.world_size;
            let peer_group: usize = peer_rank / self.config.dp_size;
            if !(peer_group == self.dp_group || peer_rank % self.config.dp_size != self.dp_rank) {
                proof {
                    lemma_route_peers_grow(self.config, i as int, self.config.world_size - 1);
                    assert(0 <= self.dp_group * (self.config.num_experts * WORD_BYTES))
                        by (nonlinear_arith)
                        requires
                            0 <= self.dp_group,
                            0 <= self.config.num_experts * WORD_BYTES,
                    ;
                }
                let length: u64 = (self.config.num_experts * WORD_BYTES) as u64;
                let offset: u64 = self.dp_group as u64 * length;
                targets.push(
                    ScatterRange { peer_rank, length, src_offset: offset, dst_offset: offset },
                );
                proof {
                    assert(route_peers(self.config, i as int) == before.push(peer_rank as int));
                }
            }
            i = i + 1;
            proof {
                assert(targets@ =~= Seq::new(
                    route_peers(self.config, i - 1).len(),
                    |k: int| route_target(self.config, route_peers(self.config, i - 1)[k]),
                ));
            }
        }
        targets
    }

    /// The ranks that a barrier reaches: all others, starting with the next.
    pub fn barrier_peers(&self) -> (peers: Vec<usize>)
        requires
            0 < self.config.world_size,
            self.config.rank + self.config.world_size <= usize::MAX,
        ensures
            peers@.map_values(|p: usize| p as int) == ring(
                self.config.rank as int,
                self.config.world_size as int,
                self.config.world_size - 1,
            ),
    {
        let ghost rank = self.config.rank as int;
        let ghost world = self.config.world_size as int;
        let mut peers: Vec<usize> = Vec::new();
        let mut i: usize = 1;
        while i < self.config.world_size
            invariant
                rank == self.config.rank,
                world == self.config.world_size,
                0 < world,
                rank + world <= usize::MAX,
                1 <= i <= self.config.world_size,
                peers@.map_values(|p: usize| p as int) == ring(rank, world, i - 1),
            decreases self.config.world_size - i,
        {
            let peer_rank: usize = (self.config.rank + i) % self.config.world_size;
            proof {
                if rank < world {
                    lemma_ring_moves(rank, world, i as int);
                }
            }
            if peer_rank != self.config.rank {
                let ghost before = peers@;
                peers.push(peer_rank);
                proof {
                    assert(peers@.map_values(|p: usize| p as int) =~= before.map_values(
                        |p: usize| p as int,
                    ).push(peer_rank as int));
                }
            }
            i = i + 1;
            proof {
                assert(ring(rank, world, i - 1) =~= ring(rank, world, i - 2).push(
                    (rank + i - 1) % world,
                ));
            }
        }
        peers
    }
}

/// A cell of a table lies within the rows.
proof fn lemma_cell(group: int, expert: int, groups: int, experts: int)
    requires
        0 <= group < groups,
        0 <= expert < experts,
    ensures
        0 <= group * experts,
        group * experts + expert < groups * experts,
{
    assert(0 <= group * experts && group * experts + experts <= groups * experts)
        by (nonlinear_arith)
        requires
            0 <= group,
            group + 1 <= groups,
            0 <= experts,
    ;
}

/// A rank that lies a number of places further around the ring is another rank.
proof fn lemma_ring_moves(rank: int, world_size: int, i: int)
    requires
        0 <= rank < world_size,
        0 < i < world_size,
    ensures
        0 <= (rank + i) % world_size < world_size,
        (rank + i) % world_size == if rank + i < world_size {
            rank + i
        } else {
            rank + i - world_size
        },
        (rank + i) % world_size != rank,
{
    if rank + i < world_size {
        lemma_fundamental_div_mod_converse(rank + i, world_size, 0, rank + i);
    } else {
        lemma_fundamental_div_mod_converse(rank + i, world_size, 1, rank + i - world_size);
    }
}

/// Looking further around the ring only adds peers.
proof fn lemma_route_peers_grow(config: ContextConfig, m: int, n: int)
    requires
        m <= n,
    ensures
        route_peers(config, m).len() <= route_peers(config, n).len(),
    decreases n - m,
{
    if m < n {
        lemma_route_peers_grow(config, m, n - 1);
    }
}

/// A barrier reaches every other rank, once.
pub proof fn law_barrier_reaches_every_other_rank(rank: int, world_size: int, peer: int)
    requires
        0 <= rank < world_size,
        0 <= peer < world_size,
    ensures
        ring(rank, world_size, world_size - 1).contains(peer) <==> peer != rank,
        ring(rank, world_size, world_size - 1).no_duplicates(),
{
    let all = ring(rank, world_size, world_size - 1);
    assert forall|i: int| 0 <= i < all.len() implies all[i] != rank && all[i] == (if rank + 1 + i
        < world_size {
        rank + 1 + i
    } else {
        rank + 1 + i - world_size
    }) by {
        lemma_ring_moves(rank, world_size, i + 1);
    }
    if peer > rank {
        assert(all[peer - rank - 1] == peer);
    } else if peer < rank {
        assert(all[peer + world_size - rank - 1] == peer);
    }
}

/// Where ranks fill whole groups, route counts go to the peer in every other group, once, so
/// that every rank receives one message less than there are groups.
pub proof fn law_route_counts_reach_every_other_group(config: ContextConfig)
    requires
        config.has_groups(),
        config.rank < config.world_size,
        config.world_size as int % config.dp_size as int == 0,
    ensures
        route_peers(config, config.world_size - 1).len() == config.cluster().groups() - 1,
        forall|k: int|
            0 <= k < config.cluster().groups() - 1 ==> #[trigger] route_peers(
                config,
                config.world_size - 1,
            )[k] == config.cluster().rank_of(
                (config.cluster().dp_group + 1 + k) % config.cluster().groups(),
            ),
{
    let c = config.cluster();
    let dp = config.dp_size as int;
    let world = config.world_size as int;
    let groups = c.groups();
    lemma_has_groups(config);
    lemma_fundamental_div_mod(world, dp);
    lemma_route_peers_of_whole_groups(config, world - 1);
    assert((world - 1) / dp == groups - 1) by {
        assert((groups - 1) * dp == dp * groups - dp) by (nonlinear_arith);
        lemma_fundamental_div_mod_converse(world - 1, dp, groups - 1, dp - 1);
    }
}

/// What the first `n` ranks after this one hold of peers, where ranks fill whole groups.
proof fn lemma_route_peers_of_whole_groups(config: ContextConfig, n: int)
    requires
        config.has_groups(),
        config.rank < config.world_size,
        config.world_size as int % config.dp_size as int == 0,
        0 <= n < config.world_size,
    ensures
        route_peers(config, n).len() == n / config.dp_size as int,
        forall|k: int|
            0 <= k < n / config.dp_size as int ==> #[trigger] route_peers(config, n)[k]
                == config.cluster().rank_of(
                (config.cluster().dp_group + 1 + k) % config.cluster().groups(),
            ),
    decreases n,
{
    let c = config.cluster();
    let dp = config.dp_size as int;
    let world = config.world_size as int;
    let rank = config.rank as int;
    let groups = c.groups();
    lemma_has_groups(config);
    lemma_fundamental_div_mod(world, dp);
    if n == 0 {
        lemma_fundamental_div_mod_converse(0, dp, 0, 0);
    } else {
        lemma_route_peers_of_whole_groups(config, n - 1);
        lemma_fundamental_div_mod(n, dp);
        lemma_fundamental_div_mod(n - 1, dp);
        lemma_fundamental_div_mod(rank, dp);
        lemma_ring_moves(rank, world, n);
        let peer = (rank + n) % world;
        let q = n / dp;
        let r = n % dp;
        let wrap: int = if rank + n < world {
            0
        } else {
            1
        };
        let g = c.dp_group as int;
        let d = c.dp_rank as int;
        assert(peer == dp * g + d + dp * q + r - wrap * (dp * groups)) by (nonlinear_arith)
            requires
                peer == rank + n - wrap * world,
                rank == dp * g + d,
                n == dp * q + r,
                world == dp * groups,
        ;
        assert(dp * g + d + dp * q + r - wrap * (dp * groups) == dp * (g + q - wrap * groups) + d
            + r) by (nonlinear_arith);
        let base = g + q - wrap * groups;
        // The place within the group moves by `r`.
        if d + r < dp {
            lemma_fundamental_div_mod_converse(peer, dp, base, d + r);
        } else {
            assert(dp * base + d + r == (base + 1) * dp + (d + r - dp)) by (nonlinear_arith);
            lemma_fundamental_div_mod_converse(peer, dp, base + 1, d + r - dp);
        }
        if r == 0 {
            // A whole number of groups further.
            assert((n - 1) / dp == q - 1) by {
                assert(n - 1 == dp * (q - 1) + (dp - 1)) by (nonlinear_arith)
                    requires
                        n == dp * q,
                ;
                lemma_fundamental_div_mod_converse(n - 1, dp, q - 1, dp - 1);
            }
            assert(0 < q < groups) by (nonlinear_arith)
                requires
                    n == dp * q,
                    0 < n < dp * groups,
                    0 < dp,
            ;
            assert(0 <= base < groups) by (nonlinear_arith)
                requires
                    peer == dp * base + d,
                    0 <= peer < dp * groups,
                    0 <= d < dp,
            ;
            assert(base != g);
            assert((g + q) % groups == base) by {
                lemma_fundamental_div_mod_converse(g + q, groups, wrap, base);
            }
            assert(base * dp == dp * base) by (nonlinear_arith);
            assert(peer == c.rank_of(base));
            let before = route_peers(config, n - 1);
            assert(route_peers(config, n) == before.push(peer));
            assert forall|k: int| 0 <= k < q implies #[trigger] route_peers(config, n)[k]
                == c.rank_of((c.dp_group + 1 + k) % groups) by {
                if k < q - 1 {
                    assert(before[k] == c.rank_of((c.dp_group + 1 + k) % groups));
                }
            }
        } else {
            assert((n - 1) / dp == q) by {
                lemma_fundamental_div_mod_converse(n - 1, dp, q, r - 1);
            }
            assert(peer % dp != d);
            assert(route_peers(config, n) == route_peers(config, n - 1));
        }
    }
}

} // verus!
