//! One round of an exchange: from route counts to writes and counters.

use vstd::prelude::*;
use crate::cluster::Cluster;
use crate::config::{lemma_has_groups, ContextConfig};
use crate::padding::low32;
use crate::ranges::{
    byte_range, byte_ranges, combine_range_fits, initial_ranges_fit, overflow_range_fits,
    to_byte_ranges, ScatterRange,
};
use crate::receive_plan::{compute_receive_route_plan, ReceiveRoutePlan};
use crate::routing::{row_sum, RouteTable};
use crate::transfer_plan::{
    combine_transfer, compute_initial_dispatch_transfer_plans,
    compute_remote_combine_transfer_plans, compute_remote_dispatch_transfer_plans,
    initial_transfer, overflow_transfers, RemoteTransferPlan,
};
use crate::worker::{flat_table, route_table, MicrobatchSlot, WorkerState};

verus! {

/// What the rest of a round needs of its routing.
#[derive(Debug)]
pub struct RoutingInfo {
    /// The number of dispatch messages to wait for.
    pub num_recv_tx: u32,
    /// The dispatch writes beyond the private buffers.
    pub dispatch_ranges: Vec<ScatterRange>,
    /// The writes back to other nodes.
    pub combine_ranges: Vec<ScatterRange>,
}

/// What goes to the device buffers of a slot.
#[derive(Debug)]
pub struct SlotUpload {
    /// The plan whose arrays are copied.
    pub plan: ReceiveRoutePlan,
    /// The tokens received, those from other nodes, and a zero.
    pub num_recv_tokens: Vec<u32>,
    /// The epoch that marks the copies as done.
    pub num_recv_tokens_ready: u32,
}

impl ContextConfig {
    /// Whether the sizes of tokens fit a `usize`.
    pub open spec fn dims_fit(self) -> bool {
        &&& self.hidden_dim * self.in_elemsize <= usize::MAX
        &&& self.hidden_dim_scale * self.scale_elemsize <= usize::MAX
        &&& self.dispatch_token_dim() <= usize::MAX
    }

    /// Whether the sizes of returned tokens fit a `usize`.
    pub open spec fn combine_dims_fit(self) -> bool {
        &&& self.hidden_dim * self.out_elemsize <= usize::MAX
        &&& self.combine_token_dim() <= usize::MAX
    }

    /// Whether the first dispatch writes of a round can be computed.
    pub open spec fn initial_routable(self, t: RouteTable) -> bool {
        let c = self.cluster();
        &&& c.placed()
        &&& self.dims_fit()
        &&& row_sum(t, c.dp_group as int, 0, self.num_experts as int) <= usize::MAX
        &&& c.remote_peers().len() > 0 ==> c.dp_group * self.max_private_tokens <= usize::MAX
        &&& initial_ranges_fit(
            c,
            t,
            self.max_private_tokens as int,
            self.dispatch_token_dim(),
        )
    }

    /// Whether the routing of a round can be processed: every count, offset and byte range fits
    /// its integer type.
    pub open spec fn routable(self, t: RouteTable, nets_per_gpu: int) -> bool {
        let c = self.cluster();
        let private = self.max_private_tokens as int;
        &&& c.plannable(
            t,
            self.expert_padding as int,
            self.max_tokens_per_expert as int,
            private,
            nets_per_gpu,
        )
        &&& self.dims_fit()
        &&& self.combine_dims_fit()
        &&& forall|p: int|
            0 <= p < c.world_size && #[trigger] c.to_rank(t, p) > private ==> private * c.groups()
                + c.from_lower_groups_to(t, p) <= u64::MAX
        &&& forall|i: int|
            #![trigger c.remote_peers()[i]]
            0 <= i < c.remote_peers().len() ==> overflow_range_fits(
                c,
                t,
                private,
                self.dispatch_token_dim(),
                c.remote_peers()[i],
            )
        &&& forall|i: int|
            #![trigger c.remote_groups()[i]]
            0 <= i < c.remote_groups().len() ==> combine_range_fits(
                c,
                t,
                self.combine_token_dim(),
                c.remote_groups()[i],
            )
        &&& forall|p: int|
            0 <= p < c.world_size ==> #[trigger] c.to_rank(t, p) * self.dispatch_token_dim()
                <= u64::MAX
        &&& forall|g: int|
            0 <= g < c.groups() ==> #[trigger] c.from_group(t, g) * self.combine_token_dim()
                <= u64::MAX
    }
}

/// All ranks, in order.
pub open spec fn all_ranks(world_size: int) -> Seq<usize> {
    Seq::new(world_size as nat, |p: int| p as usize)
}

/// The peer in each group, in order.
pub open spec fn group_peers(c: Cluster) -> Seq<usize> {
    Seq::new(c.groups() as nat, |g: int| c.rank_of(g) as usize)
}

/// The byte ranges of the first dispatch writes.
pub open spec fn initial_ranges(config: ContextConfig, t: RouteTable) -> Seq<ScatterRange> {
    let c = config.cluster();
    Seq::new(
        c.remote_peers().len(),
        |i: int|
            byte_range(
                initial_transfer(c, t, config.max_private_tokens as int, c.remote_peers()[i]),
                config.dispatch_token_dim(),
            ),
    )
}

/// The byte ranges of the writes back.
pub open spec fn combine_ranges(config: ContextConfig, plan: ReceiveRoutePlan) -> Seq<
    ScatterRange,
> {
    let c = config.cluster();
    Seq::new(
        c.remote_groups().len(),
        |i: int|
            byte_range(
                combine_transfer(c, plan, c.remote_groups()[i]),
                config.combine_token_dim(),
            ),
    )
}

impl WorkerState {
    /// The routing table of a round.
    pub open spec fn routes(self, counts: Seq<u32>) -> RouteTable {
        flat_table(
            counts,
            self.config.world_size as int / self.config.dp_size as int,
            self.config.num_experts as int,
        )
    }

    /// Whether there is a count for every group and expert.
    pub open spec fn counts_cover(self, counts: Seq<u32>) -> bool {
        (self.config.world_size as int / self.config.dp_size as int) * self.config.num_experts
            <= counts.len()
    }

    /// Whether the routing of a round gives this upload and these writes and leaves the worker
    /// as `after`: the plan is that of the routing table, the writes are those of the plan, and
    /// of the worker only the traffic counters change.
    pub open spec fn routed(
        self,
        after: WorkerState,
        counts: Seq<u32>,
        nets_per_gpu: int,
        upload: SlotUpload,
        info: RoutingInfo,
    ) -> bool {
        let config = self.config;
        let c = config.cluster();
        let t = self.routes(counts);
        let plan = upload.plan;
        &&& after == (WorkerState { counters: after.counters, ..self })
        &&& after.counters.times == self.counters.times
        &&& plan.matches(
            c,
            t,
            config.expert_padding as int,
            config.max_tokens_per_expert as int,
            config.max_private_tokens as int,
            nets_per_gpu,
        )
        &&& upload.num_recv_tokens@ == seq![
            low32(plan.num_recv_tokens as int) as u32,
            low32(plan.num_recv_efa_tokens as int) as u32,
            0u32,
        ]
        &&& upload.num_recv_tokens_ready == self.epoch
        &&& info.num_recv_tx == plan.num_recv_tx
        &&& info.dispatch_ranges@ == byte_ranges(
            overflow_transfers(
                c,
                t,
                plan,
                config.max_private_tokens as int,
                c.remote_peers().len() as int,
            ),
            config.dispatch_token_dim(),
        )
        &&& info.combine_ranges@ == combine_ranges(config, plan)
        &&& self.counters.dispatch.counted(
            after.counters.dispatch,
            config.rank as int,
            config.node_size as int,
            all_ranks(config.world_size as int),
            plan.tokens_to_rank@,
            config.dispatch_token_dim(),
        )
        &&& self.counters.combine.counted(
            after.counters.combine,
            config.rank as int,
            config.node_size as int,
            group_peers(c),
            plan.tokens_from_group@,
            config.combine_token_dim(),
        )
    }

    /// The first dispatch writes of a round, into the private buffers of the peers on other
    /// nodes.
    pub fn dispatch_initial_routes(&self, counts: &Vec<u32>) -> (ranges: Vec<ScatterRange>)
        requires
            self.wf(),
            self.counts_cover(counts@),
            self.config.initial_routable(self.routes(counts@)),
        ensures
            ranges@ == initial_ranges(self.config, self.routes(counts@)),
    {
        proof {
            lemma_has_groups(self.config);
        }
        let ghost c = self.config.cluster();
        let token_dim: usize = self.config.get_dispatch_token_dim();
        let num_routed: Vec<Vec<u32>> = route_table(
            self.config.world_size / self.config.dp_size,
            self.config.num_experts,
            counts,
        );
        proof {
            let t = crate::routing::table(&num_routed);
            assert(t.len() == c.groups());
            assert(t[c.dp_group as int].len() == self.config.num_experts);
        }
        let transfers: Vec<RemoteTransferPlan> = compute_initial_dispatch_transfer_plans(
            self.dp_group,
            self.dp_rank,
            self.config.dp_size,
            self.config.node_size,
            self.config.world_size,
            self.config.num_experts,
            self.config.max_private_tokens,
            &num_routed,
        );
        let ranges: Vec<ScatterRange> = to_byte_ranges(&transfers, token_dim as u64);
        proof {
            assert(ranges@ =~= initial_ranges(self.config, self.routes(counts@)));
        }
        ranges
    }

    /// Processes the routing of a round, once the counts of all groups are there: plans what is
    /// received, lists the writes that follow from it and counts the traffic.
    pub fn process_routing_info(&mut self, counts: &Vec<u32>, nets_per_gpu: u32) -> (routing: (
        SlotUpload,
        RoutingInfo,
    ))
        requires
            old(self).wf(),
            old(self).counts_cover(counts@),
            old(self).config.routable(old(self).routes(counts@), nets_per_gpu as int),
        ensures
            final(self).wf(),
            old(self).routed(
                *final(self),
                counts@,
                nets_per_gpu as int,
                routing.0,
                routing.1,
            ),
    {
        let config: ContextConfig = self.config;
        let ghost c = config.cluster();
        let ghost t = self.routes(counts@);
        proof {
            lemma_has_groups(config);
            crate::traffic::lemma_valid_sizes(c);
            crate::transfer_plan::lemma_placed_sizes(c);
        }
        let num_dp_groups: usize = config.world_size / config.dp_size;
        let num_routed: Vec<Vec<u32>> = route_table(num_dp_groups, config.num_experts, counts);
        let plan: ReceiveRoutePlan = compute_receive_route_plan(
            self.dp_group,
            self.dp_rank,
            config.dp_size,
            config.node_size,
            config.world_size,
            config.num_experts,
            config.expert_padding,
            config.max_tokens_per_expert,
            config.max_private_tokens,
            nets_per_gpu,
            &num_routed,
        );
        let num_recv_tokens: Vec<u32> = recv_words(plan.num_recv_tokens, plan.num_recv_efa_tokens);

        let dispatch_dim: usize = config.get_dispatch_token_dim();
        proof {
            assert forall|p: int|
                0 <= p < c.world_size && plan.tokens_to_rank@[p]
                    > config.max_private_tokens implies config.max_private_tokens * c.groups()
                + #[trigger] c.from_lower_groups_to(t, p) <= u64::MAX by {
                assert(c.to_rank(t, p) == plan.tokens_to_rank@[p]);
            }
            assert forall|g: int| 0 <= g < c.dp_group implies config.num_experts <= (
            #[trigger] num_routed@[g])@.len() by {
                assert(t[g].len() == config.num_experts);
            }
        }
        let dispatch_transfers: Vec<RemoteTransferPlan> = compute_remote_dispatch_transfer_plans(
            &plan,
            self.dp_group,
            self.dp_rank,
            config.dp_size,
            config.node_size,
            config.world_size,
            config.num_experts,
            config.max_private_tokens,
            &num_routed,
        );
        proof {
            lemma_from_lower_nonneg(c, t, config.max_private_tokens as int);
            crate::ranges::lemma_overflow_ranges_fit(
                c,
                t,
                plan,
                config.max_private_tokens as int,
                config.dispatch_token_dim(),
                c.remote_peers().len() as int,
            );
        }
        let dispatch_ranges: Vec<ScatterRange> = to_byte_ranges(
            &dispatch_transfers,
            dispatch_dim as u64,
        );

        let combine_dim: usize = config.get_combine_token_dim();
        let ghost bare = Cluster { num_experts: 0, ..c };
        proof {
            assert(bare.remote_groups() =~= c.remote_groups());
        }
        let combine_transfers: Vec<RemoteTransferPlan> = compute_remote_combine_transfer_plans(
            &plan,
            self.dp_group,
            self.dp_rank,
            config.dp_size,
            config.node_size,
            config.world_size,
        );
        proof {
            assert forall|i: int| 0 <= i < combine_transfers@.len() implies
                crate::ranges::range_fits(
                #[trigger] combine_transfers@[i],
                combine_dim as int,
            ) by {
                let g = c.remote_groups()[i];
                assert(0 <= g < c.groups());
                crate::ranges::lemma_combine_range_fits(c, t, plan, combine_dim as int, g);
                assert(combine_transfers@[i] == combine_transfer(bare, plan, g));
                assert(combine_transfer(bare, plan, g) == combine_transfer(c, plan, g));
            }
        }
        let combine_ranges: Vec<ScatterRange> = to_byte_ranges(
            &combine_transfers,
            combine_dim as u64,
        );
        proof {
            assert forall|i: int| 0 <= i < combine_ranges@.len() implies #[trigger]
                combine_ranges@[i] == crate::exchange::combine_ranges(config, plan)[i] by {
                let g = c.remote_groups()[i];
                assert(combine_transfers@[i] == combine_transfer(bare, plan, g));
                assert(combine_transfer(bare, plan, g) == combine_transfer(c, plan, g));
            }
            assert(combine_ranges@ =~= crate::exchange::combine_ranges(config, plan));
        }

        // Count the traffic.
        let ranks: Vec<usize> = list_ranks(config.world_size);
        proof {
            assert forall|p: int| 0 <= p < ranks@.len() implies #[trigger] plan.tokens_to_rank@[p]
                * dispatch_dim <= u64::MAX by {
                assert(plan.tokens_to_rank@[p] == c.to_rank(t, p));
            }
        }
        self.counters.dispatch.record(
            config.rank,
            config.node_size,
            &ranks,
            &plan.tokens_to_rank,
            dispatch_dim as u64,
        );
        let peers: Vec<usize> = list_group_peers(
            config.dp_size,
            self.dp_rank,
            num_dp_groups,
            Ghost(c),
        );
        proof {
            assert forall|g: int| 0 <= g < peers@.len() implies (#[trigger] peers@[g])
                < config.world_size by {
                crate::traffic::lemma_group_at(c, g);
            }
            assert forall|g: int| 0 <= g < peers@.len() implies #[trigger]
                plan.tokens_from_group@[g] * combine_dim <= u64::MAX by {
                assert(plan.tokens_from_group@[g] == c.from_group(t, g));
            }
        }
        self.counters.combine.record(
            config.rank,
            config.node_size,
            &peers,
            &plan.tokens_from_group,
            combine_dim as u64,
        );
        let num_recv_tx: u32 = plan.num_recv_tx;
        (
            SlotUpload { plan, num_recv_tokens, num_recv_tokens_ready: self.epoch },
            RoutingInfo { num_recv_tx, dispatch_ranges, combine_ranges },
        )
    }
}

/// A plan fits the buffers of a slot that was made for at least as many tokens as are received.
pub proof fn law_plan_fits_slot_buffers(
    worker: WorkerState,
    slot: MicrobatchSlot,
    plan: ReceiveRoutePlan,
    t: RouteTable,
    nets_per_gpu: int,
)
    requires
        worker.wf(),
        worker.config.cluster().valid(),
        slot.tokens_per_expert == worker.config.local_experts(),
        slot.layout_range == worker.config.local_experts() * (worker.config.world_size as int
            / worker.config.dp_size as int),
        slot.source_dispatch_offset == worker.config.max_recv_tokens,
        slot.combine_send_offset == worker.config.max_recv_tokens,
        slot.source_rank == worker.config.max_recv_tokens,
        slot.padded_index == worker.config.max_recv_tokens,
        plan.matches(
            worker.config.cluster(),
            t,
            worker.config.expert_padding as int,
            worker.config.max_tokens_per_expert as int,
            worker.config.max_private_tokens as int,
            nets_per_gpu,
        ),
        worker.config.cluster().received(t) <= worker.config.max_recv_tokens,
    ensures
        plan.tokens_per_expert@.len() == slot.tokens_per_expert,
        plan.source_dispatch_offset@.len() <= slot.source_dispatch_offset,
        plan.combine_send_offset@.len() <= slot.combine_send_offset,
        plan.source_rank@.len() <= slot.source_rank,
        plan.padded_index@.len() <= slot.padded_index,
        plan.layout_range@.len() <= slot.layout_range,
{
    let c = worker.config.cluster();
    crate::traffic::lemma_valid_sizes(c);
    assert(c.local_experts() * c.groups() <= c.experts_per_rank() * c.groups())
        by (nonlinear_arith)
        requires
            c.local_experts() <= c.experts_per_rank(),
            0 <= c.groups(),
    ;
}

/// The words that tell a kernel how many tokens there are.
fn recv_words(num_recv_tokens: usize, num_recv_efa_tokens: usize) -> (words: Vec<u32>)
    ensures
        words@ == seq![
            low32(num_recv_tokens as int) as u32,
            low32(num_recv_efa_tokens as int) as u32,
            0u32,
        ],
{
    let mut words: Vec<u32> = Vec::new();
    words.push(num_recv_tokens as u32);
    words.push(num_recv_efa_tokens as u32);
    words.push(0);
    proof {
        assert(words@ =~= seq![
            low32(num_recv_tokens as int) as u32,
            low32(num_recv_efa_tokens as int) as u32,
            0u32,
        ]);
    }
    words
}

/// Lists all ranks.
fn list_ranks(world_size: usize) -> (ranks: Vec<usize>)
    ensures
        ranks@ == all_ranks(world_size as int),
{
    let mut ranks: Vec<usize> = Vec::new();
    let mut rank: usize = 0;
    while rank < world_size
        invariant
            rank <= world_size,
            ranks@ == all_ranks(rank as int),
        decreases world_size - rank,
    {
        ranks.push(rank);
        rank = rank + 1;
        proof {
            assert(ranks@ =~= all_ranks(rank as int));
        }
    }
    ranks
}

/// Lists the peer in each group.
fn list_group_peers(
    dp_size: usize,
    dp_rank: usize,
    num_dp_groups: usize,
    Ghost(c): Ghost<Cluster>,
) -> (peers: Vec<usize>)
    requires
        0 < dp_size,
        c.dp_size == dp_size,
        c.dp_rank == dp_rank,
        c.groups() == num_dp_groups,
        c.rank_of(c.groups() - 1) < c.world_size,
    ensures
        peers@ == group_peers(c),
{
    let mut peers: Vec<usize> = Vec::new();
    let mut peer_group: usize = 0;
    while peer_group < num_dp_groups
        invariant
            0 < dp_size,
            c.dp_size == dp_size,
            c.dp_rank == dp_rank,
            c.groups() == num_dp_groups,
            c.rank_of(c.groups() - 1) < c.world_size,
            peer_group <= num_dp_groups,
            peers@.len() == peer_group,
            forall|g: int| 0 <= g < peer_group ==> #[trigger] peers@[g] == c.rank_of(g) as usize,
        decreases num_dp_groups - peer_group,
    {
        proof {
            crate::traffic::lemma_group_at(c, peer_group as int);
            assert(0 <= peer_group * dp_size) by (nonlinear_arith);
        }
        peers.push(peer_group * dp_size + dp_rank);
        peer_group = peer_group + 1;
    }
    proof {
        assert(peers@ =~= group_peers(c));
    }
    peers
}

/// The tokens of the groups below are not fewer than none.
proof fn lemma_from_lower_nonneg(c: Cluster, t: RouteTable, max_private_tokens: int)
    requires
        0 <= max_private_tokens,
        0 <= c.groups(),
    ensures
        forall|p: int| 0 <= #[trigger] c.from_lower_groups_to(t, p),
        0 <= max_private_tokens * c.groups(),
{
    assert forall|p: int| 0 <= #[trigger] c.from_lower_groups_to(t, p) by {
        let group = p / c.dp_size as int;
        crate::routing::lemma_visited_sum_nonneg(
            t,
            crate::routing::ascending(c.dp_group as int),
            c.first_expert(group),
            c.last_expert(group),
            c.dp_group as int,
        );
    }
    assert(0 <= max_private_tokens * c.groups()) by (nonlinear_arith)
        requires
            0 <= max_private_tokens,
            0 <= c.groups(),
    ;
}

} // verus!
