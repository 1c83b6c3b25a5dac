//! The layout of the received tokens, as reported to callers.

use vstd::prelude::*;
use crate::arith::{ceil_div, min_usize};
use crate::cluster::{ordered_source_groups, Cluster};
use crate::receive_plan::{
    compute_receive_route_plan, lemma_order_is_listable, output_rows_match, runs_match,
    source_ranks_match,
};
use crate::routing::{covers, table, RouteTable};
use crate::traffic::{expert_totals_match, lemma_block, lemma_valid_sizes};

verus! {

/// Where the tokens of one exchange come from and where they end up on a rank.
#[derive(Debug, Clone, PartialEq)]
pub struct LowLatencyRouteLayoutPlan {
    /// The order in which the source groups are taken in.
    pub source_group_order: Vec<u32>,
    /// The rank that each token comes from.
    pub source_rank: Vec<u32>,
    /// The group that each token comes from.
    pub source_group: Vec<u32>,
    /// The row of the output that each token goes to.
    pub final_index: Vec<u32>,
    /// The tokens from each group for each local expert.
    pub tokens_per_source_group_per_local_expert: Vec<Vec<u32>>,
    /// The tokens for each local expert.
    pub tokens_per_expert: Vec<u32>,
    /// For each local expert and group, the packed run of rows that the group's tokens fill.
    pub layout_range: Vec<u64>,
    /// For each token, its index at its source as the device recorded it; empty in a plan that
    /// was not read back from a device.
    pub source_token_index: Vec<u32>,
    /// The number of tokens received.
    pub num_recv_tokens: usize,
}

impl LowLatencyRouteLayoutPlan {
    /// Whether this is the layout for the table, apart from what a device records.
    pub open spec fn matches(
        self,
        c: Cluster,
        t: RouteTable,
        expert_padding: int,
        max_tokens_per_expert: int,
    ) -> bool {
        &&& self.source_group_order@.len() == c.source_order().len()
        &&& forall|i: int|
            0 <= i < c.source_order().len() ==> #[trigger] self.source_group_order@[i]
                == c.source_order()[i] as u32
        &&& source_ranks_match(c, t, self.source_rank@, c.arrivals(t).len() as int)
        &&& self.source_group@.len() == self.source_rank@.len()
        &&& forall|p: int|
            0 <= p < self.source_rank@.len() ==> #[trigger] self.source_group@[p]
                == self.source_rank@[p] as int / (c.dp_size as u32) as int
        &&& output_rows_match(
            c,
            t,
            expert_padding,
            max_tokens_per_expert,
            self.final_index@,
            c.arrivals(t).len() as int,
        )
        &&& self.tokens_per_source_group_per_local_expert@.len() == c.groups()
        &&& forall|g: int|
            0 <= g < c.groups() ==> (
            #[trigger] self.tokens_per_source_group_per_local_expert@[g])@ == t[g].subrange(
                c.first_local(),
                c.last_local(),
            )
        &&& expert_totals_match(c, t, self.tokens_per_expert@)
        &&& self.num_recv_tokens == c.received(t)
    }
}

/// Computes the layout of the tokens that a rank receives.
pub fn compute_low_latency_route_layout_plan(
    dp_group: usize,
    dp_rank: usize,
    dp_size: usize,
    node_size: usize,
    world_size: usize,
    num_experts: usize,
    expert_padding: usize,
    max_tokens_per_expert: usize,
    max_private_tokens: usize,
    nets_per_gpu: u32,
    num_routed: &Vec<Vec<u32>>,
) -> (layout: LowLatencyRouteLayoutPlan)
    requires
        (Cluster { dp_group, dp_rank, dp_size, node_size, world_size, num_experts }).plannable(
            table(num_routed),
            expert_padding as int,
            max_tokens_per_expert as int,
            max_private_tokens as int,
            nets_per_gpu as int,
        ),
        (Cluster { dp_group, dp_rank, dp_size, node_size, world_size, num_experts }).received(
            table(num_routed),
        ) > 0 ==> dp_size as u32 != 0,
    ensures
        layout.matches(
            (Cluster { dp_group, dp_rank, dp_size, node_size, world_size, num_experts }),
            table(num_routed),
            expert_padding as int,
            max_tokens_per_expert as int,
        ),
        runs_match(
            (Cluster { dp_group, dp_rank, dp_size, node_size, world_size, num_experts }),
            table(num_routed),
            layout.layout_range@,
            (Cluster {
                dp_group,
                dp_rank,
                dp_size,
                node_size,
                world_size,
                num_experts,
            }).source_order().len() as int,
        ),
        layout.source_token_index@.len() == 0,
{
    let cluster = Cluster { dp_group, dp_rank, dp_size, node_size, world_size, num_experts };
    let ghost t = table(num_routed);
    let ghost order = cluster.source_order();
    proof {
        lemma_valid_sizes(cluster);
        lemma_block(cluster, dp_group as int);
        lemma_order_is_listable(cluster);
        assert(0 <= dp_group * dp_size) by (nonlinear_arith);
    }
    let num_dp_groups: usize = world_size / dp_size;
    let experts_per_rank: usize = ceil_div(num_experts, num_dp_groups);
    let first_local: usize = dp_group * experts_per_rank;
    let last_local: usize = min_usize(first_local + experts_per_rank, num_experts);
    let rank: usize = dp_group * dp_size + dp_rank;
    let rank_node: usize = rank / node_size;
    let groups_per_node: usize = node_size / dp_size;
    let num_nodes: usize = world_size / node_size;

    let plan = compute_receive_route_plan(
        dp_group,
        dp_rank,
        dp_size,
        node_size,
        world_size,
        num_experts,
        expert_padding,
        max_tokens_per_expert,
        max_private_tokens,
        nets_per_gpu,
        num_routed,
    );

    let source_groups = ordered_source_groups(dp_group, rank_node, groups_per_node, num_nodes);
    let ghost listed = source_groups@.map_values(|g: usize| g as int);
    let mut source_group_order: Vec<u32> = Vec::with_capacity(source_groups.len());
    let mut i: usize = 0;
    while i < source_groups.len()
        invariant
            i <= source_groups@.len(),
            listed == source_groups@.map_values(|g: usize| g as int),
            listed == order,
            source_group_order@.len() == i,
            forall|j: int|
                0 <= j < i ==> #[trigger] source_group_order@[j] == order[j] as u32,
        decreases source_groups@.len() - i,
    {
        proof {
            assert(listed[i as int] == source_groups@[i as int]);
        }
        source_group_order.push(source_groups[i] as u32);
        i = i + 1;
    }

    let mut tokens_per_source_group_per_local_expert: Vec<Vec<u32>> = Vec::with_capacity(
        num_dp_groups,
    );
    let mut source_group: usize = 0;
    while source_group < num_dp_groups
        invariant
            source_group <= num_dp_groups,
            num_dp_groups == cluster.groups(),
            first_local == cluster.first_local(),
            last_local == cluster.last_local(),
            first_local <= last_local <= num_experts,
            num_experts == cluster.num_experts,
            t == table(num_routed),
            covers(t, cluster),
            tokens_per_source_group_per_local_expert@.len() == source_group,
            forall|g: int|
                0 <= g < source_group ==> (
                #[trigger] tokens_per_source_group_per_local_expert@[g])@ == t[g].subrange(
                    first_local as int,
                    last_local as int,
                ),
        decreases num_dp_groups - source_group,
    {
        let mut counts: Vec<u32> = Vec::with_capacity(last_local - first_local);
        let mut expert: usize = first_local;
        proof {
            assert(t[source_group as int] == num_routed@[source_group as int]@);
        }
        while expert < last_local
            invariant
                first_local <= expert <= last_local,
                source_group < num_routed@.len(),
                last_local <= num_routed@[source_group as int]@.len(),
                t[source_group as int] == num_routed@[source_group as int]@,
                counts@ == t[source_group as int].subrange(first_local as int, expert as int),
            decreases last_local - expert,
        {
            counts.push(num_routed[source_group][expert]);
            expert = expert + 1;
            proof {
                assert(counts@ =~= t[source_group as int].subrange(
                    first_local as int,
                    expert as int,
                ));
            }
        }
        tokens_per_source_group_per_local_expert.push(counts);
        source_group = source_group + 1;
    }

    let mut source_group_of: Vec<u32> = Vec::with_capacity(plan.source_rank.len());
    let mut p: usize = 0;
    while p < plan.source_rank.len()
        invariant
            p <= plan.source_rank@.len(),
            plan.source_rank@.len() > 0 ==> dp_size as u32 != 0,
            source_group_of@.len() == p,
            forall|q: int|
                0 <= q < p ==> #[trigger] source_group_of@[q] == plan.source_rank@[q] as int / (
                dp_size as u32) as int,
        decreases plan.source_rank@.len() - p,
    {
        source_group_of.push(plan.source_rank[p] / dp_size as u32);
        p = p + 1;
    }

    LowLatencyRouteLayoutPlan {
        source_group_order,
        source_rank: plan.source_rank,
        source_group: source_group_of,
        final_index: plan.padded_index,
        tokens_per_source_group_per_local_expert,
        tokens_per_expert: plan.tokens_per_expert,
        layout_range: plan.layout_range,
        source_token_index: Vec::new(),
        num_recv_tokens: plan.num_recv_tokens,
    }
}

} // verus!
