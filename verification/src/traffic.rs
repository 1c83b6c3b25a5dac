//! How many tokens each group sends where: the totals behind a receive plan.

use vstd::prelude::*;
use vstd::arithmetic::div_mod::{lemma_fundamental_div_mod, lemma_fundamental_div_mod_converse};
use crate::arith::{ceil_div, lemma_ceil_div, min_spec, min_usize};
use crate::cluster::Cluster;
use crate::routing::{
    ascending, covers, lemma_row_sum_cell, lemma_row_sum_nonneg, lemma_row_sum_within,
    lemma_visited_sum_monotone, row_sum, table, visited_sum, RouteTable,
};

verus! {

impl Cluster {
    /// The completion messages that the peer in `group` sends to this rank: none within the
    /// node, else one for the private buffer and, where its tokens overflow that buffer, one
    /// per network interface for the rest.
    pub open spec fn messages_from(
        self,
        t: RouteTable,
        max_private_tokens: int,
        nets_per_gpu: int,
        group: int,
    ) -> int {
        if group != self.dp_group && group / self.groups_per_node() != self.rank_node() {
            1 + if self.from_group(t, group) > max_private_tokens {
                nets_per_gpu
            } else {
                0
            }
        } else {
            0
        }
    }

    /// The completion messages from the groups below `group`.
    pub open spec fn messages_below(
        self,
        t: RouteTable,
        max_private_tokens: int,
        nets_per_gpu: int,
        group: int,
    ) -> int
        decreases group,
    {
        if group <= 0 {
            0
        } else {
            self.messages_below(t, max_private_tokens, nets_per_gpu, group - 1)
                + self.messages_from(t, max_private_tokens, nets_per_gpu, group - 1)
        }
    }

    /// Whether the totals over the table fit the integers that hold them.
    pub open spec fn totals_fit(
        self,
        t: RouteTable,
        max_private_tokens: int,
        nets_per_gpu: int,
    ) -> bool {
        &&& self.first_local() <= self.num_experts
        &&& row_sum(t, self.dp_group as int, 0, self.num_experts as int) <= u32::MAX
        &&& forall|g: int|
            0 <= g < self.groups() ==> #[trigger] self.from_group_to_lower(t, g) <= u32::MAX
        &&& forall|g: int| 0 <= g < self.groups() ==> #[trigger] self.from_group(t, g) <= u32::MAX
        &&& forall|l: int|
            0 <= l < self.local_experts() ==> #[trigger] self.for_expert(t, l) <= u32::MAX
        &&& self.received(t) <= usize::MAX
        &&& self.messages_below(t, max_private_tokens, nets_per_gpu, self.groups()) <= u32::MAX
    }
}

/// The token totals of one exchange as one rank sees them.
pub struct GroupTraffic {
    pub tokens_from_group: Vec<u32>,
    pub src_group_offset: Vec<u32>,
    pub dst_group_offset: Vec<u32>,
    pub tokens_per_expert: Vec<u32>,
    pub num_recv_tokens: usize,
    pub num_recv_tx: u32,
    pub source_expert_offset: Vec<u32>,
    pub tokens_to_rank: Vec<u32>,
    pub dispatch_src_offset: Vec<u32>,
}

/// What each source group sends to this rank, and where its tokens start.
pub open spec fn group_totals_match(
    c: Cluster,
    t: RouteTable,
    tokens_from_group: Seq<u32>,
    src_group_offset: Seq<u32>,
    dst_group_offset: Seq<u32>,
) -> bool {
    &&& tokens_from_group.len() == c.groups()
    &&& src_group_offset.len() == c.groups()
    &&& dst_group_offset.len() == c.groups()
    &&& forall|g: int|
        0 <= g < c.groups() ==> #[trigger] tokens_from_group[g] == c.from_group(t, g)
    &&& forall|g: int|
        0 <= g < c.groups() ==> #[trigger] src_group_offset[g] == c.from_groups_below(t, g) as u32
    &&& forall|g: int|
        0 <= g < c.groups() ==> #[trigger] dst_group_offset[g] == c.from_group_to_lower(t, g)
}

/// What each local expert receives. Entries past the local experts are zero.
pub open spec fn expert_totals_match(
    c: Cluster,
    t: RouteTable,
    tokens_per_expert: Seq<u32>,
) -> bool {
    &&& tokens_per_expert.len() == c.experts_per_rank()
    &&& forall|l: int|
        0 <= l < c.experts_per_rank() ==> #[trigger] tokens_per_expert[l] == if l
            < c.local_experts() {
            c.for_expert(t, l)
        } else {
            0
        }
}

/// What this rank's group sends to each rank, and where those tokens start among all that it
/// sends. Ranks that are no group's peer get nothing.
pub open spec fn rank_totals_match(
    c: Cluster,
    t: RouteTable,
    tokens_to_rank: Seq<u32>,
    dispatch_src_offset: Seq<u32>,
) -> bool {
    &&& tokens_to_rank.len() == c.world_size
    &&& dispatch_src_offset.len() == c.world_size
    &&& forall|p: int|
        0 <= p < c.world_size ==> #[trigger] tokens_to_rank[p] == if c.group_at(p) >= 0 {
            c.to_group(t, c.group_at(p))
        } else {
            0
        }
    &&& forall|p: int|
        0 <= p < c.world_size ==> #[trigger] dispatch_src_offset[p] == if c.group_at(p) >= 0 {
            c.to_groups_below(t, c.group_at(p))
        } else {
            0
        }
}

/// Facts about the sizes of a valid cluster.
pub proof fn lemma_valid_sizes(c: Cluster)
    requires
        c.valid(),
    ensures
        1 <= c.groups() <= c.world_size,
        1 <= c.groups_per_node() <= c.node_size,
        0 < c.node_size,
        c.dp_group < c.groups(),
        c.source_order().len() >= 1,
        c.source_order()[c.source_order().len() - 1] == c.dp_group,
        0 <= c.experts_per_rank() <= c.num_experts,
        c.num_experts <= c.groups() * c.experts_per_rank() < c.num_experts + c.groups(),
        0 <= c.rank() < c.world_size,
        0 <= c.rank_node(),
        0 <= c.first_local(),
        c.first_local() + c.experts_per_rank() <= usize::MAX,
{
    let dp = c.dp_size as int;
    let order = c.source_order();
    lemma_fundamental_div_mod(c.world_size as int, dp);
    assert(1 <= c.groups() <= c.world_size) by (nonlinear_arith)
        requires
            c.world_size == dp * c.groups() + c.world_size as int % dp,
            0 <= c.world_size as int % dp < dp,
            0 < dp <= c.world_size,
    ;
    lemma_fundamental_div_mod(c.node_size as int, dp);
    assert(1 <= c.groups_per_node() <= c.node_size) by (nonlinear_arith)
        requires
            c.node_size == dp * c.groups_per_node() + c.node_size as int % dp,
            0 <= c.node_size as int % dp < dp,
            0 < dp <= c.node_size,
    ;
    assert(order[order.len() - 1] == c.dp_group);
    lemma_ceil_div(c.num_experts as int, c.groups());
    assert(c.groups() * c.experts_per_rank() == c.experts_per_rank() * c.groups())
        by (nonlinear_arith);
    assert(c.dp_group * dp <= (c.groups() - 1) * dp) by (nonlinear_arith)
        requires
            c.dp_group <= c.groups() - 1,
            0 < dp,
    ;
    assert(0 <= c.dp_group * dp) by (nonlinear_arith)
        requires
            0 <= c.dp_group,
            0 < dp,
    ;
    assert(0 <= c.rank_node()) by (nonlinear_arith)
        requires
            c.rank_node() == c.rank() / c.node_size as int,
            0 <= c.rank(),
            0 < c.node_size,
    ;
    lemma_block(c, c.dp_group as int);
}

/// The expert block of a group ends where the next one starts.
pub proof fn lemma_block(c: Cluster, group: int)
    requires
        0 <= group < c.groups(),
        0 <= c.experts_per_rank(),
    ensures
        0 <= c.first_expert(group),
        c.first_expert(group + 1) == c.first_expert(group) + c.experts_per_rank(),
        c.first_expert(group + 1) <= c.groups() * c.experts_per_rank(),
{
    let e = c.experts_per_rank();
    assert((group + 1) * e == group * e + e) by (nonlinear_arith);
    assert(0 <= group * e) by (nonlinear_arith)
        requires
            0 <= group,
            0 <= e,
    ;
    assert((group + 1) * e <= c.groups() * e) by (nonlinear_arith)
        requires
            group + 1 <= c.groups(),
            0 <= e,
    ;
}

/// The peer of a group is a rank, and leads back to the group.
pub proof fn lemma_group_at(c: Cluster, group: int)
    requires
        0 < c.dp_size,
        0 <= group < c.groups(),
    ensures
        c.group_at(c.rank_of(group)) == group,
        0 <= c.rank_of(group),
        c.rank_of(group) <= c.rank_of(c.groups() - 1),
{
    let dp = c.dp_size as int;
    assert(0 <= group * dp <= (c.groups() - 1) * dp) by (nonlinear_arith)
        requires
            0 <= group <= c.groups() - 1,
            0 < dp,
    ;
    lemma_fundamental_div_mod_converse(group * dp, dp, group, 0);
}

/// A rank that leads to a group is that group's peer.
pub proof fn lemma_rank_of_group_at(c: Cluster, rank: int)
    requires
        0 < c.dp_size,
        0 <= c.group_at(rank),
    ensures
        c.group_at(rank) < c.groups(),
        c.rank_of(c.group_at(rank)) == rank,
{
    let dp = c.dp_size as int;
    lemma_fundamental_div_mod(rank - c.dp_rank, dp);
    assert(c.group_at(rank) * dp == dp * c.group_at(rank)) by (nonlinear_arith);
}

/// Adds up the cells of one row.
pub fn sum_row(num_routed: &Vec<Vec<u32>>, group: usize, lo: usize, hi: usize) -> (sum: u32)
    requires
        group < num_routed@.len(),
        lo < hi ==> hi <= num_routed@[group as int]@.len(),
        row_sum(table(num_routed), group as int, lo as int, hi as int) <= u32::MAX,
    ensures
        sum == row_sum(table(num_routed), group as int, lo as int, hi as int),
{
    let ghost t = table(num_routed);
    let mut sum: u32 = 0;
    let mut expert: usize = lo;
    while expert < hi
        invariant
            lo <= expert,
            expert == lo || expert <= hi,
            group < num_routed@.len(),
            lo < hi ==> hi <= num_routed@[group as int]@.len(),
            t == table(num_routed),
            row_sum(t, group as int, lo as int, hi as int) <= u32::MAX,
            sum == row_sum(t, group as int, lo as int, expert as int),
        decreases hi - expert,
    {
        proof {
            lemma_row_sum_within(t, group as int, lo as int, hi as int, lo as int, expert + 1);
            assert(t[group as int][expert as int] == num_routed@[group as int]@[expert as int]);
        }
        sum = sum + num_routed[group][expert];
        expert = expert + 1;
    }
    sum
}

/// Records what this rank's group sends to one group: the tokens for the peer rank, where they
/// start, and where those of each expert start.
fn record_outgoing(
    cluster: Cluster,
    num_routed: &Vec<Vec<u32>>,
    group: usize,
    experts_per_rank: usize,
    rank_offset: u32,
    source_expert_offset: &mut Vec<u32>,
    tokens_to_rank: &mut Vec<u32>,
    dispatch_src_offset: &mut Vec<u32>,
) -> (next_offset: u32)
    requires
        cluster.valid(),
        covers(table(num_routed), cluster),
        group < cluster.groups(),
        experts_per_rank == cluster.experts_per_rank(),
        row_sum(
            table(num_routed),
            cluster.dp_group as int,
            0,
            cluster.num_experts as int,
        ) <= u32::MAX,
        rank_offset == cluster.to_groups_below(table(num_routed), group as int),
        old(source_expert_offset)@.len() == cluster.num_experts,
        old(tokens_to_rank)@.len() == cluster.world_size,
        old(dispatch_src_offset)@.len() == cluster.world_size,
        old(tokens_to_rank)@[cluster.rank_of(group as int)] == 0,
    ensures
        next_offset == cluster.to_groups_below(table(num_routed), group + 1),
        final(tokens_to_rank)@ == old(tokens_to_rank)@.update(
            cluster.rank_of(group as int),
            cluster.to_group(table(num_routed), group as int) as u32,
        ),
        0 <= cluster.to_group(table(num_routed), group as int) <= u32::MAX,
        final(dispatch_src_offset)@ == old(dispatch_src_offset)@.update(
            cluster.rank_of(group as int),
            rank_offset,
        ),
        final(source_expert_offset)@.len() == cluster.num_experts,
        forall|e: int|
            0 <= e < cluster.num_experts ==> #[trigger] final(source_expert_offset)@[e]
                == if cluster.first_expert(group as int) <= e < cluster.last_expert(
                group as int,
            ) {
                row_sum(table(num_routed), cluster.dp_group as int, 0, e)
            } else {
                old(source_expert_offset)@[e] as int
            },
{
    let ghost t = table(num_routed);
    let ghost g = cluster.dp_group as int;
    let ghost total = cluster.num_experts as int;
    proof {
        lemma_valid_sizes(cluster);
        lemma_block(cluster, group as int);
        lemma_group_at(cluster, group as int);
        lemma_row_sum_nonneg(
            t,
            g,
            cluster.first_expert(group as int),
            cluster.last_expert(group as int),
        );
        assert(0 <= group * cluster.dp_size) by (nonlinear_arith);
    }
    let source_rank: usize = group * cluster.dp_size + cluster.dp_rank;
    dispatch_src_offset.set(source_rank, rank_offset);
    let first_expert: usize = group * experts_per_rank;
    let last_expert: usize = min_usize(first_expert + experts_per_rank, cluster.num_experts);
    let ghost before = tokens_to_rank@;
    let ghost offsets = source_expert_offset@;
    let mut offset: u32 = rank_offset;
    let mut expert: usize = first_expert;
    while expert < last_expert
        invariant
            first_expert <= expert,
            expert == first_expert || expert <= last_expert,
            first_expert == cluster.first_expert(group as int),
            last_expert == cluster.last_expert(group as int),
            last_expert <= cluster.num_experts,
            total == cluster.num_experts,
            g == cluster.dp_group,
            0 <= g < cluster.groups(),
            t == table(num_routed),
            covers(t, cluster),
            row_sum(t, g, 0, total) <= u32::MAX,
            first_expert < last_expert ==> offset == row_sum(t, g, 0, expert as int),
            first_expert >= last_expert ==> offset == rank_offset,
            source_rank == cluster.rank_of(group as int),
            source_rank < cluster.world_size,
            before.len() == cluster.world_size,
            before[source_rank as int] == 0,
            0 <= row_sum(t, g, first_expert as int, expert as int) <= u32::MAX,
            tokens_to_rank@ == before.update(
                source_rank as int,
                row_sum(t, g, first_expert as int, expert as int) as u32,
            ),
            source_expert_offset@.len() == cluster.num_experts,
            offsets.len() == cluster.num_experts,
            forall|e: int|
                0 <= e < cluster.num_experts ==> #[trigger] source_expert_offset@[e]
                    == if first_expert <= e < expert {
                    row_sum(t, g, 0, e)
                } else {
                    offsets[e] as int
                },
        decreases last_expert - expert,
    {
        proof {
            lemma_row_sum_within(t, g, 0, total, 0, expert + 1);
            lemma_row_sum_within(t, g, 0, total, first_expert as int, expert + 1);
            lemma_row_sum_nonneg(t, g, first_expert as int, expert + 1);
            lemma_row_sum_nonneg(t, g, 0, expert as int);
            assert(t[g] == num_routed@[g]@);
        }
        let n: u32 = num_routed[cluster.dp_group][expert];
        source_expert_offset.set(expert, offset);
        let tokens: u32 = tokens_to_rank[source_rank];
        tokens_to_rank.set(source_rank, tokens + n);
        offset = offset + n;
        expert = expert + 1;
        proof {
            assert(tokens_to_rank@ =~= before.update(
                source_rank as int,
                row_sum(t, g, first_expert as int, expert as int) as u32,
            ));
        }
    }
    proof {
        if first_expert >= last_expert {
            assert(min_spec(cluster.first_expert(group as int), total) == min_spec(
                cluster.first_expert(group + 1),
                total,
            ));
        }
        lemma_row_sum_within(
            t,
            g,
            0,
            total,
            cluster.first_expert(group as int),
            cluster.last_expert(group as int),
        );
    }
    offset
}

/// Adds what one group sends to each local expert, and gives the sum.
fn record_incoming(
    cluster: Cluster,
    num_routed: &Vec<Vec<u32>>,
    group: usize,
    first_local: usize,
    last_local: usize,
    tokens_per_expert: &mut Vec<u32>,
) -> (num_tokens: usize)
    requires
        cluster.valid(),
        covers(table(num_routed), cluster),
        group < cluster.groups(),
        first_local == cluster.first_local(),
        last_local == cluster.last_local(),
        first_local <= last_local,
        cluster.from_group(table(num_routed), group as int) <= u32::MAX,
        forall|l: int|
            0 <= l < cluster.local_experts() ==> #[trigger] cluster.for_expert(
                table(num_routed),
                l,
            ) <= u32::MAX,
        old(tokens_per_expert)@.len() == cluster.experts_per_rank(),
        forall|l: int|
            0 <= l < cluster.experts_per_rank() ==> #[trigger] old(tokens_per_expert)@[l] == if l
                < cluster.local_experts() {
                visited_sum(
                    table(num_routed),
                    ascending(cluster.groups()),
                    first_local + l,
                    first_local + l + 1,
                    group as int,
                )
            } else {
                0
            },
    ensures
        num_tokens == cluster.from_group(table(num_routed), group as int),
        final(tokens_per_expert)@.len() == cluster.experts_per_rank(),
        forall|l: int|
            0 <= l < cluster.experts_per_rank() ==> #[trigger] final(tokens_per_expert)@[l]
                == if l < cluster.local_experts() {
                visited_sum(
                    table(num_routed),
                    ascending(cluster.groups()),
                    first_local + l,
                    first_local + l + 1,
                    group + 1,
                )
            } else {
                0
            },
{
    let ghost t = table(num_routed);
    let ghost g = group as int;
    let ghost order = ascending(cluster.groups());
    let ghost groups = cluster.groups();
    let mut num_tokens: usize = 0;
    let mut expert: usize = first_local;
    while expert < last_local
        invariant
            first_local <= expert <= last_local <= cluster.num_experts,
            first_local == cluster.first_local(),
            last_local == cluster.last_local(),
            cluster.local_experts() <= cluster.experts_per_rank(),
            t == table(num_routed),
            g == group,
            groups == cluster.groups(),
            0 <= g < groups,
            order == ascending(groups),
            covers(t, cluster),
            cluster.from_group(t, g) <= u32::MAX,
            forall|l: int|
                0 <= l < cluster.local_experts() ==> #[trigger] cluster.for_expert(t, l)
                    <= u32::MAX,
            num_tokens == row_sum(t, g, first_local as int, expert as int),
            tokens_per_expert@.len() == cluster.experts_per_rank(),
            forall|l: int|
                0 <= l < cluster.experts_per_rank() ==> #[trigger] tokens_per_expert@[l] == if l
                    < cluster.local_experts() {
                    visited_sum(
                        t,
                        order,
                        first_local + l,
                        first_local + l + 1,
                        if first_local + l < expert { g + 1 } else { g },
                    )
                } else {
                    0
                },
        decreases last_local - expert,
    {
        let local_expert: usize = expert - first_local;
        proof {
            let l = local_expert as int;
            lemma_row_sum_within(
                t,
                g,
                first_local as int,
                last_local as int,
                first_local as int,
                expert + 1,
            );
            lemma_row_sum_cell(t, g, expert as int);
            assert(cluster.for_expert(t, l) <= u32::MAX);
            lemma_visited_sum_monotone(t, order, first_local + l, first_local + l + 1, g + 1, groups);
            assert(t[g] == num_routed@[g]@);
        }
        let n: u32 = num_routed[group][expert];
        num_tokens = num_tokens + n as usize;
        let tokens: u32 = tokens_per_expert[local_expert];
        tokens_per_expert.set(local_expert, tokens + n);
        expert = expert + 1;
    }
    num_tokens
}

/// Adds up the table as this rank needs it.
pub fn count_group_traffic(
    cluster: Cluster,
    num_routed: &Vec<Vec<u32>>,
    max_private_tokens: usize,
    nets_per_gpu: u32,
) -> (traffic: GroupTraffic)
    requires
        cluster.valid(),
        covers(table(num_routed), cluster),
        cluster.totals_fit(table(num_routed), max_private_tokens as int, nets_per_gpu as int),
    ensures
        group_totals_match(
            cluster,
            table(num_routed),
            traffic.tokens_from_group@,
            traffic.src_group_offset@,
            traffic.dst_group_offset@,
        ),
        expert_totals_match(cluster, table(num_routed), traffic.tokens_per_expert@),
        rank_totals_match(
            cluster,
            table(num_routed),
            traffic.tokens_to_rank@,
            traffic.dispatch_src_offset@,
        ),
        traffic.num_recv_tokens == cluster.received(table(num_routed)),
        traffic.num_recv_tx == cluster.messages_below(
            table(num_routed),
            max_private_tokens as int,
            nets_per_gpu as int,
            cluster.groups(),
        ),
        traffic.source_expert_offset@.len() == cluster.num_experts,
        forall|e: int|
            0 <= e < cluster.num_experts ==> #[trigger] traffic.source_expert_offset@[e]
                == row_sum(table(num_routed), cluster.dp_group as int, 0, e),
{
    let ghost t = table(num_routed);
    let ghost maxp = max_private_tokens as int;
    let ghost nets = nets_per_gpu as int;
    proof {
        lemma_valid_sizes(cluster);
        lemma_block(cluster, cluster.dp_group as int);
        assert(0 <= cluster.dp_group * cluster.dp_size) by (nonlinear_arith);
    }
    let num_dp_groups: usize = cluster.world_size / cluster.dp_size;
    let experts_per_rank: usize = ceil_div(cluster.num_experts, num_dp_groups);
    let first_local: usize = cluster.dp_group * experts_per_rank;
    let last_local: usize = min_usize(first_local + experts_per_rank, cluster.num_experts);
    let rank: usize = cluster.dp_group * cluster.dp_size + cluster.dp_rank;
    let rank_node: usize = rank / cluster.node_size;
    let groups_per_node: usize = cluster.node_size / cluster.dp_size;

    let mut tokens_from_group: Vec<u32> = Vec::with_capacity(num_dp_groups);
    let mut src_group_offset: Vec<u32> = Vec::with_capacity(num_dp_groups);
    let mut dst_group_offset: Vec<u32> = Vec::with_capacity(num_dp_groups);
    let mut tokens_per_expert: Vec<u32> = vec![0u32; experts_per_rank];
    let mut num_recv_tokens: usize = 0;
    let mut num_recv_tx: u32 = 0;
    let mut source_expert_offset: Vec<u32> = vec![0u32; cluster.num_experts];
    let mut tokens_to_rank: Vec<u32> = vec![0u32; cluster.world_size];
    let mut dispatch_src_offset: Vec<u32> = vec![0u32; cluster.world_size];
    let mut rank_offset: u32 = 0;
    let mut src_group: usize = 0;
    proof {
        assert(cluster.first_expert(0) == 0) by (nonlinear_arith)
            requires
                cluster.first_expert(0) == 0 * cluster.experts_per_rank(),
        ;
    }
    while src_group < num_dp_groups
        invariant
            src_group <= num_dp_groups,
            num_dp_groups == cluster.groups(),
            experts_per_rank == cluster.experts_per_rank(),
            first_local == cluster.first_local(),
            last_local == cluster.last_local(),
            first_local <= last_local,
            rank_node == cluster.rank_node(),
            groups_per_node == cluster.groups_per_node(),
            0 < groups_per_node,
            t == table(num_routed),
            maxp == max_private_tokens,
            nets == nets_per_gpu,
            cluster.valid(),
            covers(t, cluster),
            cluster.totals_fit(t, maxp, nets),
            tokens_from_group@.len() == src_group,
            src_group_offset@.len() == src_group,
            dst_group_offset@.len() == src_group,
            forall|g: int|
                0 <= g < src_group ==> #[trigger] tokens_from_group@[g] == cluster.from_group(
                    t,
                    g,
                ),
            forall|g: int|
                0 <= g < src_group ==> #[trigger] src_group_offset@[g]
                    == cluster.from_groups_below(t, g) as u32,
            forall|g: int|
                0 <= g < src_group ==> #[trigger] dst_group_offset@[g]
                    == cluster.from_group_to_lower(t, g),
            tokens_per_expert@.len() == cluster.experts_per_rank(),
            forall|l: int|
                0 <= l < cluster.experts_per_rank() ==> #[trigger] tokens_per_expert@[l] == if l
                    < cluster.local_experts() {
                    visited_sum(
                        t,
                        ascending(cluster.groups()),
                        first_local + l,
                        first_local + l + 1,
                        src_group as int,
                    )
                } else {
                    0
                },
            num_recv_tokens == cluster.from_groups_below(t, src_group as int),
            num_recv_tx == cluster.messages_below(t, maxp, nets, src_group as int),
            rank_offset == cluster.to_groups_below(t, src_group as int),
            source_expert_offset@.len() == cluster.num_experts,
            forall|e: int|
                0 <= e < cluster.num_experts && e < cluster.first_expert(src_group as int)
                    ==> #[trigger] source_expert_offset@[e] == row_sum(
                    t,
                    cluster.dp_group as int,
                    0,
                    e,
                ),
            tokens_to_rank@.len() == cluster.world_size,
            dispatch_src_offset@.len() == cluster.world_size,
            forall|p: int|
                0 <= p < cluster.world_size ==> #[trigger] tokens_to_rank@[p] == if 0
                    <= cluster.group_at(p) < src_group {
                    cluster.to_group(t, cluster.group_at(p))
                } else {
                    0
                },
            forall|p: int|
                0 <= p < cluster.world_size ==> #[trigger] dispatch_src_offset@[p] == if 0
                    <= cluster.group_at(p) < src_group {
                    cluster.to_groups_below(t, cluster.group_at(p))
                } else {
                    0
                },
        decreases num_dp_groups - src_group,
    {
        let ghost s = src_group as int;
        let ghost peer = cluster.rank_of(s);
        let ghost sent_before = tokens_to_rank@;
        proof {
            lemma_group_at(cluster, s);
            lemma_block(cluster, s);
            lemma_valid_sizes(cluster);
            assert(cluster.from_group(t, s) <= u32::MAX);
            assert(cluster.from_group_to_lower(t, s) <= u32::MAX);
            lemma_visited_sum_monotone(
                t,
                ascending(cluster.groups()),
                cluster.first_local(),
                cluster.last_local(),
                s + 1,
                cluster.groups(),
            );
            lemma_messages_monotone(cluster, t, maxp, nets, s + 1, cluster.groups());
            assert forall|p: int|
                0 <= p < cluster.world_size && p != peer implies cluster.group_at(p) != s by {
                if cluster.group_at(p) == s {
                    lemma_rank_of_group_at(cluster, p);
                }
            }
            assert(sent_before[peer] == 0);
        }
        let group_node: usize = src_group / groups_per_node;
        rank_offset = record_outgoing(
            cluster,
            num_routed,
            src_group,
            experts_per_rank,
            rank_offset,
            &mut source_expert_offset,
            &mut tokens_to_rank,
            &mut dispatch_src_offset,
        );
        let offset: u32 = sum_row(num_routed, src_group, 0, first_local);
        dst_group_offset.push(offset);
        let num_tokens: usize = record_incoming(
            cluster,
            num_routed,
            src_group,
            first_local,
            last_local,
            &mut tokens_per_expert,
        );
        tokens_from_group.push(num_tokens as u32);
        src_group_offset.push(num_recv_tokens as u32);
        num_recv_tokens = num_recv_tokens + num_tokens;
        if src_group != cluster.dp_group && group_node != rank_node {
            num_recv_tx = num_recv_tx + 1;
            if num_tokens > max_private_tokens {
                num_recv_tx = num_recv_tx + nets_per_gpu;
            }
        }
        src_group = src_group + 1;
    }
    GroupTraffic {
        tokens_from_group,
        src_group_offset,
        dst_group_offset,
        tokens_per_expert,
        num_recv_tokens,
        num_recv_tx,
        source_expert_offset,
        tokens_to_rank,
        dispatch_src_offset,
    }
}

pub proof fn lemma_messages_monotone(
    c: Cluster,
    t: RouteTable,
    max_private_tokens: int,
    nets_per_gpu: int,
    m: int,
    n: int,
)
    requires
        m <= n,
        0 <= nets_per_gpu,
    ensures
        0 <= c.messages_below(t, max_private_tokens, nets_per_gpu, m) <= c.messages_below(
            t,
            max_private_tokens,
            nets_per_gpu,
            n,
        ),
    decreases n,
{
    if n > 0 {
        if m < n {
            lemma_messages_monotone(c, t, max_private_tokens, nets_per_gpu, m, n - 1);
        } else {
            lemma_messages_monotone(c, t, max_private_tokens, nets_per_gpu, n - 1, n - 1);
        }
    }
}

} // verus!
