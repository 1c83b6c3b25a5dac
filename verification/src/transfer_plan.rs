//! The transfers between nodes: which tokens a rank writes to which peer, and where.

use vstd::prelude::*;
use vstd::arithmetic::div_mod::{lemma_fundamental_div_mod, lemma_fundamental_div_mod_converse};
use crate::arith::{ceil_div, ceil_div_spec, lemma_ceil_div, min_spec, min_usize};
use crate::cluster::Cluster;
use crate::receive_plan::ReceiveRoutePlan;
use crate::routing::{
    ascending, lemma_row_sum_nonneg, lemma_row_sum_split, lemma_row_sum_within,
    lemma_visited_sum_monotone, row_sum, table, visited_sum, RouteTable,
};
use crate::traffic::{lemma_block, lemma_group_at, lemma_rank_of_group_at};

verus! {

/// One run of tokens to write to a peer.
#[derive(Debug, PartialEq)]
pub struct RemoteTransferPlan {
    pub peer_rank: usize,
    pub length_tokens: usize,
    pub src_token_offset: u64,
    pub dst_token_offset: u64,
}

impl Cluster {
    /// Whether this rank and its peers have a place among the ranks.
    pub open spec fn placed(self) -> bool {
        &&& 0 < self.dp_size <= self.world_size
        &&& 0 < self.node_size
        &&& self.rank_of(self.groups() - 1) < self.world_size
        &&& self.dp_group < self.groups()
        &&& self.addressable()
    }

    /// The number of other nodes.
    pub open spec fn other_nodes(self) -> int {
        if self.nodes() >= 1 {
            self.nodes() - 1
        } else {
            0
        }
    }

    /// The number of ranks of a node that exchange tokens with this rank.
    pub open spec fn peers_per_node(self) -> int {
        if self.dp_rank < self.node_size {
            ceil_div_spec(self.node_size - self.dp_rank, self.dp_size as int)
        } else {
            0
        }
    }

    /// The peers on the other nodes, node after node, starting with the node after this one.
    pub open spec fn remote_peers(self) -> Seq<int> {
        Seq::new(
            (self.other_nodes() * self.peers_per_node()) as nat,
            |i: int|
                ((self.rank_node() + 1 + i / self.peers_per_node()) * self.node_size
                    + self.dp_rank + i % self.peers_per_node() * self.dp_size)
                    % self.world_size as int,
        )
    }

    /// The groups on the other nodes, node after node, starting with the node after this one.
    pub open spec fn remote_groups(self) -> Seq<int> {
        Seq::new(
            (self.other_nodes() * self.groups_per_node()) as nat,
            |i: int|
                ((self.rank_node() + 1 + i / self.groups_per_node()) * self.groups_per_node() + i
                    % self.groups_per_node()) % self.groups(),
        )
    }

    /// The tokens that this rank's group sends to `rank`.
    pub open spec fn to_rank(self, t: RouteTable, rank: int) -> int {
        if self.group_at(rank) >= 0 {
            self.to_group(t, self.group_at(rank))
        } else {
            0
        }
    }

    /// Where the tokens for `rank` start among all that this rank's group sends.
    pub open spec fn to_rank_start(self, t: RouteTable, rank: int) -> int {
        if self.group_at(rank) >= 0 {
            self.to_groups_below(t, self.group_at(rank))
        } else {
            0
        }
    }

    /// The tokens that the groups below this rank's group send to the group of `rank`.
    pub open spec fn from_lower_groups_to(self, t: RouteTable, rank: int) -> int {
        let group = rank / self.dp_size as int;
        visited_sum(
            t,
            ascending(self.dp_group as int),
            self.first_expert(group),
            self.last_expert(group),
            self.dp_group as int,
        )
    }
}

/// The first transfer to a peer: as many tokens as its private buffer for this group holds.
pub open spec fn initial_transfer(
    c: Cluster,
    t: RouteTable,
    max_private_tokens: int,
    peer_rank: int,
) -> RemoteTransferPlan {
    RemoteTransferPlan {
        peer_rank: peer_rank as usize,
        length_tokens: min_spec(c.to_rank(t, peer_rank), max_private_tokens) as usize,
        src_token_offset: c.to_rank_start(t, peer_rank) as u64,
        dst_token_offset: (c.dp_group * max_private_tokens) as u64,
    }
}

/// The second transfer to a peer: the tokens that its private buffer does not hold, into the
/// shared part of its buffer, behind those of the lower groups.
pub open spec fn overflow_transfer(
    c: Cluster,
    t: RouteTable,
    plan: ReceiveRoutePlan,
    max_private_tokens: int,
    peer_rank: int,
) -> RemoteTransferPlan {
    RemoteTransferPlan {
        peer_rank: peer_rank as usize,
        length_tokens: (plan.tokens_to_rank@[peer_rank] - max_private_tokens) as usize,
        src_token_offset: (max_private_tokens + plan.dispatch_src_offset@[peer_rank]) as u64,
        dst_token_offset: (max_private_tokens * c.groups() + c.from_lower_groups_to(
            t,
            peer_rank,
        )) as u64,
    }
}

/// The second transfers to the first `n` of the remote peers, for those that need one.
pub open spec fn overflow_transfers(
    c: Cluster,
    t: RouteTable,
    plan: ReceiveRoutePlan,
    max_private_tokens: int,
    n: int,
) -> Seq<RemoteTransferPlan>
    decreases n,
{
    if n <= 0 {
        Seq::empty()
    } else {
        let before = overflow_transfers(c, t, plan, max_private_tokens, n - 1);
        let peer_rank = c.remote_peers()[n - 1];
        if plan.tokens_to_rank@[peer_rank] > max_private_tokens {
            before.push(overflow_transfer(c, t, plan, max_private_tokens, peer_rank))
        } else {
            before
        }
    }
}

/// The transfer that sends the results for a group's tokens back to its peer.
pub open spec fn combine_transfer(
    c: Cluster,
    plan: ReceiveRoutePlan,
    group: int,
) -> RemoteTransferPlan {
    RemoteTransferPlan {
        peer_rank: c.rank_of(group) as usize,
        length_tokens: plan.tokens_from_group@[group] as usize,
        src_token_offset: plan.src_group_offset@[group] as u64,
        dst_token_offset: plan.dst_group_offset@[group] as u64,
    }
}

/// Facts about the sizes of a cluster in which this rank has a place.
pub proof fn lemma_placed_sizes(c: Cluster)
    requires
        c.placed(),
    ensures
        1 <= c.groups() <= c.world_size,
        0 <= c.groups_per_node() <= c.node_size,
        0 <= c.experts_per_rank() <= c.num_experts,
        c.num_experts <= c.groups() * c.experts_per_rank() < c.num_experts + c.groups(),
        0 <= c.rank() < c.world_size,
        0 <= c.rank_node() * c.node_size <= c.rank(),
        0 <= c.rank_node() <= c.rank(),
        0 <= c.nodes() * c.node_size <= c.world_size,
        0 <= c.nodes() <= c.world_size,
        0 <= c.other_nodes() * c.node_size <= c.world_size,
        0 <= c.peers_per_node() <= c.node_size,
        c.other_nodes() > 0 ==> c.node_size <= c.world_size,
{
    let dp = c.dp_size as int;
    let node = c.node_size as int;
    lemma_fundamental_div_mod(c.world_size as int, dp);
    assert(1 <= c.groups() <= c.world_size) by (nonlinear_arith)
        requires
            c.world_size == dp * c.groups() + c.world_size as int % dp,
            0 <= c.world_size as int % dp < dp,
            0 < dp <= c.world_size,
    ;
    lemma_fundamental_div_mod(node, dp);
    assert(0 <= c.groups_per_node() <= node) by (nonlinear_arith)
        requires
            node == dp * c.groups_per_node() + node % dp,
            0 <= node % dp < dp,
            0 < dp,
            0 < node,
    ;
    lemma_ceil_div(c.num_experts as int, c.groups());
    assert(c.groups() * c.experts_per_rank() == c.experts_per_rank() * c.groups())
        by (nonlinear_arith);
    assert(0 <= c.dp_group * dp <= (c.groups() - 1) * dp) by (nonlinear_arith)
        requires
            0 <= c.dp_group <= c.groups() - 1,
            0 < dp,
    ;
    lemma_fundamental_div_mod(c.rank(), node);
    assert(0 <= c.rank_node() * node <= c.rank() && 0 <= c.rank_node() <= c.rank())
        by (nonlinear_arith)
        requires
            c.rank() == node * c.rank_node() + c.rank() % node,
            0 <= c.rank() % node < node,
            0 < node,
            0 <= c.rank(),
    ;
    lemma_fundamental_div_mod(c.world_size as int, node);
    assert(0 <= c.nodes() * node <= c.world_size && 0 <= c.nodes() <= c.world_size)
        by (nonlinear_arith)
        requires
            c.world_size == node * c.nodes() + c.world_size as int % node,
            0 <= c.world_size as int % node < node,
            0 < node,
            0 <= c.world_size,
    ;
    assert((c.nodes() - 1) * node == c.nodes() * node - node) by (nonlinear_arith);
    if c.nodes() >= 1 {
        assert(0 <= (c.nodes() - 1) * node) by (nonlinear_arith)
            requires
                0 <= c.nodes() - 1,
                0 < node,
        ;
    }
    if c.dp_rank < c.node_size {
        lemma_ceil_div(node - c.dp_rank, dp);
    }
}

/// A remote peer is a rank, and its place can be computed without overflow.
proof fn lemma_remote_peer(c: Cluster, peer_node: int, index: int)
    requires
        c.placed(),
        0 < peer_node <= c.other_nodes(),
        0 <= index < c.node_size,
    ensures
        0 <= (c.rank_node() + peer_node) * c.node_size,
        (c.rank_node() + peer_node) * c.node_size + index < 2 * c.world_size,
{
    lemma_placed_sizes(c);
    let node = c.node_size as int;
    assert((c.rank_node() + peer_node) * node == c.rank_node() * node + peer_node * node)
        by (nonlinear_arith);
    assert(0 <= peer_node * node && peer_node * node + node <= c.nodes() * node)
        by (nonlinear_arith)
        requires
            0 < peer_node,
            peer_node + 1 <= c.nodes(),
            0 < node,
    ;
}

/// Lists the peers on the other nodes.
pub fn list_remote_peers(cluster: Cluster) -> (peers: Vec<usize>)
    requires
        cluster.placed(),
    ensures
        peers@.map_values(|p: usize| p as int) == cluster.remote_peers(),
        forall|i: int| 0 <= i < peers@.len() ==> #[trigger] peers@[i] < cluster.world_size,
{
    let dp_size: usize = cluster.dp_size;
    let node_size: usize = cluster.node_size;
    let world_size: usize = cluster.world_size;
    let ghost order = cluster.remote_peers();
    let ghost per_node = cluster.peers_per_node();
    proof {
        lemma_placed_sizes(cluster);
        assert(0 <= cluster.dp_group * dp_size) by (nonlinear_arith);
        assert(0 <= cluster.other_nodes() * per_node) by (nonlinear_arith)
            requires
                0 <= cluster.other_nodes(),
                0 <= per_node,
        ;
        assert(0 * per_node == 0) by (nonlinear_arith);
    }
    let rank: usize = cluster.dp_group * dp_size + cluster.dp_rank;
    let rank_node: usize = rank / node_size;
    let num_nodes: usize = world_size / node_size;
    let mut peers: Vec<usize> = Vec::with_capacity(world_size - 1);
    let mut peer_node: usize = 1;
    while peer_node < num_nodes
        invariant
            1 <= peer_node,
            peer_node == 1 || peer_node <= num_nodes,
            cluster.placed(),
            dp_size == cluster.dp_size,
            node_size == cluster.node_size,
            world_size == cluster.world_size,
            rank_node == cluster.rank_node(),
            num_nodes == cluster.nodes(),
            order == cluster.remote_peers(),
            per_node == cluster.peers_per_node(),
            peers@.len() == (peer_node - 1) * per_node,
            forall|i: int| 0 <= i < peers@.len() ==> #[trigger] peers@[i] == order[i],
            forall|i: int| 0 <= i < peers@.len() ==> #[trigger] peers@[i] < world_size,
        decreases num_nodes - peer_node,
    {
        let ghost start = peers@.len() as int;
        let mut index: usize = cluster.dp_rank;
        let mut step: Ghost<int> = Ghost(0);
        proof {
            lemma_placed_sizes(cluster);
            assert((peer_node - 1) * per_node + per_node == peer_node * per_node)
                by (nonlinear_arith);
            assert(peer_node * per_node <= cluster.other_nodes() * per_node) by (nonlinear_arith)
                requires
                    peer_node <= cluster.other_nodes(),
                    0 <= per_node,
            ;
            assert(0 * dp_size == 0) by (nonlinear_arith);
            if cluster.dp_rank < node_size {
                lemma_ceil_div(node_size - cluster.dp_rank, dp_size as int);
                assert((per_node - 1) * dp_size == per_node * dp_size - dp_size)
                    by (nonlinear_arith);
            }
        }
        while index < node_size
            invariant
                cluster.placed(),
                1 <= peer_node < num_nodes,
                dp_size == cluster.dp_size,
                node_size == cluster.node_size,
                world_size == cluster.world_size,
                rank_node == cluster.rank_node(),
                num_nodes == cluster.nodes(),
                num_nodes - 1 == cluster.other_nodes(),
                node_size <= world_size,
                order == cluster.remote_peers(),
                per_node == cluster.peers_per_node(),
                start == (peer_node - 1) * per_node,
                start + per_node <= order.len(),
                0 <= step@,
                index == cluster.dp_rank + step@ * dp_size,
                step@ <= per_node,
                cluster.dp_rank < node_size ==> (per_node - 1) * dp_size < node_size
                    - cluster.dp_rank <= per_node * dp_size,
                cluster.dp_rank >= node_size ==> per_node == 0,
                peers@.len() == start + step@,
                forall|i: int| 0 <= i < peers@.len() ==> #[trigger] peers@[i] == order[i],
                forall|i: int| 0 <= i < peers@.len() ==> #[trigger] peers@[i] < world_size,
            decreases per_node - step@,
        {
            proof {
                lemma_remote_peer(cluster, peer_node as int, index as int);
                lemma_placed_sizes(cluster);
                assert(step@ < per_node) by (nonlinear_arith)
                    requires
                        step@ * dp_size < per_node * dp_size,
                        0 < dp_size,
                ;
                lemma_fundamental_div_mod_converse(
                    start + step@,
                    per_node,
                    peer_node - 1,
                    step@,
                );
                assert(step@ * dp_size + dp_size == (step@ + 1) * dp_size) by (nonlinear_arith);
            }
            let peer_rank: usize = ((rank_node + peer_node) * node_size + index) % world_size;
            peers.push(peer_rank);
            index = index + dp_size;
            proof {
                step@ = step@ + 1;
            }
        }
        proof {
            assert(step@ == per_node) by {
                if cluster.dp_rank < node_size {
                    assert(step@ > per_node - 1) by (nonlinear_arith)
                        requires
                            step@ * dp_size > (per_node - 1) * dp_size,
                            0 < dp_size,
                    ;
                }
            }
        }
        peer_node = peer_node + 1;
    }
    proof {
        assert(cluster.other_nodes() == peer_node - 1);
    }
    peers
}

/// The tokens for the groups up to `group` are those for the groups below it and its own.
pub proof fn lemma_to_groups_step(c: Cluster, t: RouteTable, group: int)
    requires
        c.placed(),
        0 <= group < c.groups(),
    ensures
        c.to_groups_below(t, group + 1) == c.to_groups_below(t, group) + c.to_group(t, group),
        0 <= c.to_groups_below(t, group),
        0 <= c.to_group(t, group),
        c.to_groups_below(t, group + 1) <= row_sum(
            t,
            c.dp_group as int,
            0,
            c.num_experts as int,
        ),
{
    let g = c.dp_group as int;
    let total = c.num_experts as int;
    lemma_placed_sizes(c);
    lemma_block(c, group);
    let first = c.first_expert(group);
    let last = c.last_expert(group);
    lemma_row_sum_nonneg(t, g, 0, min_spec(first, total));
    lemma_row_sum_nonneg(t, g, first, last);
    if first <= last {
        lemma_row_sum_split(t, g, 0, first, last);
    }
    lemma_row_sum_within(t, g, 0, total, 0, min_spec(c.first_expert(group + 1), total));
}

/// Adds up the cells of one row into a size.
fn sum_row_wide(num_routed: &Vec<Vec<u32>>, group: usize, lo: usize, hi: usize) -> (sum: usize)
    requires
        group < num_routed@.len(),
        lo < hi ==> hi <= num_routed@[group as int]@.len(),
        row_sum(table(num_routed), group as int, lo as int, hi as int) <= usize::MAX,
    ensures
        sum == row_sum(table(num_routed), group as int, lo as int, hi as int),
{
    let ghost t = table(num_routed);
    let mut sum: usize = 0;
    let mut expert: usize = lo;
    while expert < hi
        invariant
            lo <= expert,
            expert == lo || expert <= hi,
            group < num_routed@.len(),
            lo < hi ==> hi <= num_routed@[group as int]@.len(),
            t == table(num_routed),
            row_sum(t, group as int, lo as int, hi as int) <= usize::MAX,
            sum == row_sum(t, group as int, lo as int, expert as int),
        decreases hi - expert,
    {
        proof {
            lemma_row_sum_within(t, group as int, lo as int, hi as int, lo as int, expert + 1);
            assert(t[group as int][expert as int] == num_routed@[group as int]@[expert as int]);
        }
        sum = sum + num_routed[group][expert] as usize;
        expert = expert + 1;
    }
    sum
}

/// Plans the transfers into the private buffers of the peers on other nodes.
pub fn compute_initial_dispatch_transfer_plans(
    dp_group: usize,
    dp_rank: usize,
    dp_size: usize,
    node_size: usize,
    world_size: usize,
    num_experts: usize,
    max_private_tokens: usize,
    num_routed: &Vec<Vec<u32>>,
) -> (transfers: Vec<RemoteTransferPlan>)
    requires
        (Cluster { dp_group, dp_rank, dp_size, node_size, world_size, num_experts }).placed(),
        dp_group < num_routed@.len(),
        num_experts <= num_routed@[dp_group as int]@.len(),
        row_sum(table(num_routed), dp_group as int, 0, num_experts as int) <= usize::MAX,
        (Cluster {
            dp_group,
            dp_rank,
            dp_size,
            node_size,
            world_size,
            num_experts,
        }).remote_peers().len() > 0 ==> dp_group * max_private_tokens <= usize::MAX,
    ensures
        ({
            let c = Cluster { dp_group, dp_rank, dp_size, node_size, world_size, num_experts };
            &&& transfers@.len() == c.remote_peers().len()
            &&& forall|i: int|
                0 <= i < transfers@.len() ==> #[trigger] transfers@[i] == initial_transfer(
                    c,
                    table(num_routed),
                    max_private_tokens as int,
                    c.remote_peers()[i],
                )
        }),
{
    let cluster = Cluster { dp_group, dp_rank, dp_size, node_size, world_size, num_experts };
    let ghost t = table(num_routed);
    let ghost total = row_sum(t, dp_group as int, 0, num_experts as int);
    proof {
        lemma_placed_sizes(cluster);
        assert(cluster.first_expert(0) == 0) by (nonlinear_arith)
            requires
                cluster.first_expert(0) == 0 * cluster.experts_per_rank(),
        ;
    }
    let num_dp_groups: usize = world_size / dp_size;
    let experts_per_rank: usize = ceil_div(num_experts, num_dp_groups);
    let mut tokens_per_rank: Vec<usize> = vec![0usize; world_size];
    let mut rank_offset: Vec<usize> = vec![0usize; world_size];
    let mut offset: usize = 0;
    let mut peer_group: usize = 0;
    while peer_group < num_dp_groups
        invariant
            peer_group <= num_dp_groups,
            num_dp_groups == cluster.groups(),
            experts_per_rank == cluster.experts_per_rank(),
            cluster == (Cluster {
                dp_group,
                dp_rank,
                dp_size,
                node_size,
                world_size,
                num_experts,
            }),
            cluster.placed(),
            t == table(num_routed),
            dp_group < num_routed@.len(),
            num_experts <= num_routed@[dp_group as int]@.len(),
            total == row_sum(t, dp_group as int, 0, num_experts as int),
            total <= usize::MAX,
            offset == cluster.to_groups_below(t, peer_group as int),
            tokens_per_rank@.len() == world_size,
            rank_offset@.len() == world_size,
            forall|p: int|
                0 <= p < world_size ==> #[trigger] tokens_per_rank@[p] == if 0
                    <= cluster.group_at(p) < peer_group {
                    cluster.to_group(t, cluster.group_at(p))
                } else {
                    0
                },
            forall|p: int|
                0 <= p < world_size ==> #[trigger] rank_offset@[p] == if 0 <= cluster.group_at(p)
                    < peer_group {
                    cluster.to_groups_below(t, cluster.group_at(p))
                } else {
                    0
                },
        decreases num_dp_groups - peer_group,
    {
        let ghost peer = cluster.rank_of(peer_group as int);
        proof {
            lemma_placed_sizes(cluster);
            lemma_group_at(cluster, peer_group as int);
            lemma_block(cluster, peer_group as int);
            lemma_to_groups_step(cluster, t, peer_group as int);
            assert(0 <= peer_group * dp_size) by (nonlinear_arith);
            assert forall|p: int|
                0 <= p < world_size && p != peer implies cluster.group_at(p) != peer_group by {
                if cluster.group_at(p) == peer_group {
                    lemma_rank_of_group_at(cluster, p);
                }
            }
        }
        let peer_rank: usize = peer_group * dp_size + dp_rank;
        let first_expert: usize = peer_group * experts_per_rank;
        let last_expert: usize = min_usize(first_expert + experts_per_rank, num_experts);
        let tokens_on_rank: usize = sum_row_wide(num_routed, dp_group, first_expert, last_expert);
        tokens_per_rank.set(peer_rank, tokens_on_rank);
        rank_offset.set(peer_rank, offset);
        offset = offset + tokens_on_rank;
        peer_group = peer_group + 1;
    }
    let peers = list_remote_peers(cluster);
    let ghost listed = peers@.map_values(|p: usize| p as int);
    let mut transfers: Vec<RemoteTransferPlan> = Vec::with_capacity(world_size - 1);
    let mut i: usize = 0;
    while i < peers.len()
        invariant
            i <= peers@.len(),
            cluster == (Cluster {
                dp_group,
                dp_rank,
                dp_size,
                node_size,
                world_size,
                num_experts,
            }),
            cluster.placed(),
            t == table(num_routed),
            listed == peers@.map_values(|p: usize| p as int),
            listed == cluster.remote_peers(),
            listed.len() > 0 ==> dp_group * max_private_tokens <= usize::MAX,
            forall|j: int| 0 <= j < peers@.len() ==> #[trigger] peers@[j] < world_size,
            tokens_per_rank@.len() == world_size,
            rank_offset@.len() == world_size,
            forall|p: int|
                0 <= p < world_size ==> #[trigger] tokens_per_rank@[p] == cluster.to_rank(t, p),
            forall|p: int|
                0 <= p < world_size ==> #[trigger] rank_offset@[p] == cluster.to_rank_start(t, p),
            transfers@.len() == i,
            forall|j: int|
                0 <= j < i ==> #[trigger] transfers@[j] == initial_transfer(
                    cluster,
                    t,
                    max_private_tokens as int,
                    cluster.remote_peers()[j],
                ),
        decreases peers@.len() - i,
    {
        proof {
            assert(listed[i as int] == peers@[i as int]);
            assert(0 <= dp_group * max_private_tokens) by (nonlinear_arith);
        }
        let peer_rank: usize = peers[i];
        transfers.push(
            RemoteTransferPlan {
                peer_rank,
                length_tokens: min_usize(tokens_per_rank[peer_rank], max_private_tokens),
                src_token_offset: rank_offset[peer_rank] as u64,
                dst_token_offset: (dp_group * max_private_tokens) as u64,
            },
        );
        i = i + 1;
    }
    transfers
}

/// Adds up what the groups below `groups` send to the experts from `lo` up to `hi`.
fn sum_lower_groups(num_routed: &Vec<Vec<u32>>, groups: usize, lo: usize, hi: usize) -> (sum: u64)
    requires
        groups <= num_routed@.len(),
        forall|g: int|
            0 <= g < groups && lo < hi ==> hi <= (#[trigger] num_routed@[g])@.len(),
        visited_sum(
            table(num_routed),
            ascending(groups as int),
            lo as int,
            hi as int,
            groups as int,
        ) <= u64::MAX,
    ensures
        sum == visited_sum(
            table(num_routed),
            ascending(groups as int),
            lo as int,
            hi as int,
            groups as int,
        ),
{
    let ghost t = table(num_routed);
    let ghost order = ascending(groups as int);
    let mut sum: u64 = 0;
    let mut group: usize = 0;
    while group < groups
        invariant
            group <= groups <= num_routed@.len(),
            t == table(num_routed),
            order == ascending(groups as int),
            forall|g: int|
                0 <= g < groups && lo < hi ==> hi <= (#[trigger] num_routed@[g])@.len(),
            visited_sum(t, order, lo as int, hi as int, groups as int) <= u64::MAX,
            sum == visited_sum(t, order, lo as int, hi as int, group as int),
        decreases groups - group,
    {
        let ghost before = sum as int;
        proof {
            lemma_visited_sum_monotone(
                t,
                order,
                lo as int,
                hi as int,
                group + 1,
                groups as int,
            );
        }
        let mut expert: usize = lo;
        while expert < hi
            invariant
                lo <= expert,
                expert == lo || expert <= hi,
                group < groups <= num_routed@.len(),
                t == table(num_routed),
                lo < hi ==> hi <= num_routed@[group as int]@.len(),
                before + row_sum(t, group as int, lo as int, hi as int) <= u64::MAX,
                sum == before + row_sum(t, group as int, lo as int, expert as int),
            decreases hi - expert,
        {
            proof {
                lemma_row_sum_within(
                    t,
                    group as int,
                    lo as int,
                    hi as int,
                    lo as int,
                    expert + 1,
                );
                assert(t[group as int][expert as int]
                    == num_routed@[group as int]@[expert as int]);
            }
            sum = sum + num_routed[group][expert] as u64;
            expert = expert + 1;
        }
        group = group + 1;
    }
    sum
}

/// Plans the transfers of the tokens that the private buffers of the peers on other nodes do
/// not hold.
pub fn compute_remote_dispatch_transfer_plans(
    plan: &ReceiveRoutePlan,
    dp_group: usize,
    dp_rank: usize,
    dp_size: usize,
    node_size: usize,
    world_size: usize,
    num_experts: usize,
    max_private_tokens: usize,
    num_routed: &Vec<Vec<u32>>,
) -> (transfers: Vec<RemoteTransferPlan>)
    requires
        (Cluster { dp_group, dp_rank, dp_size, node_size, world_size, num_experts }).placed(),
        plan.tokens_to_rank@.len() >= world_size,
        plan.dispatch_src_offset@.len() >= world_size,
        dp_group <= num_routed@.len(),
        forall|g: int|
            0 <= g < dp_group ==> num_experts <= (#[trigger] num_routed@[g])@.len(),
        max_private_tokens * (Cluster {
            dp_group,
            dp_rank,
            dp_size,
            node_size,
            world_size,
            num_experts,
        }).groups() <= usize::MAX,
        forall|p: int|
            0 <= p < world_size && plan.tokens_to_rank@[p] > max_private_tokens
                ==> max_private_tokens * (Cluster {
                dp_group,
                dp_rank,
                dp_size,
                node_size,
                world_size,
                num_experts,
            }).groups() + #[trigger] (Cluster {
                dp_group,
                dp_rank,
                dp_size,
                node_size,
                world_size,
                num_experts,
            }).from_lower_groups_to(table(num_routed), p) <= u64::MAX,
    ensures
        ({
            let c = Cluster { dp_group, dp_rank, dp_size, node_size, world_size, num_experts };
            transfers@ == overflow_transfers(
                c,
                table(num_routed),
                *plan,
                max_private_tokens as int,
                c.remote_peers().len() as int,
            )
        }),
{
    let cluster = Cluster { dp_group, dp_rank, dp_size, node_size, world_size, num_experts };
    let ghost t = table(num_routed);
    let ghost maxp = max_private_tokens as int;
    proof {
        lemma_placed_sizes(cluster);
        assert(0 <= max_private_tokens * cluster.groups()) by (nonlinear_arith)
            requires
                0 <= cluster.groups(),
        ;
    }
    let num_dp_groups: usize = world_size / dp_size;
    let experts_per_rank: usize = ceil_div(num_experts, num_dp_groups);
    let base_offset: u64 = (max_private_tokens * num_dp_groups) as u64;
    let peers = list_remote_peers(cluster);
    let ghost listed = peers@.map_values(|p: usize| p as int);
    let mut transfers: Vec<RemoteTransferPlan> = Vec::with_capacity(world_size - 1);
    let mut i: usize = 0;
    while i < peers.len()
        invariant
            i <= peers@.len(),
            cluster == (Cluster {
                dp_group,
                dp_rank,
                dp_size,
                node_size,
                world_size,
                num_experts,
            }),
            cluster.placed(),
            t == table(num_routed),
            maxp == max_private_tokens,
            num_dp_groups == cluster.groups(),
            experts_per_rank == cluster.experts_per_rank(),
            base_offset == max_private_tokens * cluster.groups(),
            listed == peers@.map_values(|p: usize| p as int),
            listed == cluster.remote_peers(),
            forall|j: int| 0 <= j < peers@.len() ==> #[trigger] peers@[j] < world_size,
            plan.tokens_to_rank@.len() >= world_size,
            plan.dispatch_src_offset@.len() >= world_size,
            dp_group <= num_routed@.len(),
            forall|g: int|
                0 <= g < dp_group ==> num_experts <= (#[trigger] num_routed@[g])@.len(),
            forall|p: int|
                0 <= p < world_size && plan.tokens_to_rank@[p] > max_private_tokens
                    ==> max_private_tokens * cluster.groups()
                    + #[trigger] cluster.from_lower_groups_to(t, p) <= u64::MAX,
            transfers@ == overflow_transfers(cluster, t, *plan, maxp, i as int),
        decreases peers@.len() - i,
    {
        proof {
            assert(listed[i as int] == peers@[i as int]);
        }
        let peer_rank: usize = peers[i];
        let num_tokens: usize = plan.tokens_to_rank[peer_rank] as usize;
        if num_tokens > max_private_tokens {
            let peer_group: usize = peer_rank / dp_size;
            proof {
                lemma_peer_block(cluster, peer_rank as int);
                assert(max_private_tokens * cluster.groups() + cluster.from_lower_groups_to(
                    t,
                    peer_rank as int,
                ) <= u64::MAX);
            }
            let first_expert: usize = peer_group * experts_per_rank;
            let last_expert: usize = min_usize(first_expert + experts_per_rank, num_experts);
            let lower: u64 = sum_lower_groups(num_routed, dp_group, first_expert, last_expert);
            transfers.push(
                RemoteTransferPlan {
                    peer_rank,
                    length_tokens: num_tokens - max_private_tokens,
                    src_token_offset: max_private_tokens as u64
                        + plan.dispatch_src_offset[peer_rank] as u64,
                    dst_token_offset: base_offset + lower,
                },
            );
        }
        i = i + 1;
    }
    transfers
}

/// The expert block of a rank's group can be computed without overflow.
proof fn lemma_peer_block(c: Cluster, rank: int)
    requires
        c.placed(),
        0 <= rank < c.world_size,
    ensures
        0 <= c.first_expert(rank / c.dp_size as int),
        c.first_expert(rank / c.dp_size as int) + c.experts_per_rank() <= usize::MAX,
        0 <= rank / c.dp_size as int <= c.groups(),
{
    let dp = c.dp_size as int;
    let e = c.experts_per_rank();
    let group = rank / dp;
    lemma_placed_sizes(c);
    lemma_fundamental_div_mod(rank, dp);
    lemma_fundamental_div_mod(c.world_size as int, dp);
    assert(0 <= group <= c.groups()) by (nonlinear_arith)
        requires
            0 <= rank < c.world_size,
            rank == dp * group + rank % dp,
            c.world_size == dp * c.groups() + c.world_size as int % dp,
            0 <= rank % dp < dp,
            0 <= c.world_size as int % dp < dp,
    ;
    assert(0 <= group * e <= c.groups() * e) by (nonlinear_arith)
        requires
            0 <= group <= c.groups(),
            0 <= e,
    ;
}

/// Plans the transfers that send the results for the tokens of other nodes back.
pub fn compute_remote_combine_transfer_plans(
    plan: &ReceiveRoutePlan,
    dp_group: usize,
    dp_rank: usize,
    dp_size: usize,
    node_size: usize,
    world_size: usize,
) -> (transfers: Vec<RemoteTransferPlan>)
    requires
        (Cluster { dp_group, dp_rank, dp_size, node_size, world_size, num_experts: 0 }).placed(),
        plan.tokens_from_group@.len() >= world_size as int / dp_size as int,
        plan.src_group_offset@.len() >= world_size as int / dp_size as int,
        plan.dst_group_offset@.len() >= world_size as int / dp_size as int,
    ensures
        ({
            let c = Cluster { dp_group, dp_rank, dp_size, node_size, world_size, num_experts: 0 };
            &&& transfers@.len() == c.remote_groups().len()
            &&& forall|i: int|
                0 <= i < transfers@.len() ==> #[trigger] transfers@[i] == combine_transfer(
                    c,
                    *plan,
                    c.remote_groups()[i],
                )
        }),
{
    let ghost c = Cluster { dp_group, dp_rank, dp_size, node_size, world_size, num_experts: 0 };
    let ghost order = c.remote_groups();
    proof {
        lemma_placed_sizes(c);
        assert(0 <= dp_group * dp_size) by (nonlinear_arith);
    }
    let rank: usize = dp_group * dp_size + dp_rank;
    let rank_node: usize = rank / node_size;
    let groups_per_node: usize = node_size / dp_size;
    let num_dp_groups: usize = world_size / dp_size;
    let num_nodes: usize = world_size / node_size;
    let mut transfers: Vec<RemoteTransferPlan> = Vec::with_capacity(world_size - 1);
    let mut peer_node: usize = 1;
    proof {
        assert(0 * groups_per_node == 0) by (nonlinear_arith);
        assert(0 <= c.other_nodes() * groups_per_node) by (nonlinear_arith)
            requires
                0 <= c.other_nodes(),
        ;
    }
    while peer_node < num_nodes
        invariant
            1 <= peer_node,
            peer_node == 1 || peer_node <= num_nodes,
            c == (Cluster { dp_group, dp_rank, dp_size, node_size, world_size, num_experts: 0 }),
            c.placed(),
            order == c.remote_groups(),
            rank_node == c.rank_node(),
            groups_per_node == c.groups_per_node(),
            num_dp_groups == c.groups(),
            num_nodes == c.nodes(),
            plan.tokens_from_group@.len() >= num_dp_groups,
            plan.src_group_offset@.len() >= num_dp_groups,
            plan.dst_group_offset@.len() >= num_dp_groups,
            transfers@.len() == (peer_node - 1) * groups_per_node,
            forall|i: int|
                0 <= i < transfers@.len() ==> #[trigger] transfers@[i] == combine_transfer(
                    c,
                    *plan,
                    order[i],
                ),
        decreases num_nodes - peer_node,
    {
        let ghost start = transfers@.len() as int;
        let mut index: usize = 0;
        proof {
            lemma_placed_sizes(c);
            assert((peer_node - 1) * groups_per_node + groups_per_node == peer_node
                * groups_per_node) by (nonlinear_arith);
            assert(peer_node * groups_per_node <= c.other_nodes() * groups_per_node)
                by (nonlinear_arith)
                requires
                    peer_node <= c.other_nodes(),
            ;
        }
        while index < groups_per_node
            invariant
                index <= groups_per_node,
                1 <= peer_node < num_nodes,
                c == (Cluster {
                    dp_group,
                    dp_rank,
                    dp_size,
                    node_size,
                    world_size,
                    num_experts: 0,
                }),
                c.placed(),
                order == c.remote_groups(),
                rank_node == c.rank_node(),
                groups_per_node == c.groups_per_node(),
                num_dp_groups == c.groups(),
                num_nodes == c.nodes(),
                plan.tokens_from_group@.len() >= num_dp_groups,
                plan.src_group_offset@.len() >= num_dp_groups,
                plan.dst_group_offset@.len() >= num_dp_groups,
                start == (peer_node - 1) * groups_per_node,
                start + groups_per_node <= order.len(),
                transfers@.len() == start + index,
                forall|i: int|
                    0 <= i < transfers@.len() ==> #[trigger] transfers@[i] == combine_transfer(
                        c,
                        *plan,
                        order[i],
                    ),
            decreases groups_per_node - index,
        {
            proof {
                lemma_placed_sizes(c);
                lemma_remote_peer(c, peer_node as int, index as int);
                assert(0 <= (rank_node + peer_node) * groups_per_node <= (rank_node + peer_node)
                    * node_size) by (nonlinear_arith)
                    requires
                        groups_per_node <= node_size,
                ;
                lemma_fundamental_div_mod_converse(
                    start + index,
                    groups_per_node as int,
                    peer_node - 1,
                    index as int,
                );
            }
            let peer_group: usize = ((rank_node + peer_node) * groups_per_node + index)
                % num_dp_groups;
            proof {
                lemma_group_at(c, peer_group as int);
                assert(0 <= peer_group * dp_size) by (nonlinear_arith);
            }
            transfers.push(
                RemoteTransferPlan {
                    peer_rank: peer_group * dp_size + dp_rank,
                    length_tokens: plan.tokens_from_group[peer_group] as usize,
                    src_token_offset: plan.src_group_offset[peer_group] as u64,
                    dst_token_offset: plan.dst_group_offset[peer_group] as u64,
                },
            );
            index = index + 1;
        }
        peer_node = peer_node + 1;
    }
    proof {
        assert(c.other_nodes() == peer_node - 1);
    }
    transfers
}

} // verus!
