//! What holds of ranks, groups, nodes and expert blocks, and of the size of a token.

use vstd::prelude::*;
use vstd::arithmetic::div_mod::{lemma_fundamental_div_mod, lemma_fundamental_div_mod_converse};
use crate::arith::{align_up, ceil_div, ceil_div_spec, lemma_ceil_div, min_usize};
use crate::cluster::{ordered_source_groups, Cluster};
use crate::config::{lemma_has_groups, ContextConfig};
use crate::traffic::{lemma_group_at, lemma_rank_of_group_at};
use crate::traffic_laws::{lemma_together, together};

verus! {

/// The number of groups is how many whole groups the ranks hold.
pub proof fn lemma_groups(world_size: int, dp_size: int, groups: int)
    requires
        0 < dp_size,
        0 <= world_size,
        groups * dp_size <= world_size < (groups + 1) * dp_size,
    ensures
        world_size / dp_size == groups,
{
    assert((groups + 1) * dp_size == groups * dp_size + dp_size) by (nonlinear_arith);
    lemma_fundamental_div_mod_converse(
        world_size,
        dp_size,
        groups,
        world_size - groups * dp_size,
    );
}

/// The smallest block that leaves no expert without a group is the rounded-up quotient.
pub proof fn lemma_block_size(num_experts: int, groups: int, block: int)
    requires
        0 <= num_experts,
        0 < groups,
        block * groups >= num_experts,
        (block - 1) * groups < num_experts,
    ensures
        ceil_div_spec(num_experts, groups) == block,
{
    let q = ceil_div_spec(num_experts, groups);
    lemma_ceil_div(num_experts, groups);
    assert(q == block) by (nonlinear_arith)
        requires
            num_experts <= q * groups < num_experts + groups,
            num_experts <= block * groups,
            (block - 1) * groups < num_experts,
            0 < groups,
    ;
}

/// Whether a cluster has `groups` whole groups, each with a block of `block` experts: the
/// smallest that leaves no expert without a group.
pub open spec fn has_shape(c: Cluster, groups: int, block: int) -> bool {
    &&& 0 < c.dp_size <= c.world_size
    &&& groups * c.dp_size <= c.world_size < (groups + 1) * c.dp_size
    &&& block * groups >= c.num_experts
    &&& (block - 1) * groups < c.num_experts
}

pub proof fn lemma_shape(c: Cluster, groups: int, block: int)
    requires
        has_shape(c, groups, block),
    ensures
        c.groups() == groups,
        c.experts_per_rank() == block,
        1 <= groups <= c.world_size,
        0 <= block <= c.num_experts,
{
    lemma_groups(c.world_size as int, c.dp_size as int, groups);
    assert(1 <= groups <= c.world_size) by (nonlinear_arith)
        requires
            groups * c.dp_size <= c.world_size < (groups + 1) * c.dp_size,
            0 < c.dp_size <= c.world_size,
    ;
    lemma_block_size(c.num_experts as int, groups, block);
    lemma_ceil_div(c.num_experts as int, groups);
}

/// The experts are dealt out in blocks, in order: every expert belongs to one group, and a
/// group's experts are those of its block that exist.
pub proof fn law_every_expert_has_one_group(
    c: Cluster,
    groups: int,
    block: int,
    expert: int,
    group: int,
)
    requires
        has_shape(c, groups, block),
        0 <= expert < c.num_experts,
        0 <= group < groups,
    ensures
        c.first_expert(group) <= expert < c.last_expert(group) <==> group * block <= expert < (group
            + 1) * block,
        0 <= expert / block < groups,
        c.first_expert(group) <= expert < c.last_expert(group) <==> group == expert / block,
        c.dp_group == group ==> c.first_local() == group * block,
        c.dp_group == group ==> (c.first_local() <= expert < c.last_local() <==> group * block
            <= expert < (group + 1) * block),
{
    lemma_shape(c, groups, block);
    assert((group + 1) * block == group * block + block) by (nonlinear_arith);
    assert(0 < block) by (nonlinear_arith)
        requires
            block * groups >= c.num_experts,
            0 < c.num_experts,
            0 < groups,
    ;
    let h = expert / block;
    lemma_fundamental_div_mod(expert, block);
    assert(block * h == h * block) by (nonlinear_arith);
    assert(0 <= h < groups) by (nonlinear_arith)
        requires
            h * block <= expert < h * block + block,
            0 <= expert < block * groups,
            0 < block,
    ;
    if group * block <= expert < group * block + block {
        lemma_fundamental_div_mod_converse(expert, block, group, expert - group * block);
    }
}

/// A rank has one peer in each group, at its own place within the group; which group a rank
/// belongs to as a peer follows from its number.
pub proof fn law_peers_keep_their_place(c: Cluster, groups: int, block: int, group: int, rank: int)
    requires
        has_shape(c, groups, block),
        0 <= group < groups,
        0 <= rank,
    ensures
        c.group_at(rank) == group <==> rank == group * c.dp_size + c.dp_rank,
        c.rank_of(group) == group * c.dp_size + c.dp_rank,
        c.rank() == c.dp_group * c.dp_size + c.dp_rank,
        c.group_at(rank) < 0 <==> (forall|g: int|
            0 <= g < groups ==> rank != #[trigger] (g * c.dp_size) + c.dp_rank),
{
    lemma_shape(c, groups, block);
    lemma_group_at(c, group);
    assert(c.group_at(c.rank_of(group)) == group);
    if c.group_at(rank) >= 0 {
        lemma_rank_of_group_at(c, rank);
        let h = c.group_at(rank);
        assert(rank == (h * c.dp_size) + c.dp_rank);
    } else {
        assert forall|g: int| 0 <= g < groups implies rank != #[trigger] (g * c.dp_size)
            + c.dp_rank by {
            lemma_group_at(c, g);
        }
    }
}

/// A group is on this rank's node just where the peer in it is.
pub proof fn law_groups_sit_on_nodes(c: Cluster, group: int)
    requires
        0 < c.node_size,
    ensures
        c.same_node(group) <==> together(
            group * c.dp_size + c.dp_rank,
            c.dp_group * c.dp_size + c.dp_rank,
            c.node_size as int,
        ),
{
    lemma_together(
        group * c.dp_size + c.dp_rank,
        c.dp_group * c.dp_size + c.dp_rank,
        c.node_size as int,
    );
}

/// The place of a configured rank: its group and its place within the group give the rank, and
/// the sizes are those that were configured.
pub proof fn law_rank_has_its_place(config: ContextConfig, cluster: Cluster)
    requires
        call_ensures(ContextConfig::get_cluster, (&config,), cluster),
        0 < config.dp_size <= config.world_size,
    ensures
        cluster.dp_group * config.dp_size + cluster.dp_rank == config.rank,
        cluster.dp_rank < config.dp_size,
        cluster.dp_size == config.dp_size,
        cluster.node_size == config.node_size,
        cluster.world_size == config.world_size,
        cluster.num_experts == config.num_experts,
        cluster == config.cluster(),
{
    lemma_has_groups(config);
}

/// A group's block of experts is the smallest that leaves no expert without a group.
pub proof fn law_blocks_are_smallest(config: ContextConfig, groups: int, experts: usize)
    requires
        call_ensures(ContextConfig::num_local_experts, (&config,), experts),
        0 < config.dp_size <= config.world_size,
        groups * config.dp_size <= config.world_size < (groups + 1) * config.dp_size,
    ensures
        experts * groups >= config.num_experts,
        config.num_experts > 0 ==> (experts - 1) * groups < config.num_experts,
        config.num_experts == 0 ==> experts == 0,
{
    lemma_groups(config.world_size as int, config.dp_size as int, groups);
    lemma_has_groups(config);
    lemma_ceil_div(config.num_experts as int, groups);
    assert((experts - 1) * groups == experts * groups - groups) by (nonlinear_arith);
}

/// Whether a size is the first multiple of 16 that is not below another.
pub open spec fn padded_to_16(size: int, bytes: int) -> bool {
    size % 16 == 0 && bytes <= size < bytes + 16
}

/// A token on its way to an expert is made of its activations and its scales, each padded to a
/// multiple of 16 bytes, and a header of 16 bytes.
pub proof fn law_dispatched_token_holds_its_parts(config: ContextConfig, dim: usize)
    requires
        call_ensures(ContextConfig::get_dispatch_token_dim, (&config,), dim),
    ensures
        exists|activations: int, scales: int|
            #[trigger] padded_to_16(activations, config.hidden_dim * config.in_elemsize)
                && #[trigger] padded_to_16(
                scales,
                config.hidden_dim_scale * config.scale_elemsize,
            ) && dim == activations + scales + 16,
{
    let x = config.hidden_dim * config.in_elemsize;
    let y = config.hidden_dim_scale * config.scale_elemsize;
    assert(0 <= x) by (nonlinear_arith)
        requires
            x == config.hidden_dim * config.in_elemsize,
    ;
    assert(0 <= y) by (nonlinear_arith)
        requires
            y == config.hidden_dim_scale * config.scale_elemsize,
    ;
    crate::arith::law_align_up_is_least_multiple(x, 16, 0);
    crate::arith::law_align_up_is_least_multiple(y, 16, 0);
    let activations = crate::arith::align_up_spec(x, 16);
    let scales = crate::arith::align_up_spec(y, 16);
    assert(padded_to_16(activations, x) && padded_to_16(scales, y));
    assert(dim == activations + scales + 16);
}

/// A token on its way back is made of its results alone, padded to a multiple of 16 bytes.
pub proof fn law_returned_token_holds_its_results(config: ContextConfig, dim: usize)
    requires
        call_ensures(ContextConfig::get_combine_token_dim, (&config,), dim),
    ensures
        padded_to_16(dim as int, config.hidden_dim * config.out_elemsize),
{
    let x = config.hidden_dim * config.out_elemsize;
    assert(0 <= x) by (nonlinear_arith)
        requires
            x == config.hidden_dim * config.out_elemsize,
    ;
    crate::arith::law_align_up_is_least_multiple(x, 16, 0);
}

/// Rounding up gives the first multiple that is not below the value.
pub proof fn law_align_up_rounds_up(value: usize, alignment: usize, aligned: usize)
    requires
        call_ensures(align_up, (value, alignment), aligned),
        0 < alignment,
    ensures
        aligned as int % alignment as int == 0,
        value <= aligned < value + alignment,
{
    crate::arith::law_align_up_is_least_multiple(value as int, alignment as int, 0);
}

/// A quotient that is rounded up covers the value, and no smaller one does.
pub proof fn law_ceil_div_rounds_up(value: usize, divisor: usize, quotient: usize)
    requires
        call_ensures(ceil_div, (value, divisor), quotient),
        0 < divisor,
    ensures
        value <= quotient * divisor < value + divisor,
{
    lemma_ceil_div(value as int, divisor as int);
}

/// The group after `group` on its node; after the last comes the first.
pub open spec fn next_on_node(group: int, groups_per_node: int) -> int {
    if (group + 1) % groups_per_node == 0 {
        group + 1 - groups_per_node
    } else {
        group + 1
    }
}

/// Source groups are taken in all around the cluster from the node after this one, group after
/// group; then around this node, from the group after this one to this group itself.
pub proof fn law_source_groups_go_around(
    dp_group: usize,
    rank_node: usize,
    groups_per_node: usize,
    num_nodes: usize,
    source_groups: Vec<usize>,
    i: int,
)
    requires
        call_ensures(
            ordered_source_groups,
            (dp_group, rank_node, groups_per_node, num_nodes),
            source_groups,
        ),
        0 < groups_per_node,
        rank_node < num_nodes,
        rank_node * groups_per_node <= dp_group < (rank_node + 1) * groups_per_node,
        0 <= i < source_groups@.len() - 1,
    ensures
        ({
            let groups = num_nodes * groups_per_node;
            let remote = groups - groups_per_node;
            &&& source_groups@.len() == groups
            &&& source_groups@.last() == dp_group
            &&& remote > 0 ==> source_groups@[0] == ((rank_node + 1) * groups_per_node) % groups
            &&& i + 1 < remote ==> source_groups@[i + 1] == (source_groups@[i] + 1) % groups
            &&& groups_per_node > 1 ==> source_groups@[remote] == next_on_node(
                dp_group as int,
                groups_per_node as int,
            )
            &&& remote <= i ==> source_groups@[i + 1] == next_on_node(
                source_groups@[i] as int,
                groups_per_node as int,
            )
        }),
{
    let gpn = groups_per_node as int;
    let n = num_nodes as int;
    let rn = rank_node as int;
    let dg = dp_group as int;
    let groups = n * gpn;
    let remote = groups - gpn;
    let order = crate::cluster::source_order(dg, rn, gpn, n);
    let listed = source_groups@.map_values(|g: usize| g as int);
    assert((n - 1) * gpn == remote) by (nonlinear_arith)
        requires
            remote == n * gpn - gpn,
    ;
    assert(0 <= remote) by (nonlinear_arith)
        requires
            remote == (n - 1) * gpn,
            1 <= n,
            0 < gpn,
    ;
    assert(order.len() == groups);
    assert(listed.len() == source_groups@.len());
    assert forall|k: int| 0 <= k < groups implies order[k] == #[trigger] source_groups@[k] by {
        assert(listed[k] == source_groups@[k]);
    }
    assert((rn + 1) * gpn == rn * gpn + gpn) by (nonlinear_arith);
    if remote > 0 {
        lemma_fundamental_div_mod_converse(0, gpn, 0, 0);
        lemma_ring_of_nodes(rn, n, gpn, 0);
        assert(order[0] == source_groups@[0]);
    }
    if i + 1 < remote {
        assert(order[i] == source_groups@[i] && order[i + 1] == source_groups@[i + 1]);
        let q = i / gpn;
        let r = i % gpn;
        lemma_fundamental_div_mod(i, gpn);
        assert(0 <= q < n - 1) by (nonlinear_arith)
            requires
                i == gpn * q + r,
                0 <= r < gpn,
                0 <= i < (n - 1) * gpn,
        ;
        let node = (rn + 1 + q) % n;
        lemma_fundamental_div_mod(rn + 1 + q, n);
        assert(0 <= node < n);
        assert(0 <= node * gpn && node * gpn + gpn <= groups) by (nonlinear_arith)
            requires
                0 <= node,
                node + 1 <= n,
                0 < gpn,
                groups == n * gpn,
        ;
        if r + 1 < gpn {
            lemma_fundamental_div_mod_converse(i + 1, gpn, q, r + 1);
            lemma_fundamental_div_mod_converse(node * gpn + r + 1, groups, 0, node * gpn + r + 1);
        } else {
            assert(i + 1 == gpn * (q + 1)) by (nonlinear_arith)
                requires
                    i == gpn * q + r,
                    r + 1 == gpn,
            ;
            lemma_fundamental_div_mod_converse(i + 1, gpn, q + 1, 0);
            lemma_ring_of_nodes(rn, n, gpn, q);
            lemma_ring_of_nodes(rn, n, gpn, q + 1);
            lemma_ring_of_nodes_step(node, n, gpn);
            vstd::arithmetic::div_mod::lemma_add_mod_noop(rn + 1 + q, 1, n);
            vstd::arithmetic::div_mod::lemma_add_mod_noop(node, 1, n);
            vstd::arithmetic::div_mod::lemma_mod_twice(rn + 1 + q, n);
        }
    }
    if gpn > 1 {
        assert(order[remote] == source_groups@[remote]);
        lemma_local_step(dg, rn, gpn, 0);
    }
    if remote <= i {
        assert(order[i] == source_groups@[i] && order[i + 1] == source_groups@[i + 1]);
        let j = i - remote;
        lemma_local_step(dg, rn, gpn, j + 1);
        if j + 1 == gpn - 1 {
            // Once around the node.
            vstd::arithmetic::div_mod::lemma_add_mod_noop(dg, gpn, gpn);
            vstd::arithmetic::div_mod::lemma_mod_self_0(gpn);
            vstd::arithmetic::div_mod::lemma_mod_twice(dg, gpn);
            lemma_fundamental_div_mod_converse(dg, gpn, rn, dg - rn * gpn);
        }
    }
}

/// A group that is so many places further around a node is followed by the next on the node.
proof fn lemma_local_step(dp_group: int, rank_node: int, groups_per_node: int, j: int)
    requires
        0 < groups_per_node,
        0 <= j,
        rank_node * groups_per_node <= dp_group < rank_node * groups_per_node + groups_per_node,
        0 <= rank_node,
    ensures
        next_on_node(
            rank_node * groups_per_node + (dp_group + j) % groups_per_node,
            groups_per_node,
        ) == rank_node * groups_per_node + (dp_group + 1 + j) % groups_per_node,
        j == 0 ==> rank_node * groups_per_node + (dp_group + j) % groups_per_node == dp_group,
{
    let gpn = groups_per_node;
    let w = (dp_group + j) % gpn;
    lemma_fundamental_div_mod(dp_group + j, gpn);
    let q = (dp_group + j) / gpn;
    lemma_fundamental_div_mod_converse(dp_group, gpn, rank_node, dp_group - rank_node * gpn);
    let base = rank_node * gpn;
    assert(base == gpn * rank_node) by (nonlinear_arith)
        requires
            base == rank_node * gpn,
    ;
    if w + 1 < gpn {
        lemma_fundamental_div_mod_converse(dp_group + 1 + j, gpn, q, w + 1);
        lemma_fundamental_div_mod_converse(base + w + 1, gpn, rank_node, w + 1);
    } else {
        assert(gpn * (q + 1) == gpn * q + gpn) by (nonlinear_arith);
        assert((q + 1) * gpn == gpn * (q + 1)) by (nonlinear_arith);
        lemma_fundamental_div_mod_converse(dp_group + 1 + j, gpn, q + 1, 0);
        assert((rank_node + 1) * gpn == base + gpn) by (nonlinear_arith)
            requires
                base == rank_node * gpn,
        ;
        lemma_fundamental_div_mod_converse(base + w + 1, gpn, rank_node + 1, 0);
    }
}

/// The first group of a node that is so many places further around.
proof fn lemma_ring_of_nodes(rank_node: int, num_nodes: int, groups_per_node: int, a: int)
    requires
        0 <= rank_node < num_nodes,
        0 < groups_per_node,
        0 <= a,
    ensures
        ((rank_node + 1 + a) * groups_per_node) % (num_nodes * groups_per_node) == (rank_node + 1
            + a) % num_nodes * groups_per_node,
{
    let sum = rank_node + 1 + a;
    let q = sum / num_nodes;
    let r = sum % num_nodes;
    let all = num_nodes * groups_per_node;
    lemma_fundamental_div_mod(sum, num_nodes);
    assert(sum * groups_per_node == q * all + r * groups_per_node) by (nonlinear_arith)
        requires
            sum == num_nodes * q + r,
            all == num_nodes * groups_per_node,
    ;
    assert(0 <= r * groups_per_node < all) by (nonlinear_arith)
        requires
            0 <= r < num_nodes,
            0 < groups_per_node,
            all == num_nodes * groups_per_node,
    ;
    lemma_fundamental_div_mod_converse(sum * groups_per_node, all, q, r * groups_per_node);
}

/// The first group of the node after another.
proof fn lemma_ring_of_nodes_step(node: int, num_nodes: int, groups_per_node: int)
    requires
        0 <= node < num_nodes,
        0 < groups_per_node,
    ensures
        (node * groups_per_node + groups_per_node) % (num_nodes * groups_per_node) == (node + 1)
            % num_nodes * groups_per_node,
{
    assert((node + 1 + 0) * groups_per_node == node * groups_per_node + groups_per_node)
        by (nonlinear_arith);
    lemma_ring_of_nodes(node, num_nodes, groups_per_node, 0);
}

/// The smaller of two sizes is one of them, and not above the other.
pub proof fn law_min_is_the_smaller(a: usize, b: usize, m: usize)
    requires
        call_ensures(min_usize, (a, b), m),
    ensures
        m <= a,
        m <= b,
        m == a || m == b,
{
}

} // verus!
