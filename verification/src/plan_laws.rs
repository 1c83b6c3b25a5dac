//! What holds of a receive plan, in terms of the table of route counts that it is made for.

use vstd::prelude::*;
use crate::cluster::{law_source_order_remote_local_self, lemma_group_node, lemma_regular, Cluster};
use crate::cluster_laws::{has_shape, law_groups_sit_on_nodes, lemma_shape};
use crate::laws::law_every_token_arrives_once;
use crate::limits::{block_total, row_total};
use crate::padding::compute_padded_offsets;
use crate::receive_plan::{compute_receive_route_plan, run_index, ReceiveRoutePlan};
use crate::route_layout::{compute_low_latency_route_layout_plan, LowLatencyRouteLayoutPlan};
use crate::routing::{
    ascending, chosen_sum, lemma_visited_is_chosen, row_sum, table, visited_sum, RouteTable,
};
use crate::sums::total;
use crate::traffic::{lemma_block, lemma_group_at};
use crate::traffic_laws::together;

verus! {

/// The count of a group for an expert.
pub open spec fn cell(t: RouteTable, group: int, expert: int) -> int {
    t[group][expert] as int
}

/// The counts of a group for experts from `lo` on.
pub open spec fn row_from(t: RouteTable, group: int, lo: int) -> spec_fn(int) -> int {
    |i: int| cell(t, group, lo + i)
}

/// The counts of all groups for an expert.
pub open spec fn column(t: RouteTable, expert: int) -> spec_fn(int) -> int {
    |g: int| cell(t, g, expert)
}

/// How many experts of a group's block exist.
pub open spec fn block_len(c: Cluster, block: int, group: int) -> int {
    if (group + 1) * block <= c.num_experts {
        block
    } else if group * block <= c.num_experts {
        c.num_experts - group * block
    } else {
        0
    }
}

/// Whether the peer in a group sits on this rank's node.
pub open spec fn is_near(c: Cluster, group: int) -> bool {
    together(
        group * c.dp_size + c.dp_rank,
        c.dp_group * c.dp_size + c.dp_rank,
        c.node_size as int,
    )
}

/// The tokens that a group sends to this rank.
pub open spec fn sent_here(c: Cluster, t: RouteTable, block: int, group: int) -> int {
    total(row_from(t, group, c.dp_group * block), block_len(c, block, c.dp_group as int))
}

/// The tokens that each group sends to this rank.
pub open spec fn arrivals_by_group(c: Cluster, t: RouteTable, block: int) -> spec_fn(int) -> int {
    |g: int| sent_here(c, t, block, g)
}

/// The tokens that each group on another node sends to this rank.
pub open spec fn arrivals_from_far(c: Cluster, t: RouteTable, block: int) -> spec_fn(int) -> int {
    |g: int|
        if is_near(c, g) {
            0
        } else {
            sent_here(c, t, block, g)
        }
}

/// The messages that each group sends to this rank: none from this node; from another, one, and
/// one per interface more where there are more tokens than a private buffer holds.
pub open spec fn messages_by_group(
    c: Cluster,
    t: RouteTable,
    block: int,
    private: int,
    nets: int,
) -> spec_fn(int) -> int {
    |g: int|
        if is_near(c, g) {
            0
        } else if sent_here(c, t, block, g) > private {
            1 + nets
        } else {
            1
        }
}

/// Sums over a row are sums.
pub proof fn lemma_row_total(t: RouteTable, group: int, lo: int, n: int)
    requires
        0 <= n,
    ensures
        row_sum(t, group, lo, lo + n) == total(row_from(t, group, lo), n),
    decreases n,
{
    if n > 0 {
        lemma_row_total(t, group, lo, n - 1);
    }
}

/// Sums over visits are sums.
pub proof fn lemma_visited_total(
    t: RouteTable,
    order: Seq<int>,
    lo: int,
    hi: int,
    f: spec_fn(int) -> int,
    n: int,
)
    requires
        forall|i: int| 0 <= i < n ==> #[trigger] f(i) == row_sum(t, order[i], lo, hi),
    ensures
        visited_sum(t, order, lo, hi, n) == total(f, n),
    decreases n,
{
    if n > 0 {
        lemma_visited_total(t, order, lo, hi, f, n - 1);
        assert(f(n - 1) == row_sum(t, order[n - 1], lo, hi));
    }
}

/// Sums over some groups are sums.
proof fn lemma_chosen_total(
    t: RouteTable,
    chosen: Set<int>,
    lo: int,
    hi: int,
    f: spec_fn(int) -> int,
    n: int,
)
    requires
        forall|g: int|
            0 <= g < n ==> #[trigger] f(g) == if chosen.contains(g) {
                row_sum(t, g, lo, hi)
            } else {
                0
            },
    ensures
        chosen_sum(t, chosen, lo, hi, n) == total(f, n),
    decreases n,
{
    if n > 0 {
        lemma_chosen_total(t, chosen, lo, hi, f, n - 1);
        assert(f(n - 1) == f(n - 1));
    }
}

/// Sums over messages are sums.
proof fn lemma_messages_total(
    c: Cluster,
    t: RouteTable,
    private: int,
    nets: int,
    f: spec_fn(int) -> int,
    n: int,
)
    requires
        forall|g: int| 0 <= g < n ==> #[trigger] f(g) == c.messages_from(t, private, nets, g),
    ensures
        c.messages_below(t, private, nets, n) == total(f, n),
    decreases n,
{
    if n > 0 {
        lemma_messages_total(c, t, private, nets, f, n - 1);
        assert(f(n - 1) == c.messages_from(t, private, nets, n - 1));
    }
}

/// The block of a group, as the cluster sees it.
pub proof fn lemma_block_len(c: Cluster, groups: int, block: int, group: int)
    requires
        has_shape(c, groups, block),
        0 <= group < groups,
    ensures
        c.first_expert(group) == group * block,
        group * block <= c.num_experts ==> c.last_expert(group) == group * block + block_len(
            c,
            block,
            group,
        ),
        group * block <= c.num_experts ==> 0 <= block_len(c, block, group) <= block,
        group * block > c.num_experts ==> c.last_expert(group) <= group * block && block_len(
            c,
            block,
            group,
        ) == 0,
        0 <= group * block,
{
    lemma_shape(c, groups, block);
    lemma_block(c, group);
    assert((group + 1) * block == group * block + block) by (nonlinear_arith);
}

/// What a group sends to this rank, as the cluster sees it.
proof fn lemma_sent_here(c: Cluster, t: RouteTable, groups: int, block: int, group: int)
    requires
        has_shape(c, groups, block),
        c.dp_group < groups,
        c.dp_group * block <= c.num_experts,
    ensures
        c.from_group(t, group) == sent_here(c, t, block, group),
        c.first_local() == c.dp_group * block,
        c.local_experts() == block_len(c, block, c.dp_group as int),
        c.last_local() == c.first_local() + c.local_experts(),
        0 <= c.local_experts() <= block,
{
    lemma_block_len(c, groups, block, c.dp_group as int);
    lemma_row_total(
        t,
        group,
        c.dp_group * block,
        block_len(c, block, c.dp_group as int),
    );
}

/// What a plan counts, wherever the ranks sit.
pub open spec fn counts_cells(
    plan: ReceiveRoutePlan,
    c: Cluster,
    t: RouteTable,
    groups: int,
    block: int,
) -> bool {
    let own = c.dp_group as int;
    let first = own * block;
    let local = block_len(c, block, own);
    &&& plan.tokens_from_group@.len() == groups
    &&& plan.src_group_offset@.len() == groups
    &&& plan.dst_group_offset@.len() == groups
    &&& forall|g: int|
        0 <= g < groups ==> #[trigger] plan.tokens_from_group@[g] == sent_here(c, t, block, g)
    // Tokens lie group after group where they are received.
    &&& forall|g: int|
        0 <= g < groups && total(arrivals_by_group(c, t, block), g) <= u32::MAX
            ==> #[trigger] plan.src_group_offset@[g] == total(arrivals_by_group(c, t, block), g)
    // And expert after expert where they are sent from.
    &&& forall|g: int|
        0 <= g < groups ==> #[trigger] plan.dst_group_offset@[g] == total(row_from(t, g, 0), first)
    &&& plan.tokens_per_expert@.len() == block
    &&& forall|l: int|
        0 <= l < block ==> #[trigger] plan.tokens_per_expert@[l] == if l < local {
            total(column(t, first + l), groups)
        } else {
            0
        }
    &&& plan.num_recv_tokens == total(arrivals_by_group(c, t, block), groups)
    // What this rank's group sends goes to one rank of each group.
    &&& plan.tokens_to_rank@.len() == c.world_size
    &&& plan.dispatch_src_offset@.len() == c.world_size
    &&& forall|g: int|
        0 <= g < groups ==> {
            let peer = #[trigger] (g * c.dp_size) + c.dp_rank;
            &&& plan.tokens_to_rank@[peer] == total(
                row_from(t, own, g * block),
                block_len(c, block, g),
            )
            &&& plan.dispatch_src_offset@[peer] == total(
                row_from(t, own, 0),
                if g * block <= c.num_experts {
                    g * block
                } else {
                    c.num_experts as int
                },
            )
        }
    &&& forall|p: int|
        0 <= p < c.world_size && p % c.dp_size as int != c.dp_rank ==> #[trigger]
        plan.tokens_to_rank@[p] == 0
}

/// What a plan counts.
pub open spec fn counts_what_arrives(
    plan: ReceiveRoutePlan,
    c: Cluster,
    t: RouteTable,
    groups: int,
    block: int,
    private: int,
    nets: int,
) -> bool {
    &&& counts_cells(plan, c, t, groups, block)
    &&& plan.num_recv_efa_tokens == total(arrivals_from_far(c, t, block), groups)
    &&& plan.num_recv_tx == total(messages_by_group(c, t, block, private, nets), groups)
}

/// Wherever the ranks sit, a plan counts what arrives, by group and by expert, and what is sent,
/// by rank.
pub proof fn law_plan_counts_cells_anywhere(
    plan: ReceiveRoutePlan,
    c: Cluster,
    t: RouteTable,
    groups: int,
    block: int,
    padding: int,
    stride: int,
    private: int,
    nets: int,
)
    requires
        plan.matches(c, t, padding, stride, private, nets),
        has_shape(c, groups, block),
        c.dp_group < groups,
        c.dp_rank < c.dp_size,
        (groups - 1) * c.dp_size + c.dp_rank < c.world_size,
        c.dp_group * block <= c.num_experts,
    ensures
        counts_cells(plan, c, t, groups, block),
{
    let own = c.dp_group as int;
    let first = own * block;
    let local = block_len(c, block, own);
    lemma_shape(c, groups, block);
    lemma_sent_here(c, t, groups, block, own);
    assert forall|g: int| 0 <= g < groups implies c.from_group(t, g) == #[trigger] sent_here(
        c,
        t,
        block,
        g,
    ) by {
        lemma_sent_here(c, t, groups, block, g);
    }
    assert forall|g: int| 0 <= g < groups implies #[trigger] plan.tokens_from_group@[g]
        == sent_here(c, t, block, g) by {
        lemma_sent_here(c, t, groups, block, g);
    }
    assert forall|n: int| 0 <= n <= groups implies #[trigger] c.from_groups_below(t, n) == total(
        arrivals_by_group(c, t, block),
        n,
    ) by {
        assert forall|i: int| 0 <= i < n implies #[trigger] arrivals_by_group(c, t, block)(i)
            == row_sum(t, ascending(groups)[i], c.first_local(), c.last_local()) by {
            assert(sent_here(c, t, block, i) == c.from_group(t, i));
        }
        lemma_visited_total(
            t,
            ascending(groups),
            c.first_local(),
            c.last_local(),
            arrivals_by_group(c, t, block),
            n,
        );
    }
    assert forall|g: int|
        0 <= g < groups && total(arrivals_by_group(c, t, block), g) <= u32::MAX implies #[trigger]
        plan.src_group_offset@[g] == total(arrivals_by_group(c, t, block), g) by {
        assert(c.from_groups_below(t, g) == total(arrivals_by_group(c, t, block), g));
        crate::routing::lemma_visited_sum_nonneg(
            t,
            ascending(groups),
            c.first_local(),
            c.last_local(),
            g,
        );
    }
    assert forall|g: int| 0 <= g < groups implies #[trigger] plan.dst_group_offset@[g] == total(
        row_from(t, g, 0),
        first,
    ) by {
        lemma_block_len(c, groups, block, own);
        lemma_row_total(t, g, 0, first);
    }
    assert forall|l: int| 0 <= l < block implies #[trigger] plan.tokens_per_expert@[l] == (if l
        < local {
        total(column(t, first + l), groups)
    } else {
        0
    }) by {
        if l < local {
            assert forall|i: int| 0 <= i < groups implies #[trigger] column(t, first + l)(i)
                == row_sum(t, ascending(groups)[i], first + l, first + l + 1) by {
                crate::routing::lemma_row_sum_cell(t, i, first + l);
            }
            lemma_visited_total(
                t,
                ascending(groups),
                first + l,
                first + l + 1,
                column(t, first + l),
                groups,
            );
        }
    }
    // What is sent.
    assert forall|g: int| 0 <= g < groups implies {
        let peer = #[trigger] (g * c.dp_size) + c.dp_rank;
        &&& plan.tokens_to_rank@[peer] == total(row_from(t, own, g * block), block_len(c, block, g))
        &&& plan.dispatch_src_offset@[peer] == total(
            row_from(t, own, 0),
            if g * block <= c.num_experts {
                g * block
            } else {
                c.num_experts as int
            },
        )
    } by {
        lemma_block_len(c, groups, block, g);
        lemma_group_at(c, g);
        let peer = c.rank_of(g);
        assert(0 <= peer < c.world_size);
        assert(c.group_at(peer) == g);
        assert(plan.tokens_to_rank@[peer] == c.to_group(t, g));
        assert(plan.dispatch_src_offset@[peer] == c.to_groups_below(t, g));
        if g * block <= c.num_experts {
            lemma_row_total(t, own, g * block, block_len(c, block, g));
            lemma_row_total(t, own, 0, g * block);
        } else {
            lemma_row_total(t, own, 0, c.num_experts as int);
        }
    }
    assert forall|p: int|
        0 <= p < c.world_size && p % c.dp_size as int != c.dp_rank implies #[trigger]
        plan.tokens_to_rank@[p] == 0 by {
        if c.group_at(p) >= 0 {
            crate::traffic::lemma_rank_of_group_at(c, p);
            vstd::arithmetic::div_mod::lemma_fundamental_div_mod_converse(
                p,
                c.dp_size as int,
                c.group_at(p),
                c.dp_rank as int,
            );
        }
    }
}

/// A plan counts what arrives: by group, by expert, from other nodes and in messages; and what
/// is sent, by rank. Every count is a sum over the cells of the table that it stands for.
pub proof fn law_plan_counts_cells(
    plan: ReceiveRoutePlan,
    c: Cluster,
    t: RouteTable,
    groups: int,
    block: int,
    padding: int,
    stride: int,
    private: int,
    nets: int,
)
    requires
        plan.matches(c, t, padding, stride, private, nets),
        c.regular(),
        has_shape(c, groups, block),
        c.dp_group * block <= c.num_experts,
    ensures
        counts_what_arrives(plan, c, t, groups, block, private, nets),
{
    let own = c.dp_group as int;
    let order = c.source_order();
    lemma_shape(c, groups, block);
    lemma_regular(c);
    lemma_sent_here(c, t, groups, block, own);
    law_source_order_remote_local_self(c);
    assert forall|g: int| 0 <= g < groups implies (is_near(c, g) <==> c.same_node(g))
        && c.from_group(t, g) == #[trigger] sent_here(c, t, block, g) by {
        law_groups_sit_on_nodes(c, g);
        lemma_sent_here(c, t, groups, block, g);
    }
    lemma_last_rank(c, groups);
    law_plan_counts_cells_anywhere(
        plan,
        c,
        t,
        groups,
        block,
        padding,
        stride,
        private,
        nets,
    );
    // From other nodes.
    let rv = c.remote_visits();
    let far = order.take(rv).to_set();
    assert forall|g: int| 0 <= g < groups implies #[trigger] arrivals_from_far(c, t, block)(g)
        == (if far.contains(g) {
        row_sum(t, g, c.first_local(), c.last_local())
    } else {
        0
    }) by {
        assert(sent_here(c, t, block, g) == c.from_group(t, g));
        assert(far.contains(g) <==> !c.same_node(g)) by {
            assert(order.contains(g));
            let i = choose|i: int| 0 <= i < order.len() && order[i] == g;
            assert(order[i] == g);
            if i < rv {
                assert(order.take(rv)[i] == g);
            }
            if far.contains(g) {
                let j = choose|j: int| 0 <= j < order.take(rv).len() && order.take(rv)[j] == g;
                assert(order[j] == g);
            }
        }
    }
    crate::receive_plan::lemma_remote_visits_in_range(c);
    lemma_visited_is_chosen(t, order, c.first_local(), c.last_local(), rv, groups);
    lemma_chosen_total(
        t,
        far,
        c.first_local(),
        c.last_local(),
        arrivals_from_far(c, t, block),
        groups,
    );
    // Messages.
    assert forall|g: int| 0 <= g < groups implies #[trigger] messages_by_group(
        c,
        t,
        block,
        private,
        nets,
    )(g) == c.messages_from(t, private, nets, g) by {
        assert(sent_here(c, t, block, g) == c.from_group(t, g));
        lemma_group_node(c, g);
        lemma_group_node(c, own);
    }
    lemma_messages_total(
        c,
        t,
        private,
        nets,
        messages_by_group(c, t, block, private, nets),
        groups,
    );
}

/// The peer in the last group is a rank.
proof fn lemma_last_rank(c: Cluster, groups: int)
    requires
        c.regular(),
        c.groups() == groups,
    ensures
        c.rank_of(groups - 1) < c.world_size,
{
    lemma_regular(c);
    assert((groups - 1) * c.dp_size == groups * c.dp_size - c.dp_size) by (nonlinear_arith);
}

/// The receive plan of a rank counts what arrives by the table that it is made for, and where
/// ranks fill whole nodes also what arrives from other nodes.
pub proof fn law_receive_plan_counts_cells(
    c: Cluster,
    groups: int,
    block: int,
    padding: usize,
    stride: usize,
    private: usize,
    nets: u32,
    num_routed: Vec<Vec<u32>>,
    plan: ReceiveRoutePlan,
)
    requires
        call_ensures(
            compute_receive_route_plan,
            (
                c.dp_group,
                c.dp_rank,
                c.dp_size,
                c.node_size,
                c.world_size,
                c.num_experts,
                padding,
                stride,
                private,
                nets,
                &num_routed,
            ),
            plan,
        ),
        has_shape(c, groups, block),
        c.dp_group < groups,
        c.dp_rank < c.dp_size,
        (groups - 1) * c.dp_size + c.dp_rank < c.world_size,
        c.dp_group * block <= c.num_experts,
    ensures
        counts_cells(plan, c, table(&num_routed), groups, block),
        c.regular() ==> counts_what_arrives(
            plan,
            c,
            table(&num_routed),
            groups,
            block,
            private as int,
            nets as int,
        ),
{
    law_plan_counts_cells_anywhere(
        plan,
        c,
        table(&num_routed),
        groups,
        block,
        padding as int,
        stride as int,
        private as int,
        nets as int,
    );
    if c.regular() {
        law_plan_counts_cells(
            plan,
            c,
            table(&num_routed),
            groups,
            block,
            padding as int,
            stride as int,
            private as int,
            nets as int,
        );
    }
}

/// The tokens for an expert that come with each visit.
pub open spec fn visit_column(t: RouteTable, order: Seq<int>, expert: int) -> spec_fn(int) -> int {
    |u: int| cell(t, order[u], expert)
}

/// The tokens for this rank that come with each visit.
pub open spec fn visit_counts(c: Cluster, t: RouteTable, block: int, order: Seq<int>) -> spec_fn(
    int,
) -> int {
    |u: int| sent_here(c, t, block, order[u])
}

/// A number of tokens for an expert, as a sum over visits.
proof fn lemma_visit_column(c: Cluster, t: RouteTable, l: int, visits: int)
    ensures
        c.arrived_for_expert(t, l, visits) == total(
            visit_column(t, c.source_order(), c.first_local() + l),
            visits,
        ),
{
    let order = c.source_order();
    let at = c.first_local() + l;
    assert forall|i: int| 0 <= i < visits implies #[trigger] visit_column(t, order, at)(i)
        == row_sum(t, order[i], at, at + 1) by {
        crate::routing::lemma_row_sum_cell(t, order[i], at);
    }
    lemma_visited_total(t, order, at, at + 1, visit_column(t, order, at), visits);
}

/// Whether a plan has a token at place `p`: the one that comes with visit `v`, for the local
/// expert `l`, as the `k`-th of its group for that expert.
pub open spec fn places_token(
    plan: ReceiveRoutePlan,
    c: Cluster,
    t: RouteTable,
    groups: int,
    block: int,
    private: int,
    order: Seq<int>,
    starts: Seq<u32>,
    p: int,
    v: int,
    l: int,
    k: int,
) -> bool {
    let own = c.dp_group as int;
    let first = own * block;
    let g = order[v];
    // Its number among the tokens of its group for this rank, and among all that its group sends.
    let m = total(row_from(t, g, first), l) + k;
    let at_source = total(row_from(t, g, 0), first + l) + k;
    // How many tokens of the groups below its own come here.
    let below = total(arrivals_by_group(c, t, block), g);
    let run = plan.layout_range@[l * groups + g] as int;
    &&& 0 <= v < order.len()
    &&& 0 <= l < block_len(c, block, own)
    &&& 0 <= k < cell(t, g, first + l)
    // Tokens come visit by visit, and expert by expert within a visit.
    &&& p == total(visit_counts(c, t, block, order), v) + m
    &&& plan.source_rank@[p] == g * c.dp_size + c.dp_rank
    // The run of its group lies behind those of the groups that come before.
    &&& run % 0x1_0000_0000 == cell(t, g, first + l)
    &&& run / 0x1_0000_0000 == total(visit_column(t, order, first + l), v)
    &&& plan.padded_index@[p] == starts[l] + run / 0x1_0000_0000 + k
    &&& plan.source_dispatch_offset@[p] == if g == own {
        at_source
    } else if m < private {
        private * g + m
    } else if is_near(c, g) {
        0x8000_0000 + at_source
    } else {
        private * groups + below + (m - private)
    }
    &&& plan.combine_send_offset@[p] == if is_near(c, g) {
        at_source
    } else {
        below + m
    }
}

/// A plan gives every token that arrives its place: where it is read from, where its result goes,
/// which rank it comes from, and which row it is put in.
pub proof fn law_plan_places_every_token(
    plan: ReceiveRoutePlan,
    c: Cluster,
    t: RouteTable,
    groups: int,
    block: int,
    padding: usize,
    stride: usize,
    private: int,
    nets: int,
    tokens_per_expert: &[u32],
    starts: Vec<u32>,
    p: int,
)
    requires
        plan.matches(c, t, padding as int, stride as int, private, nets),
        call_ensures(compute_padded_offsets, (tokens_per_expert, padding, stride), starts),
        tokens_per_expert@ == plan.tokens_per_expert@,
        c.regular(),
        has_shape(c, groups, block),
        c.dp_group * block <= c.num_experts,
        0 <= private,
        private * groups <= u32::MAX,
        plan.num_recv_tokens <= u32::MAX,
        forall|g: int|
            0 <= g < groups ==> #[trigger] row_sum(t, g, 0, c.num_experts as int) < 0x8000_0000,
        c.world_size <= u32::MAX,
        0 <= p < plan.num_recv_tokens,
    ensures
        plan.source_rank@.len() == plan.num_recv_tokens,
        plan.padded_index@.len() == plan.num_recv_tokens,
        plan.source_dispatch_offset@.len() == plan.num_recv_tokens,
        plan.combine_send_offset@.len() == plan.num_recv_tokens,
        plan.layout_range@.len() == block_len(c, block, c.dp_group as int) * groups,
        exists|v: int, l: int, k: int|
            #[trigger] places_token(
                plan,
                c,
                t,
                groups,
                block,
                private,
                c.source_order(),
                starts@,
                p,
                v,
                l,
                k,
            ),
{
    let own = c.dp_group as int;
    let first = own * block;
    let order = c.source_order();
    lemma_shape(c, groups, block);
    lemma_regular(c);
    lemma_sent_here(c, t, groups, block, own);
    law_source_order_remote_local_self(c);
    law_every_token_arrives_once(c, t);
    crate::laws::lemma_token(c, t, p);
    let a = c.arrivals(t)[p];
    let (v, l, k) = (a.visit, a.local_expert, a.index);
    let g = order[v];
    assert(c.source_group(a) == g);
    lemma_block_len(c, groups, block, own);
    lemma_row_total(t, g, first, l);
    lemma_row_total(t, g, 0, first + l);
    let m = c.index_in_group(t, a);
    assert(m == total(row_from(t, g, first), l) + k);
    assert(c.index_at_source(t, a) == total(row_from(t, g, 0), first + l) + k);
    // Groups below.
    assert forall|i: int| 0 <= i < groups implies #[trigger] arrivals_by_group(c, t, block)(i)
        == row_sum(t, ascending(groups)[i], c.first_local(), c.last_local()) by {
        lemma_sent_here(c, t, groups, block, i);
    }
    lemma_visited_total(
        t,
        ascending(groups),
        c.first_local(),
        c.last_local(),
        arrivals_by_group(c, t, block),
        g,
    );
    let below = total(arrivals_by_group(c, t, block), g);
    assert(c.from_groups_below(t, g) == below);
    // Visits before.
    assert forall|i: int| 0 <= i < v implies #[trigger] visit_counts(c, t, block, order)(i)
        == row_sum(t, order[i], c.first_local(), c.last_local()) by {
        lemma_sent_here(c, t, groups, block, order[i]);
    }
    lemma_visited_total(
        t,
        order,
        c.first_local(),
        c.last_local(),
        visit_counts(c, t, block, order),
        v,
    );
    assert(p == total(visit_counts(c, t, block, order), v) + m);
    // The rank that it comes from.
    lemma_group_at(c, g);
    lemma_last_rank(c, groups);
    assert(plan.source_rank@[p] == c.rank_of(g) as u32);
    // The run of its group.
    lemma_visit_column(c, t, l, v);
    assert(run_index(groups, l, order[v]) == l * groups + g);
    let run = plan.layout_range@[l * groups + g] as int;
    assert(run == c.packed_run(t, l, v)) by {
        assert(plan.layout_range@[run_index(c.groups(), l, c.source_order()[v])] == c.packed_run(
            t,
            l,
            v,
        ));
    }
    let earlier = c.arrived_for_expert(t, l, v);
    vstd::arithmetic::div_mod::lemma_fundamental_div_mod_converse(
        run,
        0x1_0000_0000,
        earlier,
        cell(t, g, first + l),
    );
    // The row.
    assert(plan.tokens_per_expert@ =~= c.expert_totals(t));
    assert(plan.padded_index@[p] == c.output_row(t, padding as int, stride as int, a));
    assert(starts@[l] == crate::padding::padded_offset(
        c.expert_totals(t),
        padding as int,
        stride as int,
        l,
    ));
    // Where it is read from and where its result goes.
    law_groups_sit_on_nodes(c, g);
    law_groups_sit_on_nodes(c, own);
    assert(0 <= private * g && private * g + private <= private * groups && private <= private
        * groups) by (nonlinear_arith)
        requires
            0 <= private,
            0 <= g,
            g + 1 <= groups,
    ;
    crate::laws::lemma_token(c, t, p);
    assert(row_sum(t, g, 0, c.num_experts as int) < 0x8000_0000);
    let place = c.index_at_source(t, a) as u32;
    assert(place < 0x8000_0000u32 ==> (place | 0x8000_0000u32) == 0x8000_0000u32 + place)
        by (bit_vector);
    assert(plan.source_dispatch_offset@[p] == c.dispatch_offset(t, private, a));
    assert(plan.combine_send_offset@[p] == c.combine_offset(t, a));
    assert(c.same_node(own));
    assert(places_token(
        plan,
        c,
        t,
        groups,
        block,
        private,
        order,
        starts@,
        p,
        v,
        l,
        k,
    ));
}

/// Where the tokens of the experts start: with a stride, that far apart; without one, each after
/// the tokens of the one before, rounded up to a multiple of the padding.
pub proof fn law_experts_start_one_after_another(
    tokens_per_expert: &[u32],
    padding: usize,
    stride: usize,
    starts: Vec<u32>,
    l: int,
)
    requires
        call_ensures(compute_padded_offsets, (tokens_per_expert, padding, stride), starts),
        stride == 0 ==> padding > 0,
        0 <= l < tokens_per_expert@.len(),
    ensures
        starts@.len() == tokens_per_expert@.len(),
        starts@[0] == 0,
        stride > 0 && l * stride <= u32::MAX ==> starts@[l] == l * stride,
        stride == 0 && l + 1 < tokens_per_expert@.len() && tokens_per_expert@[l] + padding
            <= u32::MAX ==> {
            let room = starts@[l + 1] - starts@[l];
            &&& room % padding as int == 0
            &&& tokens_per_expert@[l] <= room < tokens_per_expert@[l] + padding
        },
{
    let totals = tokens_per_expert@;
    let pad = padding as int;
    assert(starts@[0] == crate::padding::padded_offset(totals, pad, stride as int, 0));
    assert(starts@[l] == crate::padding::padded_offset(totals, pad, stride as int, l));
    assert(0 <= l * stride) by (nonlinear_arith)
        requires
            0 <= l,
    ;
    if stride == 0 && l + 1 < totals.len() {
        assert(starts@[l + 1] == crate::padding::padded_offset(totals, pad, 0, l + 1));
        crate::arith::law_align_up_is_least_multiple(totals[l] as int, pad, 0);
    }
}

/// Whether a reported layout is that of the plan: the same counts, rows and runs, with the group
/// of every token and the counts by group and expert.
pub open spec fn reports_plan(
    layout: LowLatencyRouteLayoutPlan,
    c: Cluster,
    t: RouteTable,
    groups: int,
    block: int,
) -> bool {
    let own = c.dp_group as int;
    let first = own * block;
    let local = block_len(c, block, own);
    &&& layout.num_recv_tokens == total(arrivals_by_group(c, t, block), groups)
    &&& layout.source_group_order@.len() == groups
    &&& forall|i: int|
        0 <= i < groups ==> #[trigger] layout.source_group_order@[i] == c.source_order()[i]
    &&& layout.tokens_per_expert@.len() == block
    &&& forall|l: int|
        0 <= l < local ==> #[trigger] layout.tokens_per_expert@[l] == total(
            column(t, first + l),
            groups,
        )
    &&& layout.tokens_per_source_group_per_local_expert@.len() == groups
    &&& forall|g: int|
        0 <= g < groups ==> (
        #[trigger] layout.tokens_per_source_group_per_local_expert@[g])@.len() == local
    &&& forall|g: int, l: int|
        0 <= g < groups && 0 <= l < local ==> #[trigger]
        layout.tokens_per_source_group_per_local_expert@[g]@[l] == cell(t, g, first + l)
    &&& layout.source_rank@.len() == layout.num_recv_tokens
    &&& layout.source_group@.len() == layout.num_recv_tokens
    &&& layout.final_index@.len() == layout.num_recv_tokens
    &&& forall|p: int|
        0 <= p < layout.num_recv_tokens ==> {
            let a = c.arrivals(t)[p];
            &&& #[trigger] layout.source_rank@[p] == c.source_group(a) * c.dp_size + c.dp_rank
            &&& layout.source_group@[p] == c.source_group(a)
        }
}

/// The reported layout of a rank agrees with the table that it is made for.
pub proof fn law_reported_layout_agrees(
    layout: LowLatencyRouteLayoutPlan,
    c: Cluster,
    t: RouteTable,
    groups: int,
    block: int,
    padding: int,
    stride: int,
    p: int,
)
    requires
        layout.matches(c, t, padding, stride),
        crate::routing::covers(t, c),
        c.regular(),
        has_shape(c, groups, block),
        c.dp_group * block <= c.num_experts,
        c.world_size <= u32::MAX,
    ensures
        reports_plan(layout, c, t, groups, block),
        0 <= p < layout.num_recv_tokens ==> layout.final_index@[p] == c.output_row(
            t,
            padding,
            stride,
            c.arrivals(t)[p],
        ),
{
    let own = c.dp_group as int;
    let first = own * block;
    let local = block_len(c, block, own);
    lemma_shape(c, groups, block);
    lemma_regular(c);
    lemma_sent_here(c, t, groups, block, own);
    law_source_order_remote_local_self(c);
    law_every_token_arrives_once(c, t);
    assert forall|i: int| 0 <= i < groups implies #[trigger] arrivals_by_group(c, t, block)(i)
        == row_sum(t, ascending(groups)[i], c.first_local(), c.last_local()) by {
        lemma_sent_here(c, t, groups, block, i);
    }
    lemma_visited_total(
        t,
        ascending(groups),
        c.first_local(),
        c.last_local(),
        arrivals_by_group(c, t, block),
        groups,
    );
    assert forall|l: int| 0 <= l < local implies #[trigger] layout.tokens_per_expert@[l] == total(
        column(t, first + l),
        groups,
    ) by {
        assert forall|i: int| 0 <= i < groups implies #[trigger] column(t, first + l)(i) == row_sum(
            t,
            ascending(groups)[i],
            first + l,
            first + l + 1,
        ) by {
            crate::routing::lemma_row_sum_cell(t, i, first + l);
        }
        lemma_visited_total(
            t,
            ascending(groups),
            first + l,
            first + l + 1,
            column(t, first + l),
            groups,
        );
    }
    assert forall|g: int| 0 <= g < groups implies (
    #[trigger] layout.tokens_per_source_group_per_local_expert@[g])@.len() == local by {
        assert(c.num_experts <= t[g].len());
    }
    assert forall|g: int, l: int| 0 <= g < groups && 0 <= l < local implies #[trigger]
        layout.tokens_per_source_group_per_local_expert@[g]@[l] == cell(t, g, first + l) by {
        assert(c.num_experts <= t[g].len());
    }
    assert forall|q: int| 0 <= q < layout.num_recv_tokens implies {
        let a = c.arrivals(t)[q];
        &&& #[trigger] layout.source_rank@[q] == c.source_group(a) * c.dp_size + c.dp_rank
        &&& layout.source_group@[q] == c.source_group(a)
    } by {
        crate::laws::lemma_token(c, t, q);
        let g = c.source_group(c.arrivals(t)[q]);
        lemma_group_at(c, g);
        lemma_last_rank(c, groups);
        lemma_group_node(c, g);
        assert(layout.source_group@[q] == layout.source_rank@[q] as int / (
        c.dp_size as u32) as int);
    }
}

/// The layout that is computed for a rank is reported as its plan is.
pub proof fn law_layout_is_that_of_the_table(
    c: Cluster,
    groups: int,
    block: int,
    padding: usize,
    stride: usize,
    private: usize,
    nets: u32,
    num_routed: Vec<Vec<u32>>,
    layout: LowLatencyRouteLayoutPlan,
    l: int,
    v: int,
)
    requires
        call_ensures(
            compute_low_latency_route_layout_plan,
            (
                c.dp_group,
                c.dp_rank,
                c.dp_size,
                c.node_size,
                c.world_size,
                c.num_experts,
                padding,
                stride,
                private,
                nets,
                &num_routed,
            ),
            layout,
        ),
        crate::routing::covers(table(&num_routed), c),
        c.regular(),
        has_shape(c, groups, block),
        c.dp_group * block <= c.num_experts,
        c.world_size <= u32::MAX,
        0 <= l < block_len(c, block, c.dp_group as int),
        0 <= v < groups,
        total(visit_column(table(&num_routed), c.source_order(), c.dp_group * block + l), v)
            <= u32::MAX,
    ensures
        reports_plan(layout, c, table(&num_routed), groups, block),
        layout.source_token_index@.len() == 0,
        ({
            let t = table(&num_routed);
            let order = c.source_order();
            let run = layout.layout_range@[l * groups + order[v]] as int;
            &&& run % 0x1_0000_0000 == cell(t, order[v], c.dp_group * block + l)
            &&& run / 0x1_0000_0000 == total(visit_column(t, order, c.dp_group * block + l), v)
        }),
{
    let t = table(&num_routed);
    let order = c.source_order();
    law_reported_layout_agrees(
        layout,
        c,
        t,
        groups,
        block,
        padding as int,
        stride as int,
        0,
    );
    lemma_shape(c, groups, block);
    lemma_sent_here(c, t, groups, block, c.dp_group as int);
    law_source_order_remote_local_self(c);
    lemma_visit_column(c, t, l, v);
    assert(run_index(groups, l, order[v]) == l * groups + order[v]);
    assert(layout.layout_range@[run_index(c.groups(), l, c.source_order()[v])] == c.packed_run(
        t,
        l,
        v,
    ));
    vstd::arithmetic::div_mod::lemma_fundamental_div_mod_converse(
        layout.layout_range@[l * groups + order[v]] as int,
        0x1_0000_0000,
        c.arrived_for_expert(t, l, v),
        cell(t, order[v], c.dp_group * block + l),
    );
}

/// The sum of a row, and that of a block of rows, are given just where they fit 64 bits.
pub proof fn law_limited_sums_are_sums(
    num_routed: Vec<Vec<u32>>,
    group: usize,
    lo: usize,
    hi: usize,
    row: Option<u64>,
    block: Option<u64>,
)
    requires
        call_ensures(row_total, (&num_routed, group, lo, hi), row),
        call_ensures(block_total, (&num_routed, group, lo, hi), block),
        lo <= hi,
    ensures
        ({
            let t = table(&num_routed);
            let sum = total(row_from(t, group as int, lo as int), hi - lo);
            let sums = total(rows_between(t, lo as int, hi as int), group as int);
            &&& row is Some <==> sum <= u64::MAX
            &&& row is Some ==> row->0 == sum
            &&& block is Some <==> sums <= u64::MAX
            &&& block is Some ==> block->0 == sums
        }),
{
    let t = table(&num_routed);
    lemma_row_total(t, group as int, lo as int, hi - lo);
    assert forall|g: int| 0 <= g < group implies #[trigger] rows_between(t, lo as int, hi as int)(g)
        == row_sum(t, ascending(group as int)[g], lo as int, hi as int) by {
        lemma_row_total(t, g, lo as int, hi - lo);
    }
    lemma_visited_total(
        t,
        ascending(group as int),
        lo as int,
        hi as int,
        rows_between(t, lo as int, hi as int),
        group as int,
    );
}

/// The counts of each group for experts from `lo` up to `hi`.
pub open spec fn rows_between(t: RouteTable, lo: int, hi: int) -> spec_fn(int) -> int {
    |g: int| total(row_from(t, g, lo), hi - lo)
}

} // verus!
