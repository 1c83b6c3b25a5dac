//! What holds of the writes of a round, in terms of the table of route counts.

use vstd::prelude::*;
use crate::cluster::{law_source_order_remote_local_self, lemma_regular, Cluster};
use crate::cluster_laws::{has_shape, lemma_shape};
use crate::config::{lemma_has_groups, ContextConfig};
use crate::exchange::{all_ranks, group_peers, RoutingInfo, SlotUpload};
use crate::exchange_laws::{lemma_overflow_listed, lemma_overflow_needed};
use crate::laws::law_remote_peers_follow_source_order;
use crate::plan_laws::{
    block_len, counts_what_arrives, is_near, law_plan_counts_cells, lemma_block_len,
    lemma_row_total, lemma_visited_total, row_from,
};
use crate::ranges::{byte_range, to_byte_ranges, ScatterRange};
use crate::receive_plan::ReceiveRoutePlan;
use crate::routing::{ascending, row_sum, table, RouteTable};
use crate::sums::total;
use crate::traffic::lemma_group_at;
use crate::traffic_laws::{counts_by_node, law_counted_bytes_follow_the_nodes};
use crate::transfer_plan::{
    compute_initial_dispatch_transfer_plans, compute_remote_combine_transfer_plans,
    compute_remote_dispatch_transfer_plans, overflow_transfers, RemoteTransferPlan,
};
use crate::worker::WorkerState;

verus! {

/// The tokens that this rank's group sends to a group.
pub open spec fn sent_to(c: Cluster, t: RouteTable, block: int, group: int) -> int {
    total(row_from(t, c.dp_group as int, group * block), block_len(c, block, group))
}

/// Where the tokens for a group start among all that this rank's group sends.
pub open spec fn sent_before(c: Cluster, t: RouteTable, block: int, group: int) -> int {
    total(
        row_from(t, c.dp_group as int, 0),
        if group * block <= c.num_experts {
            group * block
        } else {
            c.num_experts as int
        },
    )
}

/// What each group sends to a group.
pub open spec fn sent_to_by_group(c: Cluster, t: RouteTable, block: int, group: int) -> spec_fn(
    int,
) -> int {
    |h: int| total(row_from(t, h, group * block), block_len(c, block, group))
}

/// What a group's share of a row is, as the cluster sees it.
proof fn lemma_sent_to(c: Cluster, t: RouteTable, groups: int, block: int, group: int)
    requires
        has_shape(c, groups, block),
        0 <= group < groups,
    ensures
        c.to_group(t, group) == sent_to(c, t, block, group),
        c.to_groups_below(t, group) == sent_before(c, t, block, group),
        forall|h: int| #[trigger]
            row_sum(t, h, c.first_expert(group), c.last_expert(group)) == sent_to_by_group(
                c,
                t,
                block,
                group,
            )(h),
{
    lemma_block_len(c, groups, block, group);
    lemma_shape(c, groups, block);
    let own = c.dp_group as int;
    let start = group * block;
    let len = block_len(c, block, group);
    assert forall|h: int| #[trigger]
        row_sum(t, h, c.first_expert(group), c.last_expert(group)) == sent_to_by_group(
            c,
            t,
            block,
            group,
        )(h) by {
        if start <= c.num_experts {
            lemma_row_total(t, h, start, len);
        }
    }
    assert(row_sum(t, own, c.first_expert(group), c.last_expert(group)) == sent_to_by_group(
        c,
        t,
        block,
        group,
    )(own));
    if start <= c.num_experts {
        lemma_row_total(t, own, 0, start);
    } else {
        lemma_row_total(t, own, 0, c.num_experts as int);
    }
}

/// The peers on other nodes, as the cluster sees them.
proof fn lemma_remote(c: Cluster, groups: int, i: int)
    requires
        c.regular(),
        c.groups() == groups,
        0 <= i < c.remote_peers().len(),
    ensures
        c.remote_peers().len() == c.remote_visits(),
        ({
            let g = c.source_order()[i];
            &&& 0 <= g < groups
            &&& !is_near(c, g)
            &&& c.remote_peers()[i] == g * c.dp_size + c.dp_rank
            &&& 0 <= c.remote_peers()[i] < c.world_size
            &&& c.group_at(c.remote_peers()[i]) == g
            &&& c.remote_peers()[i] / c.dp_size as int == g
        }),
{
    lemma_regular(c);
    law_remote_peers_follow_source_order(c);
    law_source_order_remote_local_self(c);
    crate::receive_plan::lemma_remote_visits_in_range(c);
    let g = c.source_order()[i];
    assert(0 <= c.source_order()[i] < groups);
    assert(!c.same_node(c.source_order()[i]));
    crate::cluster_laws::law_groups_sit_on_nodes(c, g);
    lemma_group_at(c, g);
    crate::cluster::lemma_group_node(c, g);
    assert((groups - 1) * c.dp_size == groups * c.dp_size - c.dp_size) by (nonlinear_arith);
    assert(c.remote_peers()[i] == c.rank_of(g));
}

/// Every rank at this rank's place in a group on another node gets one first write, in the order
/// of the source groups: as many of its tokens as a private buffer holds, from where they start
/// in the send buffer to the private buffer of this rank's group.
pub proof fn law_first_writes_fill_private_buffers(
    c: Cluster,
    groups: int,
    block: int,
    private: usize,
    num_routed: Vec<Vec<u32>>,
    transfers: Vec<RemoteTransferPlan>,
    i: int,
)
    requires
        call_ensures(
            compute_initial_dispatch_transfer_plans,
            (
                c.dp_group,
                c.dp_rank,
                c.dp_size,
                c.node_size,
                c.world_size,
                c.num_experts,
                private,
                &num_routed,
            ),
            transfers,
        ),
        c.regular(),
        has_shape(c, groups, block),
        0 <= i < transfers@.len(),
        c.dp_group * private <= u64::MAX,
        row_sum(table(&num_routed), c.dp_group as int, 0, c.num_experts as int) <= usize::MAX,
    ensures
        transfers@.len() == c.remote_visits(),
        ({
            let t = table(&num_routed);
            let g = c.source_order()[i];
            let tokens = sent_to(c, t, block, g);
            let transfer = transfers@[i];
            &&& !is_near(c, g)
            &&& transfer.peer_rank == g * c.dp_size + c.dp_rank
            &&& transfer.length_tokens == if tokens <= private {
                tokens
            } else {
                private as int
            }
            &&& transfer.src_token_offset == sent_before(c, t, block, g)
            &&& transfer.dst_token_offset == c.dp_group * private
        }),
{
    let t = table(&num_routed);
    lemma_shape(c, groups, block);
    lemma_remote(c, groups, i);
    let g = c.source_order()[i];
    lemma_sent_to(c, t, groups, block, g);
    assert(0 <= c.dp_group * private) by (nonlinear_arith);
    let own = c.dp_group as int;
    lemma_block_len(c, groups, block, g);
    crate::routing::lemma_row_sum_nonneg(t, own, c.first_expert(g), c.last_expert(g));
    crate::routing::lemma_row_sum_nonneg(
        t,
        own,
        0,
        crate::arith::min_spec(c.first_expert(g), c.num_experts as int),
    );
    crate::routing::lemma_row_sum_within(
        t,
        own,
        0,
        c.num_experts as int,
        c.first_expert(g),
        c.last_expert(g),
    );
    crate::routing::lemma_row_sum_within(
        t,
        own,
        0,
        c.num_experts as int,
        0,
        crate::arith::min_spec(c.first_expert(g), c.num_experts as int),
    );
    assert(transfers@[i] == crate::transfer_plan::initial_transfer(
        c,
        t,
        private as int,
        c.remote_peers()[i],
    ));
}

/// Whether a write is the second one to a group: of the tokens that the private buffer does not
/// hold, from behind those that it holds to behind all private buffers and the tokens of the
/// groups below.
pub open spec fn writes_the_rest(
    transfer: RemoteTransferPlan,
    c: Cluster,
    t: RouteTable,
    groups: int,
    block: int,
    private: int,
    g: int,
) -> bool {
    &&& transfer.peer_rank == g * c.dp_size + c.dp_rank
    &&& transfer.length_tokens + private == sent_to(c, t, block, g)
    &&& transfer.src_token_offset == private + sent_before(c, t, block, g)
    &&& transfer.dst_token_offset == private * groups + total(
        sent_to_by_group(c, t, block, g),
        c.dp_group as int,
    )
}

/// What a list of second writes holds.
pub open spec fn lists_the_rest(
    transfers: Seq<RemoteTransferPlan>,
    c: Cluster,
    t: RouteTable,
    groups: int,
    block: int,
    private: int,
) -> bool {
    // Every second write goes to a group on another node that has more tokens to come.
    &&& forall|j: int|
        0 <= j < transfers.len() ==> is_wanted(
            #[trigger] transfers[j],
            c,
            t,
            groups,
            block,
            private,
        )
    // And every such group gets one.
    &&& forall|g: int|
        0 <= g < groups && !#[trigger] is_near(c, g) && sent_to(c, t, block, g) > private
            ==> gets_the_rest(transfers, c, t, groups, block, private, g)
}

/// Whether a write is the second one to a group on another node that has more tokens to come.
pub open spec fn is_wanted(
    transfer: RemoteTransferPlan,
    c: Cluster,
    t: RouteTable,
    groups: int,
    block: int,
    private: int,
) -> bool {
    exists|g: int|
        0 <= g < groups && !is_near(c, g) && sent_to(c, t, block, g) > private
            && #[trigger] writes_the_rest(transfer, c, t, groups, block, private, g)
}

/// Whether a second write to a group is among the writes.
pub open spec fn gets_the_rest(
    transfers: Seq<RemoteTransferPlan>,
    c: Cluster,
    t: RouteTable,
    groups: int,
    block: int,
    private: int,
    g: int,
) -> bool {
    exists|j: int|
        0 <= j < transfers.len() && writes_the_rest(
            #[trigger] transfers[j],
            c,
            t,
            groups,
            block,
            private,
            g,
        )
}

/// The second writes, by the counts of a plan.
proof fn lemma_rest(
    c: Cluster,
    t: RouteTable,
    groups: int,
    block: int,
    private: int,
    nets: int,
    plan: ReceiveRoutePlan,
)
    requires
        counts_what_arrives(plan, c, t, groups, block, private, nets),
        c.regular(),
        has_shape(c, groups, block),
        0 <= private <= usize::MAX,
        forall|g: int|
            0 <= g < groups ==> private * groups + #[trigger] total(
                sent_to_by_group(c, t, block, g),
                c.dp_group as int,
            ) <= u64::MAX,
        private + u32::MAX <= u64::MAX,
    ensures
        lists_the_rest(
            overflow_transfers(c, t, plan, private, c.remote_peers().len() as int),
            c,
            t,
            groups,
            block,
            private,
        ),
{
    let n = c.remote_peers().len() as int;
    let transfers = overflow_transfers(c, t, plan, private, n);
    let order = c.source_order();
    lemma_shape(c, groups, block);
    lemma_regular(c);
    law_remote_peers_follow_source_order(c);
    law_source_order_remote_local_self(c);
    assert forall|i: int| 0 <= i < n implies {
        let g = order[i];
        let p = #[trigger] c.remote_peers()[i];
        let transfer = crate::transfer_plan::overflow_transfer(c, t, plan, private, p);
        &&& 0 <= g < groups
        &&& !is_near(c, g)
        &&& plan.tokens_to_rank@[p] == sent_to(c, t, block, g)
        &&& sent_to(c, t, block, g) > private ==> writes_the_rest(
            transfer,
            c,
            t,
            groups,
            block,
            private,
            g,
        )
    } by {
        lemma_remote(c, groups, i);
        let g = order[i];
        let p = c.remote_peers()[i];
        assert(p == (g * c.dp_size) + c.dp_rank);
        lemma_sent_to(c, t, groups, block, g);
        assert forall|h: int| 0 <= h < c.dp_group implies #[trigger] sent_to_by_group(
            c,
            t,
            block,
            g,
        )(h) == row_sum(
            t,
            ascending(c.dp_group as int)[h],
            c.first_expert(g),
            c.last_expert(g),
        ) by {
            assert(row_sum(t, h, c.first_expert(g), c.last_expert(g)) == sent_to_by_group(
                c,
                t,
                block,
                g,
            )(h));
        }
        lemma_visited_total(
            t,
            ascending(c.dp_group as int),
            c.first_expert(g),
            c.last_expert(g),
            sent_to_by_group(c, t, block, g),
            c.dp_group as int,
        );
        crate::routing::lemma_visited_sum_nonneg(
            t,
            ascending(c.dp_group as int),
            c.first_expert(g),
            c.last_expert(g),
            c.dp_group as int,
        );
        assert(0 <= private * groups) by (nonlinear_arith)
            requires
                0 <= private,
                0 <= groups,
        ;
        assert(private * groups + total(sent_to_by_group(c, t, block, g), c.dp_group as int)
            <= u64::MAX);
    }
    assert forall|j: int| 0 <= j < transfers.len() implies is_wanted(
        #[trigger] transfers[j],
        c,
        t,
        groups,
        block,
        private,
    ) by {
        let i = lemma_overflow_needed(c, t, plan, private, n, j);
        let p = c.remote_peers()[i];
        assert(writes_the_rest(transfers[j], c, t, groups, block, private, order[i]));
    }
    assert forall|g: int|
        0 <= g < groups && !#[trigger] is_near(c, g) && sent_to(c, t, block, g)
            > private implies gets_the_rest(transfers, c, t, groups, block, private, g) by {
        crate::cluster_laws::law_groups_sit_on_nodes(c, g);
        assert(order.contains(g));
        let i = choose|i: int| 0 <= i < order.len() && order[i] == g;
        assert(!c.same_node(order[i]));
        assert(i < n);
        let p = c.remote_peers()[i];
        lemma_overflow_listed(c, t, plan, private, n, i);
        let wanted = crate::transfer_plan::overflow_transfer(c, t, plan, private, p);
        let j = choose|j: int| 0 <= j < transfers.len() && transfers[j] == wanted;
        assert(writes_the_rest(transfers[j], c, t, groups, block, private, g));
    }
}

/// What the private buffers do not hold is written by second writes, one to every group on
/// another node that has more tokens to come, and none to any other.
pub proof fn law_second_writes_bring_the_rest(
    c: Cluster,
    groups: int,
    block: int,
    private: usize,
    nets: int,
    num_routed: Vec<Vec<u32>>,
    plan: ReceiveRoutePlan,
    transfers: Vec<RemoteTransferPlan>,
)
    requires
        call_ensures(
            compute_remote_dispatch_transfer_plans,
            (
                &plan,
                c.dp_group,
                c.dp_rank,
                c.dp_size,
                c.node_size,
                c.world_size,
                c.num_experts,
                private,
                &num_routed,
            ),
            transfers,
        ),
        counts_what_arrives(
            plan,
            c,
            table(&num_routed),
            groups,
            block,
            private as int,
            nets,
        ),
        c.regular(),
        has_shape(c, groups, block),
        forall|g: int|
            0 <= g < groups ==> private * groups + #[trigger] total(
                sent_to_by_group(c, table(&num_routed), block, g),
                c.dp_group as int,
            ) <= u64::MAX,
        private + u32::MAX <= u64::MAX,
    ensures
        lists_the_rest(transfers@, c, table(&num_routed), groups, block, private as int),
{
    lemma_rest(c, table(&num_routed), groups, block, private as int, nets, plan);
}

/// Results go back to every group on another node, in the order of the source groups: all that
/// it sent, from where they are collected to where its tokens stood.
pub proof fn law_results_go_back_to_every_group(
    c: Cluster,
    groups: int,
    block: int,
    plan: ReceiveRoutePlan,
    transfers: Vec<RemoteTransferPlan>,
    i: int,
)
    requires
        call_ensures(
            compute_remote_combine_transfer_plans,
            (&plan, c.dp_group, c.dp_rank, c.dp_size, c.node_size, c.world_size),
            transfers,
        ),
        c.regular(),
        has_shape(c, groups, block),
        0 <= i < transfers@.len(),
    ensures
        transfers@.len() == c.remote_visits(),
        ({
            let g = c.source_order()[i];
            let transfer = transfers@[i];
            &&& !is_near(c, g)
            &&& transfer.peer_rank == g * c.dp_size + c.dp_rank
            &&& transfer.length_tokens == plan.tokens_from_group@[g]
            &&& transfer.src_token_offset == plan.src_group_offset@[g]
            &&& transfer.dst_token_offset == plan.dst_group_offset@[g]
        }),
{
    let d = Cluster { num_experts: 0, ..c };
    lemma_shape(c, groups, block);
    law_remote_peers_follow_source_order(c);
    law_remote_peers_follow_source_order(d);
    assert(d.remote_groups() == c.remote_groups());
    assert(c.remote_peers().len() == c.remote_groups().len());
    lemma_remote(c, groups, i);
    let g = c.source_order()[i];
    assert(c.remote_groups()[i] == g);
    assert(transfers@[i] == crate::transfer_plan::combine_transfer(d, plan, d.remote_groups()[i]));
    assert(d.rank_of(g) == g * c.dp_size + c.dp_rank);
}

/// A run of tokens takes up as many bytes as its tokens do, and starts as many bytes into either
/// buffer as the tokens before it take up.
pub proof fn law_bytes_follow_the_tokens(
    transfers: Vec<RemoteTransferPlan>,
    token_dim: u64,
    ranges: Vec<ScatterRange>,
    i: int,
)
    requires
        call_ensures(to_byte_ranges, (&transfers, token_dim), ranges),
        0 <= i < transfers@.len(),
        transfers@[i].length_tokens * token_dim <= u64::MAX,
        transfers@[i].src_token_offset * token_dim <= u64::MAX,
        transfers@[i].dst_token_offset * token_dim <= u64::MAX,
    ensures
        ranges@.len() == transfers@.len(),
        ranges@[i].peer_rank == transfers@[i].peer_rank,
        ranges@[i].length == transfers@[i].length_tokens * token_dim,
        ranges@[i].src_offset == transfers@[i].src_token_offset * token_dim,
        ranges@[i].dst_offset == transfers@[i].dst_token_offset * token_dim,
{
    let transfer = transfers@[i];
    assert(0 <= transfer.length_tokens * token_dim) by (nonlinear_arith);
    assert(0 <= transfer.src_token_offset * token_dim) by (nonlinear_arith);
    assert(0 <= transfer.dst_token_offset * token_dim) by (nonlinear_arith);
}

/// The rank at this rank's place in each group.
pub open spec fn is_peer_list(peers: Seq<usize>, c: Cluster, groups: int) -> bool {
    &&& peers.len() == groups
    &&& forall|g: int| 0 <= g < groups ==> #[trigger] peers[g] == g * c.dp_size + c.dp_rank
}

/// What it amounts to that the routing of a round is processed.
pub open spec fn processes_routing(
    worker: WorkerState,
    after: WorkerState,
    upload: SlotUpload,
    info: RoutingInfo,
    c: Cluster,
    t: RouteTable,
    groups: int,
    block: int,
    nets: int,
) -> bool {
    let config = worker.config;
    let plan = upload.plan;
    // The plan is that of the table, by the parameters of the context.
    &&& counts_what_arrives(
        plan,
        c,
        t,
        groups,
        block,
        config.max_private_tokens as int,
        nets,
    )
    &&& plan.matches(
        c,
        t,
        config.expert_padding as int,
        config.max_tokens_per_expert as int,
        config.max_private_tokens as int,
        nets,
    )
    // The device is told of what arrives, of what arrives from other nodes, and of the round.
    &&& upload.num_recv_tokens@.len() == 3
    &&& plan.num_recv_tokens <= u32::MAX ==> upload.num_recv_tokens@[0] == plan.num_recv_tokens
    &&& plan.num_recv_efa_tokens <= u32::MAX ==> upload.num_recv_tokens@[1]
        == plan.num_recv_efa_tokens
    &&& upload.num_recv_tokens@[2] == 0
    &&& upload.num_recv_tokens_ready == worker.epoch
    &&& info.num_recv_tx == plan.num_recv_tx
    // Traffic is counted: what goes to each rank, and what goes back to each group's peer.
    &&& counts_by_node(
        worker.counters.dispatch,
        after.counters.dispatch,
        config.rank as int,
        config.node_size as int,
        all_ranks(config.world_size as int),
        plan.tokens_to_rank@,
        config.dispatch_token_dim(),
    )
    &&& all_ranks(config.world_size as int).len() == config.world_size
    &&& forall|p: int|
        0 <= p < config.world_size ==> #[trigger] all_ranks(config.world_size as int)[p] == p
    &&& counts_by_node(
        worker.counters.combine,
        after.counters.combine,
        config.rank as int,
        config.node_size as int,
        group_peers(c),
        plan.tokens_from_group@,
        config.combine_token_dim(),
    )
    &&& is_peer_list(group_peers(c), c, groups)
    // Nothing else of the worker changes.
    &&& after.counters.times == worker.counters.times
    &&& after.epoch == worker.epoch
    &&& after.stopped == worker.stopped
    &&& after.slot_idx == worker.slot_idx
    &&& after.config == worker.config
}

/// Whether byte ranges are those of writes of tokens of a size.
pub open spec fn bytes_of(
    ranges: Seq<ScatterRange>,
    transfers: Seq<RemoteTransferPlan>,
    token_dim: int,
) -> bool {
    &&& ranges.len() == transfers.len()
    &&& forall|i: int|
        0 <= i < ranges.len() ==> {
            let range = #[trigger] ranges[i];
            let transfer = transfers[i];
            &&& range.peer_rank == transfer.peer_rank
            &&& transfer.length_tokens * token_dim <= u64::MAX ==> range.length
                == transfer.length_tokens * token_dim
            &&& transfer.src_token_offset * token_dim <= u64::MAX ==> range.src_offset
                == transfer.src_token_offset * token_dim
            &&& transfer.dst_token_offset * token_dim <= u64::MAX ==> range.dst_offset
                == transfer.dst_token_offset * token_dim
        }
}

proof fn lemma_bytes_of(ranges: Seq<ScatterRange>, transfers: Seq<RemoteTransferPlan>, dim: int)
    requires
        ranges == crate::ranges::byte_ranges(transfers, dim),
        0 <= dim,
    ensures
        bytes_of(ranges, transfers, dim),
{
    assert forall|i: int| 0 <= i < ranges.len() implies {
        let range = #[trigger] ranges[i];
        let transfer = transfers[i];
        &&& range.peer_rank == transfer.peer_rank
        &&& transfer.length_tokens * dim <= u64::MAX ==> range.length == transfer.length_tokens
            * dim
        &&& transfer.src_token_offset * dim <= u64::MAX ==> range.src_offset
            == transfer.src_token_offset * dim
        &&& transfer.dst_token_offset * dim <= u64::MAX ==> range.dst_offset
            == transfer.dst_token_offset * dim
    } by {
        let transfer = transfers[i];
        assert(0 <= transfer.length_tokens * dim) by (nonlinear_arith)
            requires
                0 <= dim,
        ;
        assert(0 <= transfer.src_token_offset * dim) by (nonlinear_arith)
            requires
                0 <= dim,
        ;
        assert(0 <= transfer.dst_token_offset * dim) by (nonlinear_arith)
            requires
                0 <= dim,
        ;
    }
}

/// Whether the results of a round go back as they should: everything that each group on another
/// node sent, in tokens of the size of results.
pub open spec fn returns_results(
    info: RoutingInfo,
    plan: ReceiveRoutePlan,
    c: Cluster,
    dim: int,
) -> bool {
    &&& info.combine_ranges@.len() == c.remote_visits()
    &&& forall|i: int|
        0 <= i < info.combine_ranges@.len() ==> {
            let range = #[trigger] info.combine_ranges@[i];
            let g = c.source_order()[i];
            &&& range.peer_rank == g * c.dp_size + c.dp_rank
            &&& plan.tokens_from_group@[g] * dim <= u64::MAX ==> range.length
                == plan.tokens_from_group@[g] * dim
            &&& plan.src_group_offset@[g] * dim <= u64::MAX ==> range.src_offset
                == plan.src_group_offset@[g] * dim
            &&& plan.dst_group_offset@[g] * dim <= u64::MAX ==> range.dst_offset
                == plan.dst_group_offset@[g] * dim
        }
}

/// What it amounts to that the writes of a round are listed: the rest of the tokens goes to the
/// groups on other nodes, and the results go back to them, each in the bytes of its kind of
/// token.
pub open spec fn lists_writes(
    config: ContextConfig,
    plan: ReceiveRoutePlan,
    info: RoutingInfo,
    t: RouteTable,
    groups: int,
    block: int,
) -> bool {
    let c = config.cluster();
    &&& returns_results(info, plan, c, config.combine_token_dim())
    &&& exists|transfers: Seq<RemoteTransferPlan>|
        lists_the_rest(transfers, c, t, groups, block, config.max_private_tokens as int)
            && #[trigger] bytes_of(info.dispatch_ranges@, transfers, config.dispatch_token_dim())
}

/// What the routing of a round amounts to, in terms of the table.
pub proof fn law_routing_follows_the_table(
    worker: WorkerState,
    after: WorkerState,
    counts: Seq<u32>,
    nets: int,
    upload: SlotUpload,
    info: RoutingInfo,
    groups: int,
    block: int,
)
    requires
        worker.routed(after, counts, nets, upload, info),
        worker.wf(),
        worker.config.cluster().regular(),
        has_shape(worker.config.cluster(), groups, block),
        worker.config.cluster().dp_group * block <= worker.config.num_experts,
    ensures
        ({
            let config = worker.config;
            let t = crate::worker::flat_table(counts, groups, config.num_experts as int);
            &&& processes_routing(
                worker,
                after,
                upload,
                info,
                config.cluster(),
                t,
                groups,
                block,
                nets,
            )
            &&& rest_fits(config, t, groups, block) ==> lists_writes(
                config,
                upload.plan,
                info,
                t,
                groups,
                block,
            )
        }),
{
    let w = worker;
    let config = w.config;
    let c = config.cluster();
    let t = w.routes(counts);
    let plan = upload.plan;
    let private = config.max_private_tokens as int;
    lemma_has_groups(config);
    lemma_shape(c, groups, block);
    lemma_regular(c);
    assert(t == crate::worker::flat_table(counts, groups, config.num_experts as int));
    law_plan_counts_cells(
        plan,
        c,
        t,
        groups,
        block,
        config.expert_padding as int,
        config.max_tokens_per_expert as int,
        private,
        nets,
    );
    law_counted_bytes_follow_the_nodes(
        w.counters.dispatch,
        after.counters.dispatch,
        config.rank as int,
        config.node_size as int,
        all_ranks(config.world_size as int),
        plan.tokens_to_rank@,
        config.dispatch_token_dim(),
    );
    law_counted_bytes_follow_the_nodes(
        w.counters.combine,
        after.counters.combine,
        config.rank as int,
        config.node_size as int,
        group_peers(c),
        plan.tokens_from_group@,
        config.combine_token_dim(),
    );
    assert forall|g: int| 0 <= g < groups implies #[trigger] group_peers(c)[g] == g * c.dp_size
        + c.dp_rank by {
        lemma_group_at(c, g);
        assert((groups - 1) * c.dp_size == groups * c.dp_size - c.dp_size) by (nonlinear_arith);
    }
    if rest_fits(config, t, groups, block) {
        lemma_writes(worker, after, counts, nets, upload, info, groups, block);
    }
}

/// The writes of a round, in terms of the table.
proof fn lemma_writes(
    worker: WorkerState,
    after: WorkerState,
    counts: Seq<u32>,
    nets: int,
    upload: SlotUpload,
    info: RoutingInfo,
    groups: int,
    block: int,
)
    requires
        worker.routed(after, counts, nets, upload, info),
        worker.wf(),
        worker.config.cluster().regular(),
        has_shape(worker.config.cluster(), groups, block),
        worker.config.cluster().dp_group * block <= worker.config.num_experts,
        rest_fits(worker.config, worker.routes(counts), groups, block),
    ensures
        lists_writes(
            worker.config,
            upload.plan,
            info,
            worker.routes(counts),
            groups,
            block,
        ),
{
    let w = worker;
    let config = w.config;
    let c = config.cluster();
    let t = w.routes(counts);
    let plan = upload.plan;
    let private = config.max_private_tokens as int;
    lemma_has_groups(config);
    lemma_shape(c, groups, block);
    lemma_regular(c);
    crate::counter_laws::lemma_token_dims(config);
    law_plan_counts_cells(
        plan,
        c,
        t,
        groups,
        block,
        config.expert_padding as int,
        config.max_tokens_per_expert as int,
        private,
        nets,
    );
    lemma_rest(c, t, groups, block, private, nets, plan);
    let transfers = overflow_transfers(c, t, plan, private, c.remote_peers().len() as int);
    lemma_bytes_of(info.dispatch_ranges@, transfers, config.dispatch_token_dim());
    law_remote_peers_follow_source_order(c);
    let dim = config.combine_token_dim();
    assert forall|i: int| 0 <= i < info.combine_ranges@.len() implies {
        let range = #[trigger] info.combine_ranges@[i];
        let g = c.source_order()[i];
        &&& range.peer_rank == g * c.dp_size + c.dp_rank
        &&& plan.tokens_from_group@[g] * dim <= u64::MAX ==> range.length
            == plan.tokens_from_group@[g] * dim
        &&& plan.src_group_offset@[g] * dim <= u64::MAX ==> range.src_offset
            == plan.src_group_offset@[g] * dim
        &&& plan.dst_group_offset@[g] * dim <= u64::MAX ==> range.dst_offset
            == plan.dst_group_offset@[g] * dim
    } by {
        lemma_remote(c, groups, i);
        let g = c.source_order()[i];
        assert(c.remote_groups()[i] == g);
        assert(info.combine_ranges@[i] == byte_range(
            crate::transfer_plan::combine_transfer(c, plan, g),
            dim,
        ));
        assert(0 <= plan.tokens_from_group@[g] * dim) by (nonlinear_arith)
            requires
                0 <= dim,
        ;
        assert(0 <= plan.src_group_offset@[g] * dim) by (nonlinear_arith)
            requires
                0 <= dim,
        ;
        assert(0 <= plan.dst_group_offset@[g] * dim) by (nonlinear_arith)
            requires
                0 <= dim,
        ;
    }
}

/// Processing the routing of a round gives the plan of the table, tells the device of it, lists
/// the writes that follow from it, and counts the traffic in both directions, each with the size
/// of its tokens.
pub proof fn law_routing_is_processed_by_the_table(
    counts: Vec<u32>,
    nets_per_gpu: u32,
    groups: int,
    block: int,
)
    ensures
        forall|worker: &mut WorkerState, upload: SlotUpload, info: RoutingInfo|
            (*worker).wf() && (*worker).config.cluster().regular() && has_shape(
                (*worker).config.cluster(),
                groups,
                block,
            ) && (*worker).config.cluster().dp_group * block <= (*worker).config.num_experts
                && #[trigger] call_ensures(
                WorkerState::process_routing_info,
                (worker, &counts, nets_per_gpu),
                (upload, info),
            ) ==> {
                let config = (*worker).config;
                let t = crate::worker::flat_table(counts@, groups, config.num_experts as int);
                &&& processes_routing(
                    *worker,
                    *final(worker),
                    upload,
                    info,
                    config.cluster(),
                    t,
                    groups,
                    block,
                    nets_per_gpu as int,
                )
                &&& rest_fits(config, t, groups, block) ==> lists_writes(
                    config,
                    upload.plan,
                    info,
                    t,
                    groups,
                    block,
                )
            },
{
    assert forall|worker: &mut WorkerState, upload: SlotUpload, info: RoutingInfo|
        (*worker).wf() && (*worker).config.cluster().regular() && has_shape(
            (*worker).config.cluster(),
            groups,
            block,
        ) && (*worker).config.cluster().dp_group * block <= (*worker).config.num_experts
            && #[trigger] call_ensures(
            WorkerState::process_routing_info,
            (worker, &counts, nets_per_gpu),
            (upload, info),
        ) implies {
        let config = (*worker).config;
        let t = crate::worker::flat_table(counts@, groups, config.num_experts as int);
        &&& processes_routing(
            *worker,
            *final(worker),
            upload,
            info,
            config.cluster(),
            t,
            groups,
            block,
            nets_per_gpu as int,
        )
        &&& rest_fits(config, t, groups, block) ==> lists_writes(
            config,
            upload.plan,
            info,
            t,
            groups,
            block,
        )
    } by {
        law_routing_follows_the_table(
            *worker,
            *final(worker),
            counts@,
            nets_per_gpu as int,
            upload,
            info,
            groups,
            block,
        );
    }
}

/// Whether the places behind the private buffers fit 64 bits.
pub open spec fn rest_fits(config: ContextConfig, t: RouteTable, groups: int, block: int) -> bool {
    &&& config.max_private_tokens + u32::MAX <= u64::MAX
    &&& forall|g: int|
        0 <= g < groups ==> config.max_private_tokens * groups + #[trigger] total(
            sent_to_by_group(config.cluster(), t, block, g),
            config.cluster().dp_group as int,
        ) <= u64::MAX
}

/// Whether first writes are as they should be, in bytes.
pub open spec fn first_writes(
    ranges: Seq<ScatterRange>,
    c: Cluster,
    t: RouteTable,
    block: int,
    private: int,
    dim: int,
) -> bool {
    &&& ranges.len() == c.remote_visits()
    &&& forall|i: int|
        0 <= i < ranges.len() ==> is_first_write(
            #[trigger] ranges[i],
            c,
            t,
            block,
            private,
            dim,
            c.source_order()[i],
        )
}

/// Whether a write is the first one to a group: of as many of its tokens as a private buffer
/// holds, from where they start to the private buffer of this rank's group.
pub open spec fn is_first_write(
    range: ScatterRange,
    c: Cluster,
    t: RouteTable,
    block: int,
    private: int,
    dim: int,
    g: int,
) -> bool {
    let tokens = if sent_to(c, t, block, g) <= private {
        sent_to(c, t, block, g)
    } else {
        private
    };
    &&& !is_near(c, g)
    &&& range.peer_rank == g * c.dp_size + c.dp_rank
    &&& tokens * dim <= u64::MAX ==> range.length == tokens * dim
    &&& sent_before(c, t, block, g) * dim <= u64::MAX ==> range.src_offset == sent_before(
        c,
        t,
        block,
        g,
    ) * dim
    &&& (c.dp_group * private) * dim <= u64::MAX ==> range.dst_offset == (c.dp_group * private)
        * dim
}

/// First writes fill the private buffers of the groups on other nodes, in the bytes of dispatched
/// tokens.
pub proof fn law_first_writes_follow_the_table(
    worker: WorkerState,
    counts: Seq<u32>,
    groups: int,
    block: int,
    ranges: Seq<ScatterRange>,
)
    requires
        ranges == crate::exchange::initial_ranges(worker.config, worker.routes(counts)),
        worker.wf(),
        worker.config.cluster().regular(),
        has_shape(worker.config.cluster(), groups, block),
        worker.config.cluster().dp_group * worker.config.max_private_tokens <= u64::MAX,
        row_sum(
            crate::worker::flat_table(counts, groups, worker.config.num_experts as int),
            worker.config.cluster().dp_group as int,
            0,
            worker.config.num_experts as int,
        ) <= usize::MAX,
    ensures
        first_writes(
            ranges,
            worker.config.cluster(),
            crate::worker::flat_table(counts, groups, worker.config.num_experts as int),
            block,
            worker.config.max_private_tokens as int,
            worker.config.dispatch_token_dim(),
        ),
{
    let config = worker.config;
    let c = config.cluster();
    let t = crate::worker::flat_table(counts, groups, config.num_experts as int);
    let private = config.max_private_tokens as int;
    let dim = config.dispatch_token_dim();
    let own = c.dp_group as int;
    lemma_has_groups(config);
    lemma_shape(c, groups, block);
    lemma_regular(c);
    law_remote_peers_follow_source_order(c);
    crate::counter_laws::lemma_token_dims(config);
    assert(t == worker.routes(counts));
    assert forall|i: int| 0 <= i < ranges.len() implies is_first_write(
        #[trigger] ranges[i],
        c,
        t,
        block,
        private,
        dim,
        c.source_order()[i],
    ) by {
        lemma_remote(c, groups, i);
        let g = c.source_order()[i];
        lemma_sent_to(c, t, groups, block, g);
        lemma_block_len(c, groups, block, g);
        let start = crate::arith::min_spec(c.first_expert(g), c.num_experts as int);
        crate::routing::lemma_row_sum_nonneg(t, own, c.first_expert(g), c.last_expert(g));
        crate::routing::lemma_row_sum_nonneg(t, own, 0, start);
        crate::routing::lemma_row_sum_within(
            t,
            own,
            0,
            c.num_experts as int,
            c.first_expert(g),
            c.last_expert(g),
        );
        crate::routing::lemma_row_sum_within(t, own, 0, c.num_experts as int, 0, start);
        let transfer = crate::transfer_plan::initial_transfer(c, t, private, c.remote_peers()[i]);
        assert(ranges[i] == byte_range(transfer, dim));
        assert(0 <= own * private) by (nonlinear_arith)
            requires
                0 <= own,
                0 <= private,
        ;
        assert(0 <= transfer.length_tokens * dim) by (nonlinear_arith)
            requires
                0 <= dim,
        ;
        assert(0 <= transfer.src_token_offset * dim) by (nonlinear_arith)
            requires
                0 <= dim,
        ;
        assert(0 <= transfer.dst_token_offset * dim) by (nonlinear_arith)
            requires
                0 <= dim,
        ;
    }
}

/// A round first fills the private buffers of the groups on other nodes, in the bytes of
/// dispatched tokens.
pub proof fn law_round_first_fills_private_buffers(
    worker: WorkerState,
    counts: Vec<u32>,
    groups: int,
    block: int,
    ranges: Vec<ScatterRange>,
)
    requires
        call_ensures(WorkerState::dispatch_initial_routes, (&worker, &counts), ranges),
        worker.wf(),
        worker.config.cluster().regular(),
        has_shape(worker.config.cluster(), groups, block),
        worker.config.cluster().dp_group * worker.config.max_private_tokens <= u64::MAX,
        row_sum(
            crate::worker::flat_table(counts@, groups, worker.config.num_experts as int),
            worker.config.cluster().dp_group as int,
            0,
            worker.config.num_experts as int,
        ) <= usize::MAX,
    ensures
        first_writes(
            ranges@,
            worker.config.cluster(),
            crate::worker::flat_table(counts@, groups, worker.config.num_experts as int),
            block,
            worker.config.max_private_tokens as int,
            worker.config.dispatch_token_dim(),
        ),
{
    law_first_writes_follow_the_table(worker, counts@, groups, block, ranges@);
}

} // verus!
