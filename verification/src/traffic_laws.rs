//! What holds of what is counted: which link carries which bytes, and what the statistics add up.

use vstd::prelude::*;
use crate::context::AllToAllContext;
use crate::counters::{
    check_sums, link_bytes, link_to, peer_bytes, peer_combine_sum, peer_dispatch_sum, scalar_sum,
    AllToAllPerfStats, ByteCounters, Link, WaitKind, WaitTimes, WorkerCounters,
};
use crate::sums::{lemma_total_equal, total};

verus! {

/// Whether two ranks sit on the same node: nodes are runs of `node_size` ranks.
pub open spec fn together(a: int, b: int, node_size: int) -> bool {
    exists|k: int|
        k * node_size <= a < (k + 1) * node_size && #[trigger] (k * node_size) <= b < (k + 1)
            * node_size
}

/// Two ranks sit on the same node just where their nodes have the same number.
pub proof fn lemma_together(a: int, b: int, node_size: int)
    requires
        0 < node_size,
    ensures
        together(a, b, node_size) <==> a / node_size == b / node_size,
{
    let k = a / node_size;
    vstd::arithmetic::div_mod::lemma_fundamental_div_mod(a, node_size);
    vstd::arithmetic::div_mod::lemma_fundamental_div_mod(b, node_size);
    assert(k * node_size == node_size * k && (k + 1) * node_size == k * node_size + node_size)
        by (nonlinear_arith);
    if a / node_size == b / node_size {
        assert(k * node_size <= a < (k + 1) * node_size && (k * node_size) <= b < (k + 1)
            * node_size);
    }
    if together(a, b, node_size) {
        let j = choose|j: int|
            j * node_size <= a < (j + 1) * node_size && #[trigger] (j * node_size) <= b < (j + 1)
                * node_size;
        assert((j + 1) * node_size == j * node_size + node_size) by (nonlinear_arith);
        vstd::arithmetic::div_mod::lemma_fundamental_div_mod_converse(
            a,
            node_size,
            j,
            a - j * node_size,
        );
        vstd::arithmetic::div_mod::lemma_fundamental_div_mod_converse(
            b,
            node_size,
            j,
            b - j * node_size,
        );
    }
}

/// A rank reaches itself locally, the other ranks of its node over NVLink, and all others over
/// the network; two ranks reach each other in the same way.
pub proof fn law_links_follow_the_nodes(rank: int, node_size: int, peer: int)
    requires
        0 < node_size,
    ensures
        link_to(rank, node_size, peer) == Link::Local <==> peer == rank,
        link_to(rank, node_size, peer) == Link::Nvlink <==> peer != rank && together(
            rank,
            peer,
            node_size,
        ),
        link_to(rank, node_size, peer) == Link::Network <==> !together(rank, peer, node_size),
        link_to(rank, node_size, peer) == link_to(peer, node_size, rank),
{
    lemma_together(rank, peer, node_size);
}

/// The bytes for a peer that an entry of a list of token counts stands for.
pub open spec fn entry_bytes(tokens: Seq<u32>, token_dim: int, i: int) -> int {
    tokens[i] * token_dim
}

/// The bytes for one rank, entry by entry.
pub open spec fn bytes_for(
    rank: int,
    peers: Seq<usize>,
    tokens: Seq<u32>,
    token_dim: int,
) -> spec_fn(int) -> int {
    |i: int|
        if peers[i] == rank {
            entry_bytes(tokens, token_dim, i)
        } else {
            0
        }
}

/// The bytes for the other ranks of this rank's node, entry by entry.
pub open spec fn node_bytes(
    rank: int,
    node_size: int,
    peers: Seq<usize>,
    tokens: Seq<u32>,
    token_dim: int,
) -> spec_fn(int) -> int {
    |i: int|
        if peers[i] != rank && together(rank, peers[i] as int, node_size) {
            entry_bytes(tokens, token_dim, i)
        } else {
            0
        }
}

/// The bytes for the ranks of other nodes, entry by entry.
pub open spec fn far_bytes(
    rank: int,
    node_size: int,
    peers: Seq<usize>,
    tokens: Seq<u32>,
    token_dim: int,
) -> spec_fn(int) -> int {
    |i: int|
        if !together(rank, peers[i] as int, node_size) {
            entry_bytes(tokens, token_dim, i)
        } else {
            0
        }
}

/// A counter that wraps: what it shows after counting `bytes` more.
pub open spec fn counts_up(before: u64, bytes: int, after: u64) -> bool {
    after == (before + bytes) % 0x1_0000_0000_0000_0000
}

/// Whether the counters after counting tokens for peers are those before, with the bytes of this
/// rank's own tokens added to the local ones, those for other ranks of its node to the NVLink
/// ones, those for ranks of other nodes to the network ones, and those for each rank to its own.
pub open spec fn counts_by_node(
    before: ByteCounters,
    after: ByteCounters,
    rank: int,
    node_size: int,
    peers: Seq<usize>,
    tokens: Seq<u32>,
    token_dim: int,
) -> bool {
    let n = peers.len() as int;
    &&& counts_up(
        before.local,
        total(
            bytes_for(rank, peers, tokens, token_dim), n,
        ),
        after.local,
    )
    &&& counts_up(
        before.nvlink,
        total(
            node_bytes(rank, node_size, peers, tokens, token_dim), n,
        ),
        after.nvlink,
    )
    &&& counts_up(
        before.network,
        total(
            far_bytes(rank, node_size, peers, tokens, token_dim), n,
        ),
        after.network,
    )
    &&& after.peer@.len() == before.peer@.len()
    &&& forall|p: int|
        0 <= p < before.peer@.len() ==> counts_up(
            before.peer@[p],
            total(
                bytes_for(p, peers, tokens, token_dim), n,
            ),
            #[trigger] after.peer@[p],
        )
}

/// What is counted over a link, as a sum.
proof fn lemma_link_bytes(
    rank: int,
    node_size: int,
    peers: Seq<usize>,
    tokens: Seq<u32>,
    token_dim: int,
    link: Link,
    f: spec_fn(int) -> int,
    n: int,
)
    requires
        forall|i: int|
            0 <= i < n ==> #[trigger] f(i) == if link_to(rank, node_size, peers[i] as int)
                == link {
                tokens[i] * token_dim
            } else {
                0
            },
    ensures
        link_bytes(rank, node_size, peers, tokens, token_dim, link, n) == total(f, n),
    decreases n,
{
    if n > 0 {
        lemma_link_bytes(rank, node_size, peers, tokens, token_dim, link, f, n - 1);
        assert(f(n - 1) == f(n - 1));
    }
}

/// What is counted for a peer, as a sum.
proof fn lemma_peer_bytes(
    peers: Seq<usize>,
    tokens: Seq<u32>,
    token_dim: int,
    p: int,
    f: spec_fn(int) -> int,
    n: int,
)
    requires
        forall|i: int|
            0 <= i < n ==> #[trigger] f(i) == if peers[i] == p {
                tokens[i] * token_dim
            } else {
                0
            },
    ensures
        peer_bytes(peers, tokens, token_dim, p, n) == total(f, n),
    decreases n,
{
    if n > 0 {
        lemma_peer_bytes(peers, tokens, token_dim, p, f, n - 1);
        assert(f(n - 1) == f(n - 1));
    }
}

/// What counting by link amounts to, node by node.
pub proof fn law_counted_bytes_follow_the_nodes(
    before: ByteCounters,
    after: ByteCounters,
    rank: int,
    node_size: int,
    peers: Seq<usize>,
    tokens: Seq<u32>,
    token_dim: int,
)
    requires
        before.counted(after, rank, node_size, peers, tokens, token_dim),
        0 < node_size,
    ensures
        counts_by_node(before, after, rank, node_size, peers, tokens, token_dim),
{
    let n = peers.len() as int;
    assert forall|i: int| 0 <= i < n implies {
        let link = link_to(rank, node_size, #[trigger] peers[i] as int);
        &&& link == Link::Local <==> peers[i] == rank
        &&& link == Link::Nvlink <==> peers[i] != rank && together(
            rank,
            peers[i] as int,
            node_size,
        )
        &&& link == Link::Network <==> !together(rank, peers[i] as int, node_size)
    } by {
        law_links_follow_the_nodes(rank, node_size, peers[i] as int);
    }
    lemma_link_bytes(
        rank,
        node_size,
        peers,
        tokens,
        token_dim,
        Link::Local,
        bytes_for(rank, peers, tokens, token_dim), n,
    );
    lemma_link_bytes(
        rank,
        node_size,
        peers,
        tokens,
        token_dim,
        Link::Nvlink,
        node_bytes(rank, node_size, peers, tokens, token_dim), n,
    );
    lemma_link_bytes(
        rank,
        node_size,
        peers,
        tokens,
        token_dim,
        Link::Network,
        far_bytes(rank, node_size, peers, tokens, token_dim), n,
    );
    assert forall|p: int| 0 <= p < before.peer@.len() implies counts_up(
        before.peer@[p],
        total(
            bytes_for(p, peers, tokens, token_dim), n,
        ),
        #[trigger] after.peer@[p],
    ) by {
        lemma_peer_bytes(
            peers,
            tokens,
            token_dim,
            p,
            bytes_for(p, peers, tokens, token_dim), n,
        );
    }
}

/// Recording tokens for peers counts their bytes by node and by rank.
pub proof fn law_record_counts_by_node(
    rank: usize,
    node_size: usize,
    peers: Vec<usize>,
    tokens: Vec<u32>,
    token_dim: u64,
)
    requires
        0 < node_size,
    ensures
        forall|counters: &mut ByteCounters| #[trigger]
            call_ensures(
                ByteCounters::record,
                (counters, rank, node_size, &peers, &tokens, token_dim),
                (),
            ) ==> counts_by_node(
                *counters,
                *final(counters),
                rank as int,
                node_size as int,
                peers@,
                tokens@,
                token_dim as int,
            ),
{
    assert forall|counters: &mut ByteCounters| #[trigger]
        call_ensures(
            ByteCounters::record,
            (counters, rank, node_size, &peers, &tokens, token_dim),
            (),
        ) implies counts_by_node(
        *counters,
        *final(counters),
        rank as int,
        node_size as int,
        peers@,
        tokens@,
        token_dim as int,
    ) by {
        law_counted_bytes_follow_the_nodes(
            *counters,
            *final(counters),
            rank as int,
            node_size as int,
            peers@,
            tokens@,
            token_dim as int,
        );
    }
}

/// What a time counts as in a counter of 64 bits that wraps.
pub open spec fn times_up(before: u64, ns: u128, after: u64) -> bool {
    &&& ns <= u64::MAX && before + ns <= u64::MAX ==> after == before + ns
    &&& ns <= u64::MAX && before + ns > u64::MAX ==> after == before + ns
        - 0x1_0000_0000_0000_0000
    &&& ns > u64::MAX && before == 0 ==> after == u64::MAX
    &&& ns > u64::MAX && before > 0 ==> after == before - 1
}

/// Whether only the counter of one kind of waiting went up.
pub open spec fn only_kind_went_up(
    before: WaitTimes,
    after: WaitTimes,
    kind: WaitKind,
    ns: u128,
) -> bool {
    match kind {
        WaitKind::WaitDispatchRoute => times_up(
            before.wait_dispatch_route_ns,
            ns,
            after.wait_dispatch_route_ns,
        ) && after == (WaitTimes {
            wait_dispatch_route_ns: after.wait_dispatch_route_ns,
            ..before
        }),
        WaitKind::RouteExchange => times_up(before.route_exchange_ns, ns, after.route_exchange_ns)
            && after == (WaitTimes { route_exchange_ns: after.route_exchange_ns, ..before }),
        WaitKind::ProcessRouting => times_up(
            before.process_routing_ns,
            ns,
            after.process_routing_ns,
        ) && after == (WaitTimes { process_routing_ns: after.process_routing_ns, ..before }),
        WaitKind::WaitDispatchSend => times_up(
            before.wait_dispatch_send_ns,
            ns,
            after.wait_dispatch_send_ns,
        ) && after == (WaitTimes {
            wait_dispatch_send_ns: after.wait_dispatch_send_ns,
            ..before
        }),
        WaitKind::DispatchTransferWait => times_up(
            before.dispatch_transfer_wait_ns,
            ns,
            after.dispatch_transfer_wait_ns,
        ) && after == (WaitTimes {
            dispatch_transfer_wait_ns: after.dispatch_transfer_wait_ns,
            ..before
        }),
        WaitKind::WaitDispatchRecv => times_up(
            before.wait_dispatch_recv_ns,
            ns,
            after.wait_dispatch_recv_ns,
        ) && after == (WaitTimes {
            wait_dispatch_recv_ns: after.wait_dispatch_recv_ns,
            ..before
        }),
        WaitKind::DispatchBarrier => times_up(
            before.dispatch_barrier_ns,
            ns,
            after.dispatch_barrier_ns,
        ) && after == (WaitTimes { dispatch_barrier_ns: after.dispatch_barrier_ns, ..before }),
        WaitKind::WaitCombineSend => times_up(
            before.wait_combine_send_ns,
            ns,
            after.wait_combine_send_ns,
        ) && after == (WaitTimes { wait_combine_send_ns: after.wait_combine_send_ns, ..before }),
        WaitKind::CombineTransferWait => times_up(
            before.combine_transfer_wait_ns,
            ns,
            after.combine_transfer_wait_ns,
        ) && after == (WaitTimes {
            combine_transfer_wait_ns: after.combine_transfer_wait_ns,
            ..before
        }),
        WaitKind::WaitCombineRecv => times_up(
            before.wait_combine_recv_ns,
            ns,
            after.wait_combine_recv_ns,
        ) && after == (WaitTimes { wait_combine_recv_ns: after.wait_combine_recv_ns, ..before }),
        WaitKind::CombineBarrier => times_up(
            before.combine_barrier_ns,
            ns,
            after.combine_barrier_ns,
        ) && after == (WaitTimes { combine_barrier_ns: after.combine_barrier_ns, ..before }),
    }
}

/// Each kind of waiting is counted by its own counter, and by no other.
pub proof fn law_times_are_counted_by_kind(kind: WaitKind, ns: u128)
    ensures
        forall|times: &mut WaitTimes| #[trigger]
            call_ensures(WaitTimes::add_elapsed_ns, (times, kind, ns), ()) ==> only_kind_went_up(
                *times,
                *final(times),
                kind,
                ns,
            ),
{
    assert forall|times: &mut WaitTimes| #[trigger]
        call_ensures(WaitTimes::add_elapsed_ns, (times, kind, ns), ()) implies only_kind_went_up(
        *times,
        *final(times),
        kind,
        ns,
    ) by {
        lemma_kinds_cover(*times, *final(times), kind, ns);
    }
}

/// A change of one kind alone, in terms of the counters.
pub proof fn lemma_kinds_cover(before: WaitTimes, after: WaitTimes, kind: WaitKind, ns: u128)
    requires
        after.spent(kind) == crate::counters::wrap64(
            before.spent(kind) + crate::counters::counted_ns(ns),
        ),
        forall|other: WaitKind| other != kind ==> #[trigger] after.spent(other) == before.spent(
            other,
        ),
    ensures
        only_kind_went_up(before, after, kind, ns),
{
    assert(WaitKind::WaitDispatchRoute != kind ==> after.spent(WaitKind::WaitDispatchRoute)
        == before.spent(WaitKind::WaitDispatchRoute));
    assert(WaitKind::RouteExchange != kind ==> after.spent(WaitKind::RouteExchange)
        == before.spent(WaitKind::RouteExchange));
    assert(WaitKind::ProcessRouting != kind ==> after.spent(WaitKind::ProcessRouting)
        == before.spent(WaitKind::ProcessRouting));
    assert(WaitKind::WaitDispatchSend != kind ==> after.spent(WaitKind::WaitDispatchSend)
        == before.spent(WaitKind::WaitDispatchSend));
    assert(WaitKind::DispatchTransferWait != kind ==> after.spent(WaitKind::DispatchTransferWait)
        == before.spent(WaitKind::DispatchTransferWait));
    assert(WaitKind::WaitDispatchRecv != kind ==> after.spent(WaitKind::WaitDispatchRecv)
        == before.spent(WaitKind::WaitDispatchRecv));
    assert(WaitKind::DispatchBarrier != kind ==> after.spent(WaitKind::DispatchBarrier)
        == before.spent(WaitKind::DispatchBarrier));
    assert(WaitKind::WaitCombineSend != kind ==> after.spent(WaitKind::WaitCombineSend)
        == before.spent(WaitKind::WaitCombineSend));
    assert(WaitKind::CombineTransferWait != kind ==> after.spent(WaitKind::CombineTransferWait)
        == before.spent(WaitKind::CombineTransferWait));
    assert(WaitKind::WaitCombineRecv != kind ==> after.spent(WaitKind::WaitCombineRecv)
        == before.spent(WaitKind::WaitCombineRecv));
    assert(WaitKind::CombineBarrier != kind ==> after.spent(WaitKind::CombineBarrier)
        == before.spent(WaitKind::CombineBarrier));
}

/// What a list of workers counted for a rank: those that keep no counter for it counted nothing.
pub open spec fn counted_for(counters: Seq<u64>, rank: int) -> int {
    if rank < counters.len() {
        counters[rank] as int
    } else {
        0
    }
}

/// Every statistic is the sum over the workers of the counter of its name.
pub proof fn law_statistics_add_up_the_workers(
    context: AllToAllContext,
    workers: Vec<WorkerCounters>,
    stats: AllToAllPerfStats,
)
    requires
        call_ensures(AllToAllContext::get_perf_stats, (&context, &workers), stats),
    ensures
        ({
            let n = workers@.len() as int;
            let w = workers@;
            &&& stats.local_dispatch_bytes == total(|i: int| w[i].dispatch.local as int, n)
            &&& stats.nvlink_dispatch_bytes == total(|i: int| w[i].dispatch.nvlink as int, n)
            &&& stats.network_dispatch_bytes == total(|i: int| w[i].dispatch.network as int, n)
            &&& stats.local_combine_bytes == total(|i: int| w[i].combine.local as int, n)
            &&& stats.nvlink_combine_bytes == total(|i: int| w[i].combine.nvlink as int, n)
            &&& stats.network_combine_bytes == total(|i: int| w[i].combine.network as int, n)
            &&& stats.wait_dispatch_route_ns == total(
                |i: int| w[i].times.wait_dispatch_route_ns as int,
                n,
            )
            &&& stats.route_exchange_ns == total(|i: int| w[i].times.route_exchange_ns as int, n)
            &&& stats.process_routing_ns == total(|i: int| w[i].times.process_routing_ns as int, n)
            &&& stats.wait_dispatch_send_ns == total(
                |i: int| w[i].times.wait_dispatch_send_ns as int,
                n,
            )
            &&& stats.dispatch_transfer_wait_ns == total(
                |i: int| w[i].times.dispatch_transfer_wait_ns as int,
                n,
            )
            &&& stats.wait_dispatch_recv_ns == total(
                |i: int| w[i].times.wait_dispatch_recv_ns as int,
                n,
            )
            &&& stats.dispatch_barrier_ns == total(
                |i: int| w[i].times.dispatch_barrier_ns as int,
                n,
            )
            &&& stats.wait_combine_send_ns == total(
                |i: int| w[i].times.wait_combine_send_ns as int,
                n,
            )
            &&& stats.combine_transfer_wait_ns == total(
                |i: int| w[i].times.combine_transfer_wait_ns as int,
                n,
            )
            &&& stats.wait_combine_recv_ns == total(
                |i: int| w[i].times.wait_combine_recv_ns as int,
                n,
            )
            &&& stats.combine_barrier_ns == total(|i: int| w[i].times.combine_barrier_ns as int, n)
        }),
        stats.peer_dispatch_bytes@.len() == context.config.world_size,
        stats.peer_combine_bytes@.len() == context.config.world_size,
        forall|p: int|
            0 <= p < context.config.world_size ==> #[trigger] stats.peer_dispatch_bytes@[p]
                == total(
                |i: int| counted_for(workers@[i].dispatch.peer@, p),
                workers@.len() as int,
            ),
        forall|p: int|
            0 <= p < context.config.world_size ==> #[trigger] stats.peer_combine_bytes@[p] == total(
                |i: int| counted_for(workers@[i].combine.peer@, p),
                workers@.len() as int,
            ),
{
    let n = workers@.len() as int;
    let w = workers@;
    assert forall|k: int| 0 <= k < 17 implies #[trigger] stats.scalars()[k] == total(
        |i: int| w[i].scalars()[k] as int,
        n,
    ) by {
        lemma_scalar_sum(w, k, n);
    }
    lemma_total_equal(|i: int| w[i].scalars()[0] as int, |i: int| w[i].dispatch.local as int, n);
    lemma_total_equal(|i: int| w[i].scalars()[1] as int, |i: int| w[i].dispatch.nvlink as int, n);
    lemma_total_equal(|i: int| w[i].scalars()[2] as int, |i: int| w[i].dispatch.network as int, n);
    lemma_total_equal(|i: int| w[i].scalars()[3] as int, |i: int| w[i].combine.local as int, n);
    lemma_total_equal(|i: int| w[i].scalars()[4] as int, |i: int| w[i].combine.nvlink as int, n);
    lemma_total_equal(|i: int| w[i].scalars()[5] as int, |i: int| w[i].combine.network as int, n);
    lemma_total_equal(
        |i: int| w[i].scalars()[6] as int,
        |i: int| w[i].times.wait_dispatch_route_ns as int,
        n,
    );
    lemma_total_equal(
        |i: int| w[i].scalars()[7] as int,
        |i: int| w[i].times.route_exchange_ns as int,
        n,
    );
    lemma_total_equal(
        |i: int| w[i].scalars()[8] as int,
        |i: int| w[i].times.process_routing_ns as int,
        n,
    );
    lemma_total_equal(
        |i: int| w[i].scalars()[9] as int,
        |i: int| w[i].times.wait_dispatch_send_ns as int,
        n,
    );
    lemma_total_equal(
        |i: int| w[i].scalars()[10] as int,
        |i: int| w[i].times.dispatch_transfer_wait_ns as int,
        n,
    );
    lemma_total_equal(
        |i: int| w[i].scalars()[11] as int,
        |i: int| w[i].times.wait_dispatch_recv_ns as int,
        n,
    );
    lemma_total_equal(
        |i: int| w[i].scalars()[12] as int,
        |i: int| w[i].times.dispatch_barrier_ns as int,
        n,
    );
    lemma_total_equal(
        |i: int| w[i].scalars()[13] as int,
        |i: int| w[i].times.wait_combine_send_ns as int,
        n,
    );
    lemma_total_equal(
        |i: int| w[i].scalars()[14] as int,
        |i: int| w[i].times.combine_transfer_wait_ns as int,
        n,
    );
    lemma_total_equal(
        |i: int| w[i].scalars()[15] as int,
        |i: int| w[i].times.wait_combine_recv_ns as int,
        n,
    );
    lemma_total_equal(
        |i: int| w[i].scalars()[16] as int,
        |i: int| w[i].times.combine_barrier_ns as int,
        n,
    );
    assert(stats.scalars()[0] == stats.local_dispatch_bytes);
    assert(stats.scalars()[1] == stats.nvlink_dispatch_bytes);
    assert(stats.scalars()[2] == stats.network_dispatch_bytes);
    assert(stats.scalars()[3] == stats.local_combine_bytes);
    assert(stats.scalars()[4] == stats.nvlink_combine_bytes);
    assert(stats.scalars()[5] == stats.network_combine_bytes);
    assert(stats.scalars()[6] == stats.wait_dispatch_route_ns);
    assert(stats.scalars()[7] == stats.route_exchange_ns);
    assert(stats.scalars()[8] == stats.process_routing_ns);
    assert(stats.scalars()[9] == stats.wait_dispatch_send_ns);
    assert(stats.scalars()[10] == stats.dispatch_transfer_wait_ns);
    assert(stats.scalars()[11] == stats.wait_dispatch_recv_ns);
    assert(stats.scalars()[12] == stats.dispatch_barrier_ns);
    assert(stats.scalars()[13] == stats.wait_combine_send_ns);
    assert(stats.scalars()[14] == stats.combine_transfer_wait_ns);
    assert(stats.scalars()[15] == stats.wait_combine_recv_ns);
    assert(stats.scalars()[16] == stats.combine_barrier_ns);
    assert forall|p: int| 0 <= p < context.config.world_size implies #[trigger]
        stats.peer_dispatch_bytes@[p] == total(
        |i: int| counted_for(workers@[i].dispatch.peer@, p),
        n,
    ) by {
        lemma_peer_sums(w, p, n);
    }
    assert forall|p: int| 0 <= p < context.config.world_size implies #[trigger]
        stats.peer_combine_bytes@[p] == total(
        |i: int| counted_for(workers@[i].combine.peer@, p),
        n,
    ) by {
        lemma_peer_sums(w, p, n);
    }
}

proof fn lemma_scalar_sum(w: Seq<WorkerCounters>, k: int, n: int)
    ensures
        scalar_sum(w, k, n) == total(|i: int| w[i].scalars()[k] as int, n),
    decreases n,
{
    if n > 0 {
        lemma_scalar_sum(w, k, n - 1);
    }
}

proof fn lemma_peer_sums(w: Seq<WorkerCounters>, p: int, n: int)
    ensures
        peer_dispatch_sum(w, p, n) == total(|i: int| counted_for(w[i].dispatch.peer@, p), n),
        peer_combine_sum(w, p, n) == total(|i: int| counted_for(w[i].combine.peer@, p), n),
    decreases n,
{
    if n > 0 {
        lemma_peer_sums(w, p, n - 1);
    }
}

/// Where the sums over the workers are found to fit, the statistics can be asked for; they are
/// found to fit just where every one of them does.
pub proof fn law_checked_sums_can_be_read(
    context: AllToAllContext,
    workers: Vec<WorkerCounters>,
    fit: bool,
)
    requires
        call_ensures(check_sums, (&workers, context.config.world_size), fit),
    ensures
        fit ==> call_requires(AllToAllContext::get_perf_stats, (&context, &workers)),
        fit <==> {
            let n = workers@.len() as int;
            &&& forall|k: int|
                0 <= k < 17 ==> #[trigger] scalars_of(workers@, k, n) <= u64::MAX
            &&& forall|p: int|
                0 <= p < context.config.world_size ==> #[trigger] sent_by_all(workers@, p, n)
                    <= u64::MAX
            &&& forall|p: int|
                0 <= p < context.config.world_size ==> #[trigger] returned_by_all(workers@, p, n)
                    <= u64::MAX
        },
{
    let n = workers@.len() as int;
    assert forall|k: int| 0 <= k < 17 implies #[trigger] scalars_of(workers@, k, n) == scalar_sum(
        workers@,
        k,
        n,
    ) by {
        lemma_scalar_sum(workers@, k, n);
    }
    assert forall|p: int| #[trigger] sent_by_all(workers@, p, n) == peer_dispatch_sum(
        workers@,
        p,
        n,
    ) by {
        lemma_peer_sums(workers@, p, n);
    }
    assert forall|p: int| #[trigger] returned_by_all(workers@, p, n) == peer_combine_sum(
        workers@,
        p,
        n,
    ) by {
        lemma_peer_sums(workers@, p, n);
    }
    if fit {
        assert forall|k: int| 0 <= k < 17 implies #[trigger] scalars_of(workers@, k, n)
            <= u64::MAX by {
            assert(scalar_sum(workers@, k, n) <= u64::MAX);
        }
        assert forall|p: int| 0 <= p < context.config.world_size implies #[trigger] sent_by_all(
            workers@,
            p,
            n,
        ) <= u64::MAX by {
            assert(peer_dispatch_sum(workers@, p, n) <= u64::MAX);
        }
        assert forall|p: int| 0 <= p < context.config.world_size implies #[trigger] returned_by_all(
            workers@,
            p,
            n,
        ) <= u64::MAX by {
            assert(peer_combine_sum(workers@, p, n) <= u64::MAX);
        }
    } else {
        if forall|k: int| 0 <= k < 17 ==> #[trigger] scalars_of(workers@, k, n) <= u64::MAX {
            assert forall|k: int| 0 <= k < 17 implies #[trigger] scalar_sum(workers@, k, n)
                <= u64::MAX by {
                assert(scalars_of(workers@, k, n) <= u64::MAX);
            }
        }
        if forall|p: int|
            0 <= p < context.config.world_size ==> #[trigger] sent_by_all(workers@, p, n)
                <= u64::MAX {
            assert forall|p: int|
                0 <= p < context.config.world_size implies #[trigger] peer_dispatch_sum(
                workers@,
                p,
                n,
            ) <= u64::MAX by {
                assert(sent_by_all(workers@, p, n) <= u64::MAX);
            }
        }
        if forall|p: int|
            0 <= p < context.config.world_size ==> #[trigger] returned_by_all(workers@, p, n)
                <= u64::MAX {
            assert forall|p: int|
                0 <= p < context.config.world_size implies #[trigger] peer_combine_sum(
                workers@,
                p,
                n,
            ) <= u64::MAX by {
                assert(returned_by_all(workers@, p, n) <= u64::MAX);
            }
        }
    }
}

/// The sum of one counter over the first `n` workers.
pub open spec fn scalars_of(w: Seq<WorkerCounters>, k: int, n: int) -> int {
    total(|i: int| w[i].scalars()[k] as int, n)
}

/// What the first `n` workers sent to a rank.
pub open spec fn sent_by_all(w: Seq<WorkerCounters>, p: int, n: int) -> int {
    total(|i: int| counted_for(w[i].dispatch.peer@, p), n)
}

/// What the first `n` workers sent back to a rank.
pub open spec fn returned_by_all(w: Seq<WorkerCounters>, p: int, n: int) -> int {
    total(|i: int| counted_for(w[i].combine.peer@, p), n)
}

} // verus!
