//! What holds of the counters over time: they only grow, and so do the statistics.

use vstd::prelude::*;
use crate::arith::lemma_ceil_div;
use crate::cluster::Cluster;
use crate::config::{ContextConfig, TOKEN_ALIGNMENT};
use crate::counters::{
    counted_ns, entry, link_bytes, peer_bytes, peer_combine_sum, peer_dispatch_sum, scalar_sum,
    AllToAllPerfStats, ByteCounters, Link, WaitKind, WorkerCounters, SCALARS,
};
use crate::exchange::{all_ranks, group_peers};
use crate::round_laws::{at_most_stopped, RoundTrace};
use crate::routing::RouteTable;
use crate::step::{Action, Event, Round};
use crate::worker::WorkerState;

verus! {

/// Whether a list of counters has reached another, entry by entry.
pub open spec fn reaches(counters: Seq<u64>, earlier: Seq<u64>) -> bool {
    &&& counters.len() == earlier.len()
    &&& forall|i: int| 0 <= i < earlier.len() ==> earlier[i] <= #[trigger] counters[i]
}

impl WorkerCounters {
    /// Whether no counter is below what it was.
    pub open spec fn at_least(self, earlier: WorkerCounters) -> bool {
        &&& reaches(self.scalars(), earlier.scalars())
        &&& reaches(self.dispatch.peer@, earlier.dispatch.peer@)
        &&& reaches(self.combine.peer@, earlier.combine.peer@)
    }
}

impl AllToAllPerfStats {
    /// Whether no statistic is below what it was.
    pub open spec fn at_least(self, earlier: AllToAllPerfStats) -> bool {
        &&& reaches(self.scalars(), earlier.scalars())
        &&& reaches(self.peer_dispatch_bytes@, earlier.peer_dispatch_bytes@)
        &&& reaches(self.peer_combine_bytes@, earlier.peer_combine_bytes@)
    }
}

impl ByteCounters {
    /// Whether no counter passes 64 bits when `tokens[i]` tokens of `token_dim` bytes are counted
    /// for each `peers[i]`.
    pub open spec fn has_room(
        self,
        rank: int,
        node_size: int,
        peers: Seq<usize>,
        tokens: Seq<u32>,
        token_dim: int,
    ) -> bool {
        let n = peers.len() as int;
        &&& self.local + link_bytes(rank, node_size, peers, tokens, token_dim, Link::Local, n)
            <= u64::MAX
        &&& self.nvlink + link_bytes(rank, node_size, peers, tokens, token_dim, Link::Nvlink, n)
            <= u64::MAX
        &&& self.network + link_bytes(rank, node_size, peers, tokens, token_dim, Link::Network, n)
            <= u64::MAX
        &&& forall|p: int|
            0 <= p < self.peer@.len() ==> #[trigger] self.peer@[p] + peer_bytes(
                peers,
                tokens,
                token_dim,
                p,
                n,
            ) <= u64::MAX
    }
}

/// The tokens that this rank's group sends to each rank.
pub open spec fn sent_tokens(c: Cluster, t: RouteTable) -> Seq<u32> {
    Seq::new(c.world_size as nat, |p: int| c.to_rank(t, p) as u32)
}

/// The tokens that each group sends to this rank.
pub open spec fn received_tokens(c: Cluster, t: RouteTable) -> Seq<u32> {
    Seq::new(c.groups() as nat, |g: int| c.from_group(t, g) as u32)
}

impl Round {
    /// Whether no counter of the worker passes 64 bits with what came of the last action.
    pub open spec fn leaves_room(self, worker: WorkerState, event: Event) -> bool {
        let config = worker.config;
        let c = config.cluster();
        match event {
            Event::Counts { counts } if self.reads() != 2 => {
                let t = worker.routes(counts@);
                &&& worker.counters.dispatch.has_room(
                    config.rank as int,
                    config.node_size as int,
                    all_ranks(config.world_size as int),
                    sent_tokens(c, t),
                    config.dispatch_token_dim(),
                )
                &&& worker.counters.combine.has_room(
                    config.rank as int,
                    config.node_size as int,
                    group_peers(c),
                    received_tokens(c, t),
                    config.combine_token_dim(),
                )
            },
            Event::Elapsed { ns } => match self.awaits() {
                Action::RecordTime { kind } => worker.counters.times.spent(kind) + counted_ns(ns)
                    <= u64::MAX,
                _ => true,
            },
            _ => true,
        }
    }
}

impl RoundTrace {
    /// Whether no counter passes 64 bits during the round.
    pub open spec fn leaves_room(self) -> bool {
        forall|i: int|
            #![trigger self.step_at(i)]
            0 <= i < self.events.len() ==> self.rounds[i].leaves_room(self.found[i], self.events[i])
    }
}

/// Counting adds no negative bytes.
proof fn lemma_bytes_nonneg(
    rank: int,
    node_size: int,
    peers: Seq<usize>,
    tokens: Seq<u32>,
    token_dim: int,
    link: Link,
    peer: int,
    n: int,
)
    requires
        0 <= token_dim,
    ensures
        0 <= link_bytes(rank, node_size, peers, tokens, token_dim, link, n),
        0 <= peer_bytes(peers, tokens, token_dim, peer, n),
    decreases n,
{
    if n > 0 {
        lemma_bytes_nonneg(rank, node_size, peers, tokens, token_dim, link, peer, n - 1);
        assert(0 <= tokens[n - 1] * token_dim) by (nonlinear_arith)
            requires
                0 <= token_dim,
        ;
    }
}

/// Where nothing wraps, counting bytes lowers no counter.
pub proof fn law_counting_lowers_no_counter(
    before: ByteCounters,
    after: ByteCounters,
    rank: int,
    node_size: int,
    peers: Seq<usize>,
    tokens: Seq<u32>,
    token_dim: int,
)
    requires
        before.counted(after, rank, node_size, peers, tokens, token_dim),
        before.has_room(rank, node_size, peers, tokens, token_dim),
        0 <= token_dim,
    ensures
        before.local <= after.local,
        before.nvlink <= after.nvlink,
        before.network <= after.network,
        reaches(after.peer@, before.peer@),
{
    let n = peers.len() as int;
    lemma_bytes_nonneg(rank, node_size, peers, tokens, token_dim, Link::Local, 0, n);
    lemma_bytes_nonneg(rank, node_size, peers, tokens, token_dim, Link::Nvlink, 0, n);
    lemma_bytes_nonneg(rank, node_size, peers, tokens, token_dim, Link::Network, 0, n);
    assert forall|p: int| 0 <= p < before.peer@.len() implies before.peer@[p]
        <= #[trigger] after.peer@[p] by {
        lemma_bytes_nonneg(rank, node_size, peers, tokens, token_dim, Link::Local, p, n);
        assert(before.peer@[p] + peer_bytes(peers, tokens, token_dim, p, n) <= u64::MAX);
    }
}

/// The size of a token is not negative.
pub proof fn lemma_token_dims(config: ContextConfig)
    ensures
        0 <= config.dispatch_token_dim(),
        0 <= config.combine_token_dim(),
{
    assert(0 <= config.hidden_dim * config.in_elemsize) by (nonlinear_arith);
    assert(0 <= config.hidden_dim_scale * config.scale_elemsize) by (nonlinear_arith);
    assert(0 <= config.hidden_dim * config.out_elemsize) by (nonlinear_arith);
    lemma_ceil_div(config.hidden_dim * config.in_elemsize, TOKEN_ALIGNMENT as int);
    lemma_ceil_div(config.hidden_dim_scale * config.scale_elemsize, TOKEN_ALIGNMENT as int);
    lemma_ceil_div(config.hidden_dim * config.out_elemsize, TOKEN_ALIGNMENT as int);
}

/// Counters whose parts are not below what they were are not below it themselves.
proof fn lemma_at_least(counters: WorkerCounters, earlier: WorkerCounters)
    requires
        earlier.dispatch.local <= counters.dispatch.local,
        earlier.dispatch.nvlink <= counters.dispatch.nvlink,
        earlier.dispatch.network <= counters.dispatch.network,
        reaches(counters.dispatch.peer@, earlier.dispatch.peer@),
        earlier.combine.local <= counters.combine.local,
        earlier.combine.nvlink <= counters.combine.nvlink,
        earlier.combine.network <= counters.combine.network,
        reaches(counters.combine.peer@, earlier.combine.peer@),
        forall|kind: WaitKind|
            earlier.times.spent(kind) <= #[trigger] counters.times.spent(kind),
    ensures
        counters.at_least(earlier),
{
    let times = counters.times;
    let spent = earlier.times;
    assert(spent.spent(WaitKind::WaitDispatchRoute) <= times.spent(WaitKind::WaitDispatchRoute));
    assert(spent.spent(WaitKind::RouteExchange) <= times.spent(WaitKind::RouteExchange));
    assert(spent.spent(WaitKind::ProcessRouting) <= times.spent(WaitKind::ProcessRouting));
    assert(spent.spent(WaitKind::WaitDispatchSend) <= times.spent(WaitKind::WaitDispatchSend));
    assert(spent.spent(WaitKind::DispatchTransferWait) <= times.spent(
        WaitKind::DispatchTransferWait,
    ));
    assert(spent.spent(WaitKind::WaitDispatchRecv) <= times.spent(WaitKind::WaitDispatchRecv));
    assert(spent.spent(WaitKind::DispatchBarrier) <= times.spent(WaitKind::DispatchBarrier));
    assert(spent.spent(WaitKind::WaitCombineSend) <= times.spent(WaitKind::WaitCombineSend));
    assert(spent.spent(WaitKind::CombineTransferWait) <= times.spent(
        WaitKind::CombineTransferWait,
    ));
    assert(spent.spent(WaitKind::WaitCombineRecv) <= times.spent(WaitKind::WaitCombineRecv));
    assert(spent.spent(WaitKind::CombineBarrier) <= times.spent(WaitKind::CombineBarrier));
}

/// While no counter passes 64 bits, a step of a round lowers none.
pub proof fn law_step_lowers_no_counter(
    round: Round,
    worker: WorkerState,
    event: Event,
    after: Round,
    after_worker: WorkerState,
    action: Action,
)
    requires
        round.accepts(worker, event),
        round.went_on(worker, event, after, after_worker, action),
        round.leaves_room(worker, event),
    ensures
        after_worker.counters.at_least(worker.counters),
{
    let config = worker.config;
    let c = config.cluster();
    match event {
        Event::Counts { counts } if round.reads() != 2 => {
            let t = worker.routes(counts@);
            let plan = after.upload->0.plan;
            lemma_token_dims(config);
            assert(plan.tokens_to_rank@ =~= sent_tokens(c, t));
            assert(plan.tokens_from_group@ =~= received_tokens(c, t));
            law_counting_lowers_no_counter(
                worker.counters.dispatch,
                after_worker.counters.dispatch,
                config.rank as int,
                config.node_size as int,
                all_ranks(config.world_size as int),
                sent_tokens(c, t),
                config.dispatch_token_dim(),
            );
            law_counting_lowers_no_counter(
                worker.counters.combine,
                after_worker.counters.combine,
                config.rank as int,
                config.node_size as int,
                group_peers(c),
                received_tokens(c, t),
                config.combine_token_dim(),
            );
            lemma_at_least(after_worker.counters, worker.counters);
        },
        Event::Elapsed { ns } => {
            let kind = round.awaits()->RecordTime_kind;
            assert forall|other: WaitKind| worker.counters.times.spent(other)
                <= #[trigger] after_worker.counters.times.spent(other) by {
                if other == kind {
                    assert(worker.counters.times.spent(kind) + counted_ns(ns) <= u64::MAX);
                }
            }
            lemma_at_least(after_worker.counters, worker.counters);
        },
        _ => {
            lemma_at_least(after_worker.counters, worker.counters);
        },
    }
}

/// Growth adds up: counters that are not below others, which are not below a third, are not
/// below the third.
pub proof fn law_growth_adds_up(
    first: WorkerCounters,
    second: WorkerCounters,
    third: WorkerCounters,
)
    requires
        second.at_least(first),
        third.at_least(second),
    ensures
        third.at_least(first),
{
    lemma_reaches(third.scalars(), second.scalars(), first.scalars());
    lemma_reaches(third.dispatch.peer@, second.dispatch.peer@, first.dispatch.peer@);
    lemma_reaches(third.combine.peer@, second.combine.peer@, first.combine.peer@);
}

proof fn lemma_reaches(third: Seq<u64>, second: Seq<u64>, first: Seq<u64>)
    requires
        reaches(third, second),
        reaches(second, first),
    ensures
        reaches(third, first),
{
    assert forall|i: int| 0 <= i < first.len() implies first[i] <= #[trigger] third[i] by {
        assert(first[i] <= second[i]);
    }
}

/// While no counter passes 64 bits, none is ever lower in a round than it was before.
pub proof fn law_round_lowers_no_counter(trace: RoundTrace, nets_per_gpu: int, i: int, j: int)
    requires
        trace.is_round(nets_per_gpu),
        trace.leaves_room(),
        0 <= i <= j <= trace.events.len(),
    ensures
        trace.workers[j].counters.at_least(trace.workers[i].counters),
    decreases j - i,
{
    if i < j {
        law_round_lowers_no_counter(trace, nets_per_gpu, i, j - 1);
        assert(trace.step_at(j - 1));
        law_step_lowers_no_counter(
            trace.rounds[j - 1],
            trace.found[j - 1],
            trace.events[j - 1],
            trace.rounds[j],
            trace.workers[j],
            trace.actions[j],
        );
        law_growth_adds_up(
            trace.workers[i].counters,
            trace.workers[j - 1].counters,
            trace.workers[j].counters,
        );
    }
}

/// Whether rounds come one after another: between two of them the worker is at most told to stop.
pub open spec fn one_after_another(rounds: Seq<RoundTrace>) -> bool {
    forall|r: int|
        0 < r < rounds.len() ==> at_most_stopped(
            rounds[r - 1].workers.last(),
            (#[trigger] rounds[r]).workers[0],
        )
}

/// While no counter passes 64 bits, none is ever lower than it was before, in the same round or
/// in an earlier one.
pub proof fn law_rounds_lower_no_counter(
    rounds: Seq<RoundTrace>,
    nets_per_gpu: int,
    r: int,
    i: int,
    s: int,
    j: int,
)
    requires
        forall|k: int|
            0 <= k < rounds.len() ==> (#[trigger] rounds[k]).is_round(nets_per_gpu)
                && rounds[k].leaves_room(),
        one_after_another(rounds),
        0 <= r <= s < rounds.len(),
        0 <= i <= rounds[r].events.len(),
        0 <= j <= rounds[s].events.len(),
        r == s ==> i <= j,
    ensures
        rounds[s].workers[j].counters.at_least(rounds[r].workers[i].counters),
    decreases s - r,
{
    let start = rounds[r].workers[i].counters;
    if r == s {
        law_round_lowers_no_counter(rounds[r], nets_per_gpu, i, j);
    } else {
        let n = rounds[s - 1].events.len() as int;
        assert(rounds[s - 1].is_round(nets_per_gpu) && rounds[s].is_round(nets_per_gpu));
        law_rounds_lower_no_counter(rounds, nets_per_gpu, r, i, s - 1, n);
        law_round_lowers_no_counter(rounds[s], nets_per_gpu, 0, j);
        law_growth_adds_up(start, rounds[s].workers[0].counters, rounds[s].workers[j].counters);
    }
}

/// Sums over workers whose counters grew are not smaller.
proof fn lemma_sums_grow(earlier: Seq<WorkerCounters>, later: Seq<WorkerCounters>, k: int, n: int)
    requires
        0 <= n <= earlier.len(),
        earlier.len() == later.len(),
        forall|w: int| 0 <= w < earlier.len() ==> (#[trigger] later[w]).at_least(earlier[w]),
        0 <= k,
    ensures
        k < SCALARS ==> scalar_sum(earlier, k, n) <= scalar_sum(later, k, n),
        peer_dispatch_sum(earlier, k, n) <= peer_dispatch_sum(later, k, n),
        peer_combine_sum(earlier, k, n) <= peer_combine_sum(later, k, n),
    decreases n,
{
    if n > 0 {
        lemma_sums_grow(earlier, later, k, n - 1);
        assert(later[n - 1].at_least(earlier[n - 1]));
        if k < SCALARS {
            assert(earlier[n - 1].scalars()[k] <= later[n - 1].scalars()[k]);
        }
        let sent = earlier[n - 1].dispatch.peer@;
        let returned = earlier[n - 1].combine.peer@;
        if k < sent.len() {
            assert(sent[k] <= later[n - 1].dispatch.peer@[k]);
        }
        if k < returned.len() {
            assert(returned[k] <= later[n - 1].combine.peer@[k]);
        }
        assert(entry(sent, k) <= entry(later[n - 1].dispatch.peer@, k));
        assert(entry(returned, k) <= entry(later[n - 1].combine.peer@, k));
    }
}

/// A later reading of the statistics is in nothing smaller than an earlier one, where no counter
/// was lowered in between.
pub proof fn law_statistics_never_shrink(
    earlier: Seq<WorkerCounters>,
    later: Seq<WorkerCounters>,
    first: AllToAllPerfStats,
    second: AllToAllPerfStats,
    world_size: int,
)
    requires
        earlier.len() == later.len(),
        forall|w: int| 0 <= w < earlier.len() ==> (#[trigger] later[w]).at_least(earlier[w]),
        first.sums(earlier, world_size),
        second.sums(later, world_size),
    ensures
        second.at_least(first),
{
    let n = earlier.len() as int;
    assert forall|i: int| 0 <= i < first.scalars().len() implies first.scalars()[i]
        <= #[trigger] second.scalars()[i] by {
        lemma_sums_grow(earlier, later, i, n);
        assert(first.scalars()[i] == scalar_sum(earlier, i, n));
    }
    assert forall|p: int| 0 <= p < first.peer_dispatch_bytes@.len() implies
        first.peer_dispatch_bytes@[p] <= #[trigger] second.peer_dispatch_bytes@[p] by {
        lemma_sums_grow(earlier, later, p, n);
        assert(first.peer_dispatch_bytes@[p] == peer_dispatch_sum(earlier, p, n));
    }
    assert forall|p: int| 0 <= p < first.peer_combine_bytes@.len() implies
        first.peer_combine_bytes@[p] <= #[trigger] second.peer_combine_bytes@[p] by {
        lemma_sums_grow(earlier, later, p, n);
        assert(first.peer_combine_bytes@[p] == peer_combine_sum(earlier, p, n));
    }
}

/// Reading the statistics resets nothing: a second reading of the same counters gives the same
/// statistics.
pub proof fn law_statistics_repeat(
    workers: Seq<WorkerCounters>,
    first: AllToAllPerfStats,
    second: AllToAllPerfStats,
    world_size: int,
)
    requires
        first.sums(workers, world_size),
        second.sums(workers, world_size),
    ensures
        first.scalars() == second.scalars(),
        first.peer_dispatch_bytes@ == second.peer_dispatch_bytes@,
        first.peer_combine_bytes@ == second.peer_combine_bytes@,
{
    let n = workers.len() as int;
    assert forall|i: int| 0 <= i < SCALARS implies first.scalars()[i] == second.scalars()[i] by {
        assert(first.scalars()[i] == scalar_sum(workers, i, n));
    }
    assert(first.scalars() =~= second.scalars());
    assert(first.peer_dispatch_bytes@ =~= second.peer_dispatch_bytes@);
    assert(first.peer_combine_bytes@ =~= second.peer_combine_bytes@);
}

} // verus!
