//! What holds of the steps of a round: which action follows from which event.

use vstd::prelude::*;
use crate::cluster_laws::{has_shape, lemma_groups};
use crate::routing::row_sum;
use crate::stage_laws::{
    combine_in_order, dispatch_in_order, law_combine_stage_keeps_its_order,
    law_counts_are_exchanged_in_order, law_dispatch_stage_keeps_its_order,
    law_round_opens_in_order, occurs,
};
use crate::step::{
    combining, dispatching, exchanging, handed_out, opening, Action, Event, MessageCounter, Round,
    Stage,
};
use crate::transfer_laws::{
    first_writes, law_first_writes_follow_the_table, law_routing_follows_the_table, lists_writes,
    processes_routing, rest_fits,
};
use crate::worker::{flat_table, ring, WorkerState};

verus! {

/// What is left of the current part of a round, from the next action on.
pub open spec fn upcoming(action: Action, round: Round) -> Seq<Action> {
    seq![action] + round.pending@.skip(round.pos as int)
}

/// What is handed out first, and the rest, make up the whole.
proof fn lemma_upcoming(script: Seq<Action>, action: Action, round: Round)
    requires
        handed_out(script, action, round.rest()),
        script.len() > 0,
    ensures
        upcoming(action, round) == script,
{
    assert(upcoming(action, round) =~= script);
}

/// A round starts at its opening, with nothing written, planned or read so far.
pub proof fn law_rounds_start_at_the_opening(
    worker: WorkerState,
    nets_per_gpu: u32,
    round: Round,
    action: Action,
)
    requires
        call_ensures(WorkerState::step, (&worker, nets_per_gpu), (round, action)),
    ensures
        ({
            let within_node = worker.config.node_size == worker.config.world_size
                && worker.node_route_count_ptrs@.len() == worker.config.world_size
                && worker.node_route_epoch_ptrs@.len() == worker.config.world_size;
            &&& occurs(upcoming(action, round), Action::PublishNodeRoutes) <==> within_node
            &&& occurs(upcoming(action, round), Action::SubmitRoutes) <==> !within_node
            &&& upcoming(action, round) == opening(within_node)
        }),
        round.awaiting == action,
        round.reads_left == 2,
        round.nets_per_gpu == nets_per_gpu,
        round.initial_ranges@.len() == 0,
        round.upload is None,
        round.routing is None,
{
    let script = opening(worker.node_exchange());
    law_round_opens_in_order(worker.node_exchange());
    assert(script.len() > 0);
    assert(upcoming(action, round) =~= script);
}

/// Whether a step after the first reading of the counts goes on as it should.
pub open spec fn exchanges_next(
    worker: WorkerState,
    after: Round,
    after_worker: WorkerState,
    action: Action,
    groups: int,
) -> bool {
    let next = upcoming(action, after);
    let within_node = worker.config.node_size == worker.config.world_size
        && worker.node_route_count_ptrs@.len() == worker.config.world_size
        && worker.node_route_epoch_ptrs@.len() == worker.config.world_size;
    &&& after.reads_left == 1
    &&& after.awaiting == action
    &&& after_worker.counters == worker.counters
    &&& after_worker.epoch == worker.epoch
    &&& after_worker.stopped == worker.stopped
    // There is a first write just where there is something to write.
    &&& occurs(next, Action::SubmitInitial) <==> after.initial_ranges@.len() > 0
    &&& occurs(next, Action::WaitNodeRoutes) <==> within_node
    // Every other group sends its counts.
    &&& forall|i: int|
        0 <= i < next.len() ==> match #[trigger] next[i] {
            Action::WaitMessages { counter, target } => counter == MessageCounter::Route && target
                == groups - 1,
            _ => true,
        }
    &&& !within_node ==> occurs(
        next,
        Action::WaitMessages { counter: MessageCounter::Route, target: (groups - 1) as u32 },
    )
    &&& next.last() == Action::ReadCounts
}

/// Once the counts of this rank are read, what it can write at once is written, and the counts of
/// every other group are waited for: one message from each, or a look at the node's memory.
pub proof fn law_every_other_group_sends_its_counts(counts: Vec<u32>, groups: int)
    requires
        1 <= groups <= u32::MAX,
    ensures
        forall|round: &mut Round, worker: &mut WorkerState, action: Action|
            (*round).reads_left == 2 && (*worker).config.dp_size > 0 && groups
                * (*worker).config.dp_size <= (*worker).config.world_size < (groups + 1)
                * (*worker).config.dp_size && #[trigger] call_ensures(
                Round::next,
                (round, worker, Event::Counts { counts }),
                action,
            ) ==> exchanges_next(*worker, *final(round), *final(worker), action, groups),
{
    assert forall|round: &mut Round, worker: &mut WorkerState, action: Action|
        (*round).reads_left == 2 && (*worker).config.dp_size > 0 && groups
            * (*worker).config.dp_size <= (*worker).config.world_size < (groups + 1)
            * (*worker).config.dp_size && #[trigger] call_ensures(
            Round::next,
            (round, worker, Event::Counts { counts }),
            action,
        ) implies exchanges_next(*worker, *final(round), *final(worker), action, groups) by {
        let before = *worker;
        let after = *final(round);
        lemma_groups(before.config.world_size as int, before.config.dp_size as int, groups);
        let has_initial = after.initial_ranges@.len() > 0;
        let target = before.route_target() as u32;
        assert(target == groups - 1);
        let script = exchanging(before.node_exchange(), has_initial, target);
        law_counts_are_exchanged_in_order(before.node_exchange(), has_initial, target);
        assert(script.len() > 0);
        lemma_upcoming(script, action, after);
    }
}

/// Whether a step after the second reading of the counts goes on as it should.
pub open spec fn stages_next(
    worker: WorkerState,
    before: Round,
    after: Round,
    after_worker: WorkerState,
    action: Action,
    nodes: int,
    per_node: int,
) -> bool {
    let next = upcoming(action, after);
    let between = worker.config.world_size != worker.config.node_size;
    let info = after.routing->0;
    &&& after.reads_left == 0
    &&& after.awaiting == action
    &&& action == Action::Upload
    &&& after.upload is Some
    &&& after.routing is Some
    &&& after.initial_ranges == before.initial_ranges
    &&& after_worker.epoch == worker.epoch
    &&& after_worker.stopped == worker.stopped
    &&& after_worker.counters.times == worker.counters.times
    // There is a write just where there is something to write.
    &&& occurs(next, Action::SubmitDispatch) <==> info.dispatch_ranges@.len() > 0
    &&& occurs(next, Action::SubmitCombine) <==> info.combine_ranges@.len() > 0
    // Between nodes all ranks meet, after either stage.
    &&& occurs(next, Action::SubmitBarrier { stage: Stage::Dispatch }) <==> between
    &&& occurs(next, Action::SubmitBarrier { stage: Stage::Combine }) <==> between
    &&& forall|i: int|
        0 <= i < next.len() ==> match #[trigger] next[i] {
            Action::WaitMessages { counter, target } => match counter {
                // Every other rank comes to the barrier.
                MessageCounter::DispatchBarrier => target == worker.config.world_size - 1,
                MessageCounter::CombineBarrier => target == worker.config.world_size - 1,
                // Every group of the other nodes sends back what it got, over every interface.
                MessageCounter::Combine => target == before.nets_per_gpu * ((nodes - 1)
                    * per_node),
                MessageCounter::Route => false,
            },
            Action::WaitDispatched { target } => target == info.num_recv_tx,
            Action::ReleaseSlot { slot } => slot == worker.slot_idx && i == next.len() - 1,
            Action::SetTxReady { ready } => ready,
            _ => true,
        }
    &&& next.last() is ReleaseSlot
}

/// Whether there are `nodes` whole nodes, each with `per_node` whole groups.
pub open spec fn has_nodes(worker: WorkerState, nodes: int, per_node: int) -> bool {
    let config = worker.config;
    &&& 0 < config.dp_size
    &&& 0 < config.node_size <= config.world_size <= u32::MAX
    &&& nodes * config.node_size <= config.world_size < (nodes + 1) * config.node_size
    &&& per_node * config.dp_size <= config.node_size < (per_node + 1) * config.dp_size
}

/// How many groups sit on other nodes.
proof fn lemma_far_groups(worker: WorkerState, nodes: int, per_node: int, nets: int)
    requires
        has_nodes(worker, nodes, per_node),
        0 <= nets,
    ensures
        worker.remote_group_count() == (nodes - 1) * per_node,
        0 <= (nodes - 1) * per_node <= u32::MAX,
        worker.combine_target(nets) == nets * ((nodes - 1) * per_node),
        0 <= worker.combine_target(nets),
        worker.barrier_target() == worker.config.world_size - 1,
{
    let w = worker;
    lemma_groups(w.config.world_size as int, w.config.node_size as int, nodes);
    lemma_groups(w.config.node_size as int, w.config.dp_size as int, per_node);
    assert(1 <= nodes && 0 <= per_node && (nodes - 1) * per_node <= w.config.world_size && 0 <= (
    nodes - 1) * per_node) by (nonlinear_arith)
        requires
            nodes * w.config.node_size <= w.config.world_size < (nodes + 1) * w.config.node_size,
            0 < w.config.node_size <= w.config.world_size,
            per_node * w.config.dp_size <= w.config.node_size < (per_node + 1) * w.config.dp_size,
            0 < w.config.dp_size,
    ;
    let count = (nodes - 1) * per_node;
    assert(count * nets == nets * count) by (nonlinear_arith);
    assert(0 <= nets * count) by (nonlinear_arith)
        requires
            0 <= nets,
            0 <= count,
    ;
}

/// What the second reading of the counts leads to.
proof fn lemma_stages_next(
    worker: WorkerState,
    round: Round,
    counts: Vec<u32>,
    after: Round,
    after_worker: WorkerState,
    action: Action,
    nodes: int,
    per_node: int,
)
    requires
        round.reads_left < 2,
        has_nodes(worker, nodes, per_node),
        round.accepts(worker, Event::Counts { counts }),
        round.went_on(worker, Event::Counts { counts }, after, after_worker, action),
    ensures
        stages_next(worker, round, after, after_worker, action, nodes, per_node),
{
    let w = worker;
    let info = after.routing->0;
    let has_initial = round.initial_ranges@.len() > 0;
    let nets = round.nets_per_gpu as int;
    lemma_far_groups(w, nodes, per_node, nets);
    assert(w.round_ready(nets));
    let single = w.single_node();
    let barrier = w.barrier_target() as u32;
    let has_dispatch = info.dispatch_ranges@.len() > 0;
    let has_combine = info.combine_ranges@.len() > 0;
    let combine = w.combine_target(nets) as u32;
    let first = dispatching(single, has_initial, has_dispatch, info.num_recv_tx, barrier);
    let second = combining(single, has_combine, combine, barrier, w.slot_idx);
    let all = first + second;
    assert(w.stages(nets, has_initial, info) == all);
    lemma_stages(
        single,
        has_initial,
        has_dispatch,
        info.num_recv_tx,
        has_combine,
        combine,
        barrier,
        w.slot_idx,
    );
    assert(all.len() > 0);
    lemma_upcoming(all, action, after);
    assert(upcoming(action, after)[0] == action);
}

/// What the two stages hold.
proof fn lemma_stages(
    single: bool,
    has_initial: bool,
    has_dispatch: bool,
    num_recv_tx: u32,
    has_combine: bool,
    combine: u32,
    barrier: u32,
    slot: usize,
)
    ensures
        hold_both(
            dispatching(single, has_initial, has_dispatch, num_recv_tx, barrier) + combining(
                single,
                has_combine,
                combine,
                barrier,
                slot,
            ),
            single,
            has_dispatch,
            num_recv_tx,
            has_combine,
            combine,
            barrier,
            slot,
        ),
{
    let first = dispatching(single, has_initial, has_dispatch, num_recv_tx, barrier);
    let second = combining(single, has_combine, combine, barrier, slot);
    law_dispatch_stage_keeps_its_order(single, has_initial, has_dispatch, num_recv_tx, barrier);
    law_combine_stage_keeps_its_order(single, has_combine, combine, barrier, slot);
    lemma_both_stages(
        first,
        second,
        single,
        has_initial,
        has_dispatch,
        num_recv_tx,
        has_combine,
        combine,
        barrier,
        slot,
    );
}

/// Once the counts of all groups are read, the round runs through its two stages. Between nodes
/// it waits twice for a message from every other rank, whatever the size of the groups.
pub proof fn law_every_other_rank_comes_to_the_barrier(
    counts: Vec<u32>,
    nodes: int,
    per_node: int,
)
    ensures
        forall|round: &mut Round, worker: &mut WorkerState, action: Action|
            (*round).reads_left < 2 && has_nodes(*worker, nodes, per_node) && (*round).accepts(
                *worker,
                Event::Counts { counts },
            ) && #[trigger] call_ensures(
                Round::next,
                (round, worker, Event::Counts { counts }),
                action,
            ) ==> stages_next(
                *worker,
                *round,
                *final(round),
                *final(worker),
                action,
                nodes,
                per_node,
            ),
{
    assert forall|round: &mut Round, worker: &mut WorkerState, action: Action|
        (*round).reads_left < 2 && has_nodes(*worker, nodes, per_node) && (*round).accepts(
            *worker,
            Event::Counts { counts },
        ) && #[trigger] call_ensures(
            Round::next,
            (round, worker, Event::Counts { counts }),
            action,
        ) implies stages_next(
        *worker,
        *round,
        *final(round),
        *final(worker),
        action,
        nodes,
        per_node,
    ) by {
        lemma_stages_next(
            *worker,
            *round,
            counts,
            *final(round),
            *final(worker),
            action,
            nodes,
            per_node,
        );
    }
}

/// Whether actions are those of both stages.
spec fn hold_both(
    all: Seq<Action>,
    single: bool,
    has_dispatch: bool,
    num_recv_tx: u32,
    has_combine: bool,
    combine: u32,
    barrier: u32,
    slot: usize,
) -> bool {
    &&& all.len() > 0
    &&& all[0] == Action::Upload
    &&& all.last() == (Action::ReleaseSlot { slot })
    &&& occurs(all, Action::SubmitDispatch) <==> has_dispatch
    &&& occurs(all, Action::SubmitCombine) <==> has_combine
    &&& occurs(all, Action::SubmitBarrier { stage: Stage::Dispatch }) <==> !single
    &&& occurs(all, Action::SubmitBarrier { stage: Stage::Combine }) <==> !single
    &&& forall|i: int|
        0 <= i < all.len() ==> match #[trigger] all[i] {
            Action::WaitMessages { counter, target } => match counter {
                MessageCounter::DispatchBarrier => target == barrier,
                MessageCounter::CombineBarrier => target == barrier,
                MessageCounter::Combine => target == combine,
                MessageCounter::Route => false,
            },
            Action::WaitDispatched { target } => target == num_recv_tx,
            Action::ReleaseSlot { slot: s } => s == slot && i == all.len() - 1,
            Action::SetTxReady { ready } => ready,
            _ => true,
        }
}

/// What two stages hold that each keep their order.
proof fn lemma_both_stages(
    first: Seq<Action>,
    second: Seq<Action>,
    single: bool,
    has_initial: bool,
    has_dispatch: bool,
    num_recv_tx: u32,
    has_combine: bool,
    combine: u32,
    barrier: u32,
    slot: usize,
)
    requires
        dispatch_in_order(first, single, has_initial, has_dispatch, num_recv_tx, barrier),
        combine_in_order(second, single, has_combine, combine, barrier, slot),
    ensures
        hold_both(
            first + second,
            single,
            has_dispatch,
            num_recv_tx,
            has_combine,
            combine,
            barrier,
            slot,
        ),
{
    let all = first + second;
    let release = Action::ReleaseSlot { slot };
    assert forall|i: int| 0 <= i < all.len() implies #[trigger] all[i] == if i < first.len() {
        first[i]
    } else {
        second[i - first.len()]
    } by {}
    assert(occurs(first, Action::Upload));
    assert(occurs(second, release));
    lemma_occurs_in_either(first, second, Action::SubmitDispatch);
    lemma_occurs_in_either(first, second, Action::SubmitCombine);
    lemma_occurs_in_either(first, second, Action::SubmitBarrier { stage: Stage::Dispatch });
    lemma_occurs_in_either(first, second, Action::SubmitBarrier { stage: Stage::Combine });
    assert(all.last() == second.last());
}

proof fn lemma_occurs_in_either(first: Seq<Action>, second: Seq<Action>, action: Action)
    ensures
        occurs(first + second, action) <==> occurs(first, action) || occurs(second, action),
{
    let all = first + second;
    if occurs(first, action) {
        let i = choose|i: int| 0 <= i < first.len() && first[i] == action;
        assert(all[i] == action);
    }
    if occurs(second, action) {
        let i = choose|i: int| 0 <= i < second.len() && second[i] == action;
        assert(all[first.len() + i] == action);
    }
    if occurs(all, action) {
        let i = choose|i: int| 0 <= i < all.len() && all[i] == action;
        if i < first.len() {
            assert(first[i] == action);
        } else {
            assert(second[i - first.len()] == action);
        }
    }
}

/// The ranks that a worker tells of a barrier are as many as those that it waits for, and they
/// are all other ranks.
pub proof fn law_barrier_messages_balance(worker: WorkerState, peers: Vec<usize>, rank: int)
    requires
        call_ensures(WorkerState::barrier_peers, (&worker,), peers),
        worker.config.rank < worker.config.world_size,
        0 <= rank < worker.config.world_size,
    ensures
        peers@.len() == worker.config.world_size - 1,
        (exists|i: int| 0 <= i < peers@.len() && #[trigger] peers@[i] == rank) <==> rank
            != worker.config.rank,
        peers@.no_duplicates(),
        worker.config.world_size <= u32::MAX ==> worker.barrier_target() == peers@.len(),
{
    let world = worker.config.world_size as int;
    let own = worker.config.rank as int;
    let all = ring(own, world, world - 1);
    let listed = peers@.map_values(|p: usize| p as int);
    crate::worker::law_barrier_reaches_every_other_rank(own, world, rank);
    assert(listed.len() == peers@.len());
    assert forall|i: int| 0 <= i < peers@.len() implies all[i] == #[trigger] peers@[i] by {
        assert(listed[i] == peers@[i]);
    }
    if rank != own {
        let i = choose|i: int| 0 <= i < all.len() && all[i] == rank;
        assert(peers@[i] == rank);
    }
    assert forall|i: int, j: int|
        0 <= i < peers@.len() && 0 <= j < peers@.len() && i != j implies peers@[i]
        != peers@[j] by {
        assert(all[i] == peers@[i] && all[j] == peers@[j]);
    }
}

/// Whether a step goes on as it should that no counts came with.
pub open spec fn goes_on(
    worker: WorkerState,
    before: Round,
    event: Event,
    after: Round,
    after_worker: WorkerState,
    action: Action,
) -> bool {
    let rest = before.pending@.skip(before.pos as int);
    &&& after.awaiting == action
    &&& after.reads_left == before.reads_left
    &&& after.initial_ranges == before.initial_ranges
    &&& after.upload == before.upload
    &&& after.routing == before.routing
    &&& after_worker.counters.dispatch == worker.counters.dispatch
    &&& after_worker.counters.combine == worker.counters.combine
    &&& after_worker.stopped == worker.stopped
    &&& after_worker.slot_idx == worker.slot_idx
    &&& after_worker.config == worker.config
    // The round is counted when its slot is given back.
    &&& after_worker.epoch == if action is ReleaseSlot {
        (worker.epoch + 1) % 0x1_0000_0000
    } else {
        worker.epoch as int
    }
    &&& match event {
        // A wait that was cut short ends the round.
        Event::Waited { reached: false } => action == Action::Return && after_worker.counters
            == worker.counters,
        // Where transfers are outstanding they are waited for; else the round goes on.
        Event::TransfersBefore { count } => {
            let outstanding = match before.awaiting {
                Action::SubtractTransfers { count: started } => count < started,
                _ => false,
            };
            &&& after_worker.counters == worker.counters
            &&& outstanding ==> action == Action::WaitTransfers && after.pending@.skip(
                after.pos as int,
            ) == rest
            &&& !outstanding && rest.len() > 0 ==> upcoming(action, after) == rest
        },
        // A time is counted as what the timer was started for.
        Event::Elapsed { ns } => {
            &&& rest.len() > 0 ==> upcoming(action, after) == rest
            &&& before.awaiting matches Action::RecordTime { kind }
            &&& crate::traffic_laws::only_kind_went_up(
                worker.counters.times,
                after_worker.counters.times,
                kind,
                ns,
            )
        },
        _ => {
            &&& after_worker.counters == worker.counters
            &&& rest.len() > 0 ==> upcoming(action, after) == rest
            &&& rest.len() == 0 ==> action == Action::Return
        },
    }
}

/// A round goes on action by action. It ends early just where a wait was cut short, waits for
/// its transfers just where some are outstanding, and counts its times by what they were spent
/// on; the epoch moves on by one, around 32 bits, when the slot is given back.
pub proof fn law_rounds_go_on_action_by_action(event: Event)
    requires
        !(event is Counts),
    ensures
        forall|round: &mut Round, worker: &mut WorkerState, action: Action| #[trigger]
            call_ensures(Round::next, (round, worker, event), action) ==> goes_on(
                *worker,
                *round,
                event,
                *final(round),
                *final(worker),
                action,
            ),
{
    assert forall|round: &mut Round, worker: &mut WorkerState, action: Action| #[trigger]
        call_ensures(Round::next, (round, worker, event), action) implies goes_on(
        *worker,
        *round,
        event,
        *final(round),
        *final(worker),
        action,
    ) by {
        let before = *round;
        let after = *final(round);
        let rest = before.pending@.skip(before.pos as int);
        assert(before.rest() == rest);
        if rest.len() > 0 && handed_out(before.rest(), action, after.rest()) {
            lemma_upcoming(rest, action, after);
        }
        if let Event::Elapsed { ns } = event {
            crate::traffic_laws::lemma_kinds_cover(
                (*worker).counters.times,
                (*final(worker)).counters.times,
                before.awaiting->RecordTime_kind,
                ns,
            );
        }
    }
}

/// What a round needs of its sizes for what it writes to be told in terms of the table.
pub open spec fn is_told(worker: WorkerState, counts: Seq<u32>, groups: int, block: int) -> bool {
    let c = worker.config.cluster();
    &&& worker.wf()
    &&& c.regular()
    &&& has_shape(c, groups, block)
    &&& c.dp_group * block <= worker.config.num_experts
    &&& c.dp_group * worker.config.max_private_tokens <= u64::MAX
    &&& row_sum(
        flat_table(counts, groups, worker.config.num_experts as int),
        c.dp_group as int,
        0,
        worker.config.num_experts as int,
    ) <= usize::MAX
}

/// What a round writes follows from the counts that it reads: what it writes first from the first
/// reading, and its plan, the rest of its writes and its traffic from the second, by as many
/// interfaces as the round was started with.
pub proof fn law_round_follows_its_counts(counts: Vec<u32>, groups: int, block: int)
    ensures
        forall|round: &mut Round, worker: &mut WorkerState, action: Action|
            is_told(*worker, counts@, groups, block) && #[trigger] call_ensures(
                Round::next,
                (round, worker, Event::Counts { counts }),
                action,
            ) ==> {
                let config = (*worker).config;
                let t = flat_table(counts@, groups, config.num_experts as int);
                let after = *final(round);
                if (*round).reads_left == 2 {
                    first_writes(
                        after.initial_ranges@,
                        config.cluster(),
                        t,
                        block,
                        config.max_private_tokens as int,
                        config.dispatch_token_dim(),
                    )
                } else {
                    &&& processes_routing(
                        *worker,
                        *final(worker),
                        after.upload->0,
                        after.routing->0,
                        config.cluster(),
                        t,
                        groups,
                        block,
                        (*round).nets_per_gpu as int,
                    )
                    &&& rest_fits(config, t, groups, block) ==> lists_writes(
                        config,
                        after.upload->0.plan,
                        after.routing->0,
                        t,
                        groups,
                        block,
                    )
                }
            },
{
    assert forall|round: &mut Round, worker: &mut WorkerState, action: Action|
        is_told(*worker, counts@, groups, block) && #[trigger] call_ensures(
            Round::next,
            (round, worker, Event::Counts { counts }),
            action,
        ) implies {
        let config = (*worker).config;
        let t = flat_table(counts@, groups, config.num_experts as int);
        let after = *final(round);
        if (*round).reads_left == 2 {
            first_writes(
                after.initial_ranges@,
                config.cluster(),
                t,
                block,
                config.max_private_tokens as int,
                config.dispatch_token_dim(),
            )
        } else {
            &&& processes_routing(
                *worker,
                *final(worker),
                after.upload->0,
                after.routing->0,
                config.cluster(),
                t,
                groups,
                block,
                (*round).nets_per_gpu as int,
            )
            &&& rest_fits(config, t, groups, block) ==> lists_writes(
                config,
                after.upload->0.plan,
                after.routing->0,
                t,
                groups,
                block,
            )
        }
    } by {
        let after = *final(round);
        if (*round).reads_left == 2 {
            law_first_writes_follow_the_table(
                *worker,
                counts@,
                groups,
                block,
                after.initial_ranges@,
            );
        } else {
            law_routing_follows_the_table(
                *worker,
                *final(worker),
                counts@,
                (*round).nets_per_gpu as int,
                after.upload->0,
                after.routing->0,
                groups,
                block,
            );
        }
    }
}

/// Counts that are found to fit can be handed to the round that waits for them.
pub proof fn law_checked_counts_are_taken(
    round: Round,
    worker: WorkerState,
    counts: Vec<u32>,
    fit: bool,
)
    requires
        call_ensures(Round::check_counts, (&round, &worker, &counts), fit),
        round.awaiting == Action::ReadCounts,
    ensures
        fit <==> round.accepts(worker, Event::Counts { counts }),
{
}

} // verus!
