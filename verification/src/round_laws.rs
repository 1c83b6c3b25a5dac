//! What holds of a whole round, from its first action to its last.

use vstd::prelude::*;
use crate::step::{
    answers, combining, dispatch_transfers, dispatching, ending, exchanging, handed_out,
    next_epoch, opening, Action, Event, Round, Stage,
};
use crate::worker::WorkerState;

verus! {

/// The course of a round: after each action, the round, the worker and the action; and between
/// two actions, the worker as the next step finds it and what came of the action.
pub ghost struct RoundTrace {
    pub rounds: Seq<Round>,
    pub workers: Seq<WorkerState>,
    pub actions: Seq<Action>,
    pub found: Seq<WorkerState>,
    pub events: Seq<Event>,
}

/// Whether a worker was at most told to stop.
pub open spec fn at_most_stopped(before: WorkerState, after: WorkerState) -> bool {
    after == (WorkerState { stopped: after.stopped, ..before })
}

/// How often a slot is given back by the first `n` actions.
pub open spec fn releases(actions: Seq<Action>, n: int) -> int
    decreases n,
{
    if n <= 0 {
        0
    } else {
        releases(actions, n - 1) + if actions[n - 1] is ReleaseSlot {
            1int
        } else {
            0
        }
    }
}

/// Whether the send buffer may be filled after the first `n` actions: what the last of them to
/// set the flag set it to.
pub open spec fn ready_after(actions: Seq<Action>, n: int, before: bool) -> bool
    decreases n,
{
    if n <= 0 {
        before
    } else {
        match actions[n - 1] {
            Action::SetTxReady { ready } => ready,
            _ => ready_after(actions, n - 1, before),
        }
    }
}

impl RoundTrace {
    /// Whether the trace is one of a round: it starts as a round starts, and every step goes on
    /// with what came of the last action. Between steps the worker is at most told to stop.
    pub open spec fn is_round(self, nets_per_gpu: int) -> bool {
        let n = self.events.len() as int;
        &&& self.rounds.len() == n + 1
        &&& self.workers.len() == n + 1
        &&& self.actions.len() == n + 1
        &&& self.found.len() == n
        &&& self.workers[0].wf()
        &&& self.rounds[0].started(self.workers[0], nets_per_gpu, self.actions[0])
        &&& forall|i: int| 0 <= i < n ==> #[trigger] self.step_at(i)
    }

    /// Whether the step after action `i` is one of the round.
    pub open spec fn step_at(self, i: int) -> bool {
        &&& at_most_stopped(self.workers[i], self.found[i])
        &&& self.rounds[i].accepts(self.found[i], self.events[i])
        &&& self.rounds[i].went_on(
            self.found[i],
            self.events[i],
            self.rounds[i + 1],
            self.workers[i + 1],
            self.actions[i + 1],
        )
    }

    /// The part of the round that action `i` belongs to.
    spec fn part(self, i: int) -> Seq<Action> {
        let round = self.rounds[i];
        let worker = self.workers[0];
        let has_initial = round.initial_ranges@.len() > 0;
        if round.reads() == 2 {
            opening(worker.node_exchange())
        } else if round.reads() == 1 {
            exchanging(worker.node_exchange(), has_initial, worker.route_target() as u32)
        } else {
            worker.stages(self.rounds[0].nets(), has_initial, round.routing->0)
        }
    }

    /// How far into its part the round is after action `i`.
    spec fn place(self, i: int) -> int {
        self.part(i).len() - self.rounds[i].rest().len()
    }

    /// Whether the slot was given back by action `i`.
    spec fn done(self, i: int) -> bool {
        self.rounds[i].reads() == 0 && self.place(i) == self.part(i).len()
    }

    /// Where a round stands while it is under way.
    spec fn under_way(self, i: int, ready: bool) -> bool {
        let round = self.rounds[i];
        let part = self.part(i);
        let k = self.place(i);
        let first = self.workers[0];
        &&& 0 <= round.reads() <= 2
        &&& round.nets() == self.rounds[0].nets()
        &&& round.awaits() == self.actions[i]
        &&& round.wf()
        &&& self.workers[i].wf()
        &&& 1 <= k <= part.len()
        &&& round.rest() == part.skip(k)
        &&& self.actions[i] == part[k - 1] || (self.actions[i] == Action::WaitTransfers
            && part[k - 1] is SubtractTransfers)
        &&& self.workers[i] == (WorkerState {
            stopped: self.workers[i].stopped,
            counters: self.workers[i].counters,
            epoch: if self.done(i) {
                next_epoch(first.epoch)
            } else {
                first.epoch
            },
            ..first
        })
        &&& releases(self.actions, i + 1) == if self.done(i) {
            1int
        } else {
            0
        }
        &&& ready_after(self.actions, i + 1, ready) == ready_after(
            part,
            k,
            round.reads() == 2 && ready,
        )
    }
}

/// What sets the parts of a round apart: where counts are read and the slot is given back, and
/// what the ready flag is in the end.
spec fn well_shaped(part: Seq<Action>, reads: int, slot: usize) -> bool {
    &&& 1 <= part.len()
    &&& forall|k: int|
        0 <= k < part.len() ==> {
            let action = #[trigger] part[k];
            &&& action != Action::Return
            &&& action != Action::WaitTransfers
            &&& action == Action::ReadCounts <==> reads > 0 && k == part.len() - 1
            &&& action is ReleaseSlot <==> reads == 0 && k == part.len() - 1
        }
    &&& reads == 0 ==> part[part.len() - 1] == (Action::ReleaseSlot { slot })
    &&& forall|before: bool|
        reads == 2 || !before ==> #[trigger] ready_after(part, part.len() as int, before) == (reads
            == 0)
}

proof fn lemma_opening_shape(node_exchange: bool, slot: usize)
    ensures
        well_shaped(opening(node_exchange), 2, slot),
{
    let part = opening(node_exchange);
    assert(part.len() == 11);
    assert(part[8] == Action::SetTxReady { ready: false });
    assert forall|before: bool| !(#[trigger] ready_after(part, part.len() as int, before)) by {
        reveal_with_fuel(ready_after, 4);
    }
}

proof fn lemma_exchanging_shape(
    node_exchange: bool,
    has_initial: bool,
    route_target: u32,
    slot: usize,
)
    ensures
        well_shaped(exchanging(node_exchange, has_initial, route_target), 1, slot),
{
    let part = exchanging(node_exchange, has_initial, route_target);
    assert forall|k: int| 0 <= k < part.len() implies !(#[trigger] part[k] is SetTxReady) by {}
    lemma_untouched(part, part.len() as int, false);
}

/// The flag is what it was where no action sets it.
proof fn lemma_untouched(actions: Seq<Action>, n: int, before: bool)
    requires
        0 <= n <= actions.len(),
        forall|k: int| 0 <= k < n ==> !(#[trigger] actions[k] is SetTxReady),
    ensures
        ready_after(actions, n, before) == before,
    decreases n,
{
    if n > 0 {
        lemma_untouched(actions, n - 1, before);
    }
}

proof fn lemma_stages_shape(
    worker: WorkerState,
    nets_per_gpu: int,
    has_initial: bool,
    info: crate::exchange::RoutingInfo,
)
    ensures
        well_shaped(worker.stages(nets_per_gpu, has_initial, info), 0, worker.slot_idx),
{
    let first = dispatching(
        worker.single_node(),
        has_initial,
        info.dispatch_ranges@.len() > 0,
        info.num_recv_tx,
        worker.barrier_target() as u32,
    );
    let second = combining(
        worker.single_node(),
        info.combine_ranges@.len() > 0,
        worker.combine_target(nets_per_gpu) as u32,
        worker.barrier_target() as u32,
        worker.slot_idx,
    );
    let part = worker.stages(nets_per_gpu, has_initial, info);
    lemma_dispatching_shape(
        worker.single_node(),
        has_initial,
        info.dispatch_ranges@.len() > 0,
        info.num_recv_tx,
        worker.barrier_target() as u32,
    );
    lemma_combining_shape(
        worker.single_node(),
        info.combine_ranges@.len() > 0,
        worker.combine_target(nets_per_gpu) as u32,
        worker.barrier_target() as u32,
        worker.slot_idx,
    );
    assert(part == first + second);
    let n = part.len() as int;
    let m = second.len() as int;
    assert forall|k: int| 0 <= k < n implies ({
        let action = #[trigger] part[k];
        &&& action != Action::Return
        &&& action != Action::WaitTransfers
        &&& action != Action::ReadCounts
        &&& action is ReleaseSlot <==> k == n - 1
    }) by {
        if k < first.len() {
            assert(part[k] == first[k]);
        } else {
            assert(part[k] == second[k - first.len()]);
        }
    }
    assert(part[n - 1] == second[m - 1]);
    assert(part[n - 2] == second[m - 2]);
    assert(part[n - 3] == second[m - 3]);
    assert forall|before: bool| #[trigger] ready_after(part, n, before) by {
        reveal_with_fuel(ready_after, 4);
    }
}

proof fn lemma_dispatching_shape(
    single_node: bool,
    has_initial: bool,
    has_dispatch: bool,
    num_recv_tx: u32,
    barrier_target: u32,
)
    ensures
        forall|k: int|
            0 <= k < dispatching(
                single_node,
                has_initial,
                has_dispatch,
                num_recv_tx,
                barrier_target,
            ).len() ==> {
                let action = #[trigger] dispatching(
                    single_node,
                    has_initial,
                    has_dispatch,
                    num_recv_tx,
                    barrier_target,
                )[k];
                &&& action != Action::Return
                &&& action != Action::WaitTransfers
                &&& action != Action::ReadCounts
                &&& !(action is ReleaseSlot)
            },
{
    let end = ending(
        single_node,
        Stage::Dispatch,
        barrier_target,
        dispatch_transfers(has_initial, has_dispatch),
    );
    assert forall|k: int| 0 <= k < end.len() implies ({
        let action = #[trigger] end[k];
        &&& action != Action::Return
        &&& action != Action::WaitTransfers
        &&& action != Action::ReadCounts
        &&& !(action is ReleaseSlot)
    }) by {}
}

proof fn lemma_combining_shape(
    single_node: bool,
    has_combine: bool,
    combine_target: u32,
    barrier_target: u32,
    slot: usize,
)
    ensures
        ({
            let part = combining(single_node, has_combine, combine_target, barrier_target, slot);
            let n = part.len() as int;
            &&& 3 <= n
            &&& part[n - 1] == (Action::ReleaseSlot { slot })
            &&& part[n - 2] == (Action::SetTxReady { ready: true }) || (part[n - 2] is RecordTime
                && part[n - 3] == (Action::SetTxReady { ready: true }))
            &&& forall|k: int|
                0 <= k < n ==> {
                    let action = #[trigger] part[k];
                    &&& action != Action::Return
                    &&& action != Action::WaitTransfers
                    &&& action != Action::ReadCounts
                    &&& action is ReleaseSlot <==> k == n - 1
                }
        }),
{
    let transfers: int = if has_combine {
        1
    } else {
        0
    };
    let part = combining(single_node, has_combine, combine_target, barrier_target, slot);
    let end = ending(single_node, Stage::Combine, barrier_target, transfers);
    let n = part.len() as int;
    assert forall|k: int| 0 <= k < end.len() implies ({
        let action = #[trigger] end[k];
        &&& action != Action::Return
        &&& action != Action::WaitTransfers
        &&& action != Action::ReadCounts
        &&& !(action is ReleaseSlot)
    }) by {}
    assert(part[n - 2] == end[end.len() - 1]);
    if !single_node {
        assert(part[n - 3] == end[end.len() - 2]);
    }
}

impl RoundTrace {
    /// Every part of a round is well shaped.
    proof fn lemma_part_shape(self, i: int)
        requires
            0 <= self.rounds[i].reads() <= 2,
        ensures
            well_shaped(self.part(i), self.rounds[i].reads(), self.workers[0].slot_idx),
    {
        let round = self.rounds[i];
        let worker = self.workers[0];
        let has_initial = round.initial_ranges@.len() > 0;
        lemma_opening_shape(worker.node_exchange(), worker.slot_idx);
        lemma_exchanging_shape(
            worker.node_exchange(),
            has_initial,
            worker.route_target() as u32,
            worker.slot_idx,
        );
        lemma_stages_shape(worker, self.rounds[0].nets(), has_initial, round.routing->0);
    }

    /// A round under way that is not over after its next action is still under way.
    proof fn lemma_step(self, nets_per_gpu: int, i: int, ready: bool)
        requires
            self.is_round(nets_per_gpu),
            0 <= i < self.events.len(),
            self.under_way(i, ready),
            self.actions[i + 1] != Action::Return,
        ensures
            self.under_way(i + 1, ready),
    {
        assert(self.step_at(i));
        self.lemma_part_shape(i);
        let part = self.part(i);
        let k = self.place(i);
        let round = self.rounds[i];
        let after = self.rounds[i + 1];
        let event = self.events[i];
        let action = self.actions[i + 1];
        assert(round.rest().len() == part.len() - k);
        if event is Counts {
            assert(round.awaits() == Action::ReadCounts);
            assert(part[k - 1] == Action::ReadCounts);
            assert(k == part.len());
            self.lemma_part_shape(i + 1);
            let next = self.part(i + 1);
            assert(handed_out(next, action, after.rest()));
            assert(next.drop_first() =~= next.skip(1));
            assert(self.place(i + 1) == 1);
            assert(action == next[0]);
            if next.len() == 1 {
                assert(action == next[next.len() - 1]);
            }
            assert(ready_after(next, 0, after.reads() == 2 && ready) == false);
        } else {
            assert(self.part(i + 1) == part);
            if event is TransfersBefore && event->TransfersBefore_count < round.subtracting() {
                assert(self.place(i + 1) == k);
                assert(part[k - 1] is SubtractTransfers);
            } else {
                assert(handed_out(round.rest(), action, after.rest()));
                assert(k < part.len());
                assert(round.rest()[0] == part[k]);
                assert(round.rest().drop_first() =~= part.skip(k + 1));
                assert(self.place(i + 1) == k + 1);
            }
        }
    }

    /// A round is under way until its last action.
    proof fn lemma_under_way(self, nets_per_gpu: int, i: int, ready: bool)
        requires
            self.is_round(nets_per_gpu),
            0 <= i < self.events.len(),
        ensures
            self.under_way(i, ready),
        decreases i,
    {
        if i == 0 {
            self.lemma_part_shape(0);
            let part = self.part(0);
            assert(part == opening(self.workers[0].node_exchange()));
            assert(part[0] == Action::StartTimer);
            assert(part.len() == 11);
            assert(part.drop_first() =~= part.skip(1));
            reveal_with_fuel(releases, 2);
            reveal_with_fuel(ready_after, 2);
            assert(self.workers[0] == WorkerState {
                stopped: self.workers[0].stopped,
                counters: self.workers[0].counters,
                epoch: self.workers[0].epoch,
                ..self.workers[0]
            });
        } else {
            self.lemma_under_way(nets_per_gpu, i - 1, ready);
            assert(self.step_at(i - 1));
            assert(self.step_at(i));
            assert(answers(self.events[i], self.rounds[i].awaits()));
            self.lemma_step(nets_per_gpu, i - 1, ready);
        }
    }
}

/// A round that is over either ran its course or was cut short.
///
/// If it ran its course, its epoch moved on by one; it gave back its own slot, once, as its very
/// last action, when the send buffer could be filled again. If not, it ended at a wait that was
/// cut short, with its epoch as it was and its slot still in use.
pub proof fn law_round_is_complete_or_cut_short(trace: RoundTrace, nets_per_gpu: int, ready: bool)
    requires
        trace.is_round(nets_per_gpu),
        trace.actions.last() == Action::Return,
    ensures
        ({
            let n = trace.events.len() as int;
            let first = trace.workers[0];
            let last = trace.workers[n];
            ||| {
                &&& n >= 1
                &&& last.epoch == next_epoch(first.epoch)
                &&& releases(trace.actions, n + 1) == 1
                &&& trace.actions[n - 1] == (Action::ReleaseSlot { slot: first.slot_idx })
                &&& ready_after(trace.actions, n - 1, ready)
            }
            ||| {
                &&& n >= 1
                &&& trace.events[n - 1] == (Event::Waited { reached: false })
                &&& last.epoch == first.epoch
                &&& releases(trace.actions, n + 1) == 0
            }
        }),
{
    let n = trace.events.len() as int;
    assert(trace.actions[0] == Action::StartTimer);
    assert(n >= 1);
    let i = n - 1;
    trace.lemma_under_way(nets_per_gpu, i, ready);
    trace.lemma_part_shape(i);
    assert(trace.step_at(i));
    let part = trace.part(i);
    let k = trace.place(i);
    let round = trace.rounds[i];
    let event = trace.events[i];
    assert(releases(trace.actions, n + 1) == releases(trace.actions, n));
    match event {
        Event::Waited { reached } if !reached => {
            assert(!trace.done(i));
        },
        Event::Counts { counts: _ } => {
            trace.lemma_part_shape(i + 1);
            let next = trace.part(i + 1);
            assert(handed_out(next, Action::Return, trace.rounds[n].rest()));
            assert(next[0] != Action::Return);
        },
        _ => {
            assert(handed_out(round.rest(), Action::Return, trace.rounds[n].rest()));
            if round.rest().len() > 0 {
                assert(round.rest()[0] == part[k]);
            }
            assert(k == part.len());
            assert(trace.done(i));
            assert(ready_after(part, part.len() as int, round.reads() == 2 && ready));
            assert(ready_after(trace.actions, n, ready));
        },
    }
}

impl RoundTrace {
    /// Whether waits are cut short by a stop alone.
    pub open spec fn cut_short_by_stop(self) -> bool {
        forall|i: int|
            #![trigger self.step_at(i)]
            0 <= i < self.events.len() && self.events[i] == (Event::Waited { reached: false })
                ==> self.found[i].stopped
    }
}

/// Where waits are cut short by a stop alone, a round that is over without having run its course
/// was stopped. A round that was not stopped moves the epoch on by one and gives back its slot.
pub proof fn law_round_ends_early_only_when_stopped(trace: RoundTrace, nets_per_gpu: int)
    requires
        trace.is_round(nets_per_gpu),
        trace.actions.last() == Action::Return,
        trace.cut_short_by_stop(),
    ensures
        ({
            let n = trace.events.len() as int;
            let first = trace.workers[0];
            let last = trace.workers[n];
            ||| {
                &&& last.epoch == next_epoch(first.epoch)
                &&& releases(trace.actions, n + 1) == 1
            }
            ||| {
                &&& trace.events[n - 1] == (Event::Waited { reached: false })
                &&& trace.found[n - 1].stopped
                &&& last.stopped
                &&& last.epoch == first.epoch
                &&& releases(trace.actions, n + 1) == 0
            }
        }),
{
    let n = trace.events.len() as int;
    law_round_is_complete_or_cut_short(trace, nets_per_gpu, true);
    assert(trace.step_at(n - 1));
}

} // verus!
