//! The course of one round: what a worker does next, given what came of its last action.

use vstd::prelude::*;
use crate::counters::{counted_ns, wrap64, WaitKind};
use crate::exchange::{initial_ranges, RoutingInfo, SlotUpload};
use crate::padding::low32;
use crate::ranges::ScatterRange;
use crate::worker::WorkerState;

verus! {

/// An epoch that the kernels of a slot report to its worker.
#[derive(Clone, Copy, Debug, PartialEq, Eq, Structural)]
pub enum Signal {
    DispatchRouteDone,
    DispatchSendDone,
    DispatchRecvDone,
    CombineSendDone,
    CombineRecvDone,
}

/// A counter of messages that arrived.
#[derive(Clone, Copy, Debug, PartialEq, Eq, Structural)]
pub enum MessageCounter {
    Route,
    Combine,
    DispatchBarrier,
    CombineBarrier,
}

/// One of the two stages of a round.
#[derive(Clone, Copy, Debug, PartialEq, Eq, Structural)]
pub enum Stage {
    Dispatch,
    Combine,
}

/// What a worker does.
#[derive(Clone, Copy, Debug, PartialEq, Eq, Structural)]
pub enum Action {
    /// Start to measure time.
    StartTimer,
    /// Report the time since the last start.
    RecordTime { kind: WaitKind },
    /// Wait until a signal shows the epoch of the round.
    WaitEpoch { signal: Signal },
    /// See whether the worker was told to stop.
    CheckRunning,
    /// Share the route counts of this rank within the node.
    PublishNodeRoutes,
    /// Write the route counts of this rank to its peers.
    SubmitRoutes,
    /// Set the flag that lets a kernel fill the send buffer.
    SetTxReady { ready: bool },
    /// Read the table of route counts.
    ReadCounts,
    /// Write tokens into the private buffers of peers.
    SubmitInitial,
    /// Collect the route counts of the node.
    WaitNodeRoutes,
    /// Wait for a number of messages.
    WaitMessages { counter: MessageCounter, target: u32 },
    /// Copy the receive plan to the device.
    Upload,
    /// Write the tokens that overflow the private buffers.
    SubmitDispatch,
    /// Wait for a number of dispatch messages. This wait is not cut short.
    WaitDispatched { target: u32 },
    /// Tell all other ranks that the stage is over.
    SubmitBarrier { stage: Stage },
    /// Take the transfers of a stage off the counter of completed transfers.
    SubtractTransfers { count: i64 },
    /// Wait until the counter of completed transfers is not negative.
    WaitTransfers,
    /// Write tokens back to other nodes.
    SubmitCombine,
    /// Tell the kernel that all returned tokens arrived.
    SetCombineRecvFlag,
    /// Give the slot back.
    ReleaseSlot { slot: usize },
    /// The round is over.
    Return,
}

/// What came of an action.
#[derive(Debug)]
pub enum Event {
    /// The action was performed.
    Done,
    /// Whether a wait reached its end; if not, the worker was told to stop.
    Waited { reached: bool },
    /// The time that was measured.
    Elapsed { ns: u128 },
    /// The table of route counts.
    Counts { counts: Vec<u32> },
    /// What the counter of completed transfers was.
    TransfersBefore { count: i64 },
}

/// Whether an event can come of an action.
pub open spec fn answers(event: Event, action: Action) -> bool {
    match action {
        Action::RecordTime { .. } => event is Elapsed,
        Action::WaitEpoch { .. } => event is Waited,
        Action::CheckRunning => event is Waited,
        Action::WaitNodeRoutes => event is Waited,
        Action::WaitMessages { .. } => event is Waited,
        Action::WaitTransfers => event is Waited,
        Action::ReadCounts => event is Counts,
        Action::SubtractTransfers { .. } => event is TransfersBefore,
        Action::Return => false,
        _ => event is Done,
    }
}

/// A round under way.
#[derive(Debug)]
pub struct Round {
    /// The current part of the round.
    pub pending: Vec<Action>,
    /// How much of it was handed out.
    pub pos: usize,
    /// The action whose outcome is awaited.
    pub awaiting: Action,
    /// How many more times route counts are read.
    pub reads_left: u8,
    /// The network interfaces per device.
    pub nets_per_gpu: u32,
    /// The writes into private buffers.
    pub initial_ranges: Vec<ScatterRange>,
    /// What goes to the device, once the routing is known.
    pub upload: Option<SlotUpload>,
    /// The writes that follow from the routing, once it is known.
    pub routing: Option<RoutingInfo>,
}

/// Wait for a signal, and note how long it took.
pub open spec fn timed_signal(signal: Signal, kind: WaitKind) -> Seq<Action> {
    seq![Action::StartTimer, Action::WaitEpoch { signal }, Action::RecordTime { kind }]
}

/// An action that may be left out.
pub open spec fn optional(wanted: bool, action: Action) -> Seq<Action> {
    if wanted {
        seq![action]
    } else {
        Seq::empty()
    }
}

/// How a round starts: wait for the routes of this rank, pass them on, and wait for its tokens.
pub open spec fn opening(node_exchange: bool) -> Seq<Action> {
    timed_signal(Signal::DispatchRouteDone, WaitKind::WaitDispatchRoute) + seq![
        Action::CheckRunning,
        if node_exchange {
            Action::PublishNodeRoutes
        } else {
            Action::SubmitRoutes
        },
    ] + timed_signal(Signal::DispatchSendDone, WaitKind::WaitDispatchSend) + seq![
        Action::SetTxReady { ready: false },
        Action::CheckRunning,
        Action::ReadCounts,
    ]
}

/// How a round goes on: write into private buffers and wait for the routes of all groups.
pub open spec fn exchanging(node_exchange: bool, has_initial: bool, route_target: u32) -> Seq<
    Action,
> {
    optional(has_initial, Action::SubmitInitial) + seq![
        Action::StartTimer,
        if node_exchange {
            Action::WaitNodeRoutes
        } else {
            Action::WaitMessages { counter: MessageCounter::Route, target: route_target }
        },
        Action::RecordTime { kind: WaitKind::RouteExchange },
        Action::StartTimer,
        Action::ReadCounts,
    ]
}

/// How a stage ends. Within one node the kernels guard the buffers themselves; otherwise all
/// ranks meet at a barrier, and the stage's own transfers are waited for.
pub open spec fn ending(
    single_node: bool,
    stage: Stage,
    barrier_target: u32,
    transfers: int,
) -> Seq<Action> {
    if single_node {
        seq![Action::SetTxReady { ready: true }]
    } else {
        seq![
            Action::StartTimer,
            Action::SubmitBarrier { stage },
            Action::WaitMessages {
                counter: if stage == Stage::Dispatch {
                    MessageCounter::DispatchBarrier
                } else {
                    MessageCounter::CombineBarrier
                },
                target: barrier_target,
            },
            Action::SubtractTransfers { count: (transfers + 1) as i64 },
            Action::SetTxReady { ready: true },
            Action::RecordTime {
                kind: if stage == Stage::Dispatch {
                    WaitKind::DispatchBarrier
                } else {
                    WaitKind::CombineBarrier
                },
            },
        ]
    }
}

/// The transfers of the dispatch stage, apart from the barrier: the route counts, and the writes
/// that there are.
pub open spec fn dispatch_transfers(has_initial: bool, has_dispatch: bool) -> int {
    1 + if has_initial {
        1int
    } else {
        0
    } + if has_dispatch {
        1int
    } else {
        0
    }
}

/// The dispatch stage, from the plan on.
pub open spec fn dispatching(
    single_node: bool,
    has_initial: bool,
    has_dispatch: bool,
    num_recv_tx: u32,
    barrier_target: u32,
) -> Seq<Action> {
    seq![Action::Upload, Action::RecordTime { kind: WaitKind::ProcessRouting }] + optional(
        has_dispatch,
        Action::SubmitDispatch,
    ) + seq![
        Action::StartTimer,
        Action::WaitDispatched { target: num_recv_tx },
        Action::RecordTime { kind: WaitKind::DispatchTransferWait },
    ] + timed_signal(Signal::DispatchRecvDone, WaitKind::WaitDispatchRecv) + ending(
        single_node,
        Stage::Dispatch,
        barrier_target,
        dispatch_transfers(has_initial, has_dispatch),
    )
}

/// The combine stage.
pub open spec fn combining(
    single_node: bool,
    has_combine: bool,
    combine_target: u32,
    barrier_target: u32,
    slot: usize,
) -> Seq<Action> {
    timed_signal(Signal::CombineSendDone, WaitKind::WaitCombineSend) + seq![Action::CheckRunning]
        + optional(has_combine, Action::SubmitCombine) + seq![
        Action::StartTimer,
        Action::WaitMessages { counter: MessageCounter::Combine, target: combine_target },
        Action::RecordTime { kind: WaitKind::CombineTransferWait },
        Action::SetCombineRecvFlag,
    ] + timed_signal(Signal::CombineRecvDone, WaitKind::WaitCombineRecv) + ending(
        single_node,
        Stage::Combine,
        barrier_target,
        if has_combine {
            1
        } else {
            0
        },
    ) + seq![Action::ReleaseSlot { slot }]
}

/// How many transfers a list of actions hands to the fabric.
pub open spec fn submissions(actions: Seq<Action>) -> int
    decreases actions.len(),
{
    if actions.len() == 0 {
        0
    } else {
        submissions(actions.drop_last()) + match actions.last() {
            Action::SubmitRoutes => 1,
            Action::SubmitInitial => 1,
            Action::SubmitDispatch => 1,
            Action::SubmitCombine => 1,
            Action::SubmitBarrier { .. } => 1,
            _ => 0int,
        }
    }
}

proof fn lemma_submissions_concat(a: Seq<Action>, b: Seq<Action>)
    ensures
        submissions(a + b) == submissions(a) + submissions(b),
    decreases b.len(),
{
    if b.len() == 0 {
        assert(a + b =~= a);
    } else {
        lemma_submissions_concat(a, b.drop_last());
        assert((a + b).drop_last() =~= a + b.drop_last());
    }
}

/// Between nodes, the transfers handed to the fabric up to the end of the dispatch stage are
/// as many as are taken off the counter of completed transfers at its end.
pub proof fn law_dispatch_transfers_balance(
    has_initial: bool,
    has_dispatch: bool,
    route_target: u32,
    num_recv_tx: u32,
    barrier_target: u32,
)
    ensures
        submissions(
            opening(false) + exchanging(false, has_initial, route_target) + dispatching(
                false,
                has_initial,
                has_dispatch,
                num_recv_tx,
                barrier_target,
            ),
        ) == dispatch_transfers(has_initial, has_dispatch) + 1,
        ending(
            false,
            Stage::Dispatch,
            barrier_target,
            dispatch_transfers(has_initial, has_dispatch),
        ).contains(
            Action::SubtractTransfers {
                count: (dispatch_transfers(has_initial, has_dispatch) + 1) as i64,
            },
        ),
{
    let first = opening(false);
    let second = exchanging(false, has_initial, route_target);
    let third = dispatching(false, has_initial, has_dispatch, num_recv_tx, barrier_target);
    let end = ending(
        false,
        Stage::Dispatch,
        barrier_target,
        dispatch_transfers(has_initial, has_dispatch),
    );
    lemma_submissions_concat(first + second, third);
    lemma_submissions_concat(first, second);
    lemma_opening_submissions();
    lemma_exchanging_submissions(has_initial, route_target);
    lemma_dispatching_submissions(has_initial, has_dispatch, num_recv_tx, barrier_target);
    assert(end[3] == Action::SubtractTransfers {
        count: (dispatch_transfers(has_initial, has_dispatch) + 1) as i64,
    });
}

/// Between nodes, the transfers handed to the fabric in the combine stage are as many as are
/// taken off the counter of completed transfers at its end.
pub proof fn law_combine_transfers_balance(
    has_combine: bool,
    combine_target: u32,
    barrier_target: u32,
    slot: usize,
)
    ensures
        submissions(combining(false, has_combine, combine_target, barrier_target, slot)) == 1
            + if has_combine {
            1int
        } else {
            0
        },
        combining(false, has_combine, combine_target, barrier_target, slot).contains(
            Action::SubtractTransfers {
                count: (1 + if has_combine {
                    1int
                } else {
                    0
                }) as i64,
            },
        ),
{
    let transfers: int = if has_combine {
        1
    } else {
        0
    };
    let all = combining(false, has_combine, combine_target, barrier_target, slot);
    let a = timed_signal(Signal::CombineSendDone, WaitKind::WaitCombineSend);
    let b = seq![Action::CheckRunning];
    let c = optional(has_combine, Action::SubmitCombine);
    let d = seq![
        Action::StartTimer,
        Action::WaitMessages { counter: MessageCounter::Combine, target: combine_target },
        Action::RecordTime { kind: WaitKind::CombineTransferWait },
        Action::SetCombineRecvFlag,
    ];
    let e = timed_signal(Signal::CombineRecvDone, WaitKind::WaitCombineRecv);
    let end = ending(false, Stage::Combine, barrier_target, transfers);
    let f = seq![Action::ReleaseSlot { slot }];
    lemma_submissions_concat(a + b + c + d + e + end, f);
    lemma_submissions_concat(a + b + c + d + e, end);
    lemma_submissions_concat(a + b + c + d, e);
    lemma_submissions_concat(a + b + c, d);
    lemma_submissions_concat(a + b, c);
    lemma_submissions_concat(a, b);
    lemma_short_submissions(a);
    lemma_short_submissions(b);
    lemma_short_submissions(c);
    lemma_short_submissions(d);
    lemma_short_submissions(e);
    lemma_short_submissions(f);
    lemma_ending_submissions(Stage::Combine, barrier_target, transfers);
    let at = (a + b + c + d + e).len() + 3;
    assert(all == a + b + c + d + e + end + f);
    assert(all[at as int] == end[3]);
}

/// The number of transfers in a list of at most four actions.
proof fn lemma_short_submissions(actions: Seq<Action>)
    requires
        actions.len() <= 4,
    ensures
        actions.len() == 0 ==> submissions(actions) == 0,
        actions.len() == 1 ==> submissions(actions) == submissions(seq![actions[0]]),
        (forall|i: int|
            0 <= i < actions.len() ==> !((#[trigger] actions[i]) is SubmitRoutes
                || actions[i] is SubmitInitial || actions[i] is SubmitDispatch
                || actions[i] is SubmitCombine || actions[i] is SubmitBarrier)) ==> submissions(
            actions,
        ) == 0,
        submissions(seq![Action::SubmitDispatch]) == 1,
        submissions(seq![Action::SubmitCombine]) == 1,
        submissions(seq![Action::SubmitInitial]) == 1,
        submissions(seq![Action::SubmitRoutes]) == 1,
    decreases actions.len(),
{
    reveal_with_fuel(submissions, 2);
    if actions.len() == 1 {
        assert(actions =~= seq![actions[0]]);
    }
    if actions.len() > 0 {
        lemma_short_submissions(actions.drop_last());
        assert forall|i: int| 0 <= i < actions.drop_last().len() implies #[trigger]
            actions.drop_last()[i] == actions[i] by {}
        assert(actions.last() == actions[actions.len() - 1]);
    }
}

proof fn lemma_opening_submissions()
    ensures
        submissions(opening(false)) == 1,
{
    let a = timed_signal(Signal::DispatchRouteDone, WaitKind::WaitDispatchRoute);
    let b = seq![Action::CheckRunning];
    let c = seq![Action::SubmitRoutes];
    let d = timed_signal(Signal::DispatchSendDone, WaitKind::WaitDispatchSend);
    let e = seq![Action::SetTxReady { ready: false }, Action::CheckRunning, Action::ReadCounts];
    assert(seq![Action::CheckRunning, Action::SubmitRoutes] =~= b + c);
    assert(opening(false) =~= a + b + c + d + e);
    lemma_submissions_concat(a + b + c + d, e);
    lemma_submissions_concat(a + b + c, d);
    lemma_submissions_concat(a + b, c);
    lemma_submissions_concat(a, b);
    lemma_short_submissions(a);
    lemma_short_submissions(b);
    lemma_short_submissions(c);
    lemma_short_submissions(d);
    lemma_short_submissions(e);
}

proof fn lemma_exchanging_submissions(has_initial: bool, route_target: u32)
    ensures
        submissions(exchanging(false, has_initial, route_target)) == if has_initial {
            1int
        } else {
            0
        },
{
    let a = optional(has_initial, Action::SubmitInitial);
    let b = seq![
        Action::StartTimer,
        Action::WaitMessages { counter: MessageCounter::Route, target: route_target },
    ];
    let c = seq![
        Action::RecordTime { kind: WaitKind::RouteExchange },
        Action::StartTimer,
        Action::ReadCounts,
    ];
    assert(exchanging(false, has_initial, route_target) =~= a + b + c);
    lemma_submissions_concat(a + b, c);
    lemma_submissions_concat(a, b);
    lemma_short_submissions(a);
    lemma_short_submissions(b);
    lemma_short_submissions(c);
}

proof fn lemma_dispatching_submissions(
    has_initial: bool,
    has_dispatch: bool,
    num_recv_tx: u32,
    barrier_target: u32,
)
    ensures
        submissions(
            dispatching(false, has_initial, has_dispatch, num_recv_tx, barrier_target),
        ) == 1 + if has_dispatch {
            1int
        } else {
            0
        },
{
    let end = ending(
        false,
        Stage::Dispatch,
        barrier_target,
        dispatch_transfers(has_initial, has_dispatch),
    );
    lemma_ending_submissions(
        Stage::Dispatch,
        barrier_target,
        dispatch_transfers(has_initial, has_dispatch),
    );
    let wait = timed_signal(Signal::DispatchRecvDone, WaitKind::WaitDispatchRecv);
    let a = seq![Action::Upload, Action::RecordTime { kind: WaitKind::ProcessRouting }];
    let b = optional(has_dispatch, Action::SubmitDispatch);
    let c = seq![
        Action::StartTimer,
        Action::WaitDispatched { target: num_recv_tx },
        Action::RecordTime { kind: WaitKind::DispatchTransferWait },
    ];
    lemma_submissions_concat(a + b + c + wait, end);
    lemma_submissions_concat(a + b + c, wait);
    lemma_submissions_concat(a + b, c);
    lemma_submissions_concat(a, b);
    lemma_short_submissions(a);
    lemma_short_submissions(b);
    lemma_short_submissions(c);
    lemma_short_submissions(wait);
}

proof fn lemma_ending_submissions(stage: Stage, barrier_target: u32, transfers: int)
    ensures
        submissions(ending(false, stage, barrier_target, transfers)) == 1,
{
    let end = ending(false, stage, barrier_target, transfers);
    let a = end.take(1);
    let b = end.subrange(1, 2);
    let c = end.subrange(2, 6);
    assert(end =~= a + b + c);
    assert(b =~= seq![Action::SubmitBarrier { stage }]);
    reveal_with_fuel(submissions, 2);
    assert(b.drop_last() =~= Seq::empty());
    lemma_submissions_concat(a + b, c);
    lemma_submissions_concat(a, b);
    lemma_short_submissions(a);
    lemma_short_submissions(c);
}

impl WorkerState {
    /// Whether all ranks sit on one node.
    pub open spec fn single_node(self) -> bool {
        self.config.world_size == self.config.node_size
    }

    /// The route messages to wait for: one from each other group.
    pub open spec fn route_target(self) -> int {
        low32(self.config.world_size as int / self.config.dp_size as int) - 1
    }

    /// The barrier messages to wait for: one from each other rank.
    pub open spec fn barrier_target(self) -> int {
        low32(self.config.world_size - 1)
    }

    /// The groups on other nodes.
    pub open spec fn remote_group_count(self) -> int {
        (self.config.world_size as int / self.config.node_size as int - 1) * (
        self.config.node_size as int / self.config.dp_size as int)
    }

    /// The combine messages to wait for: one per network interface from each group on another
    /// node.
    pub open spec fn combine_target(self, nets_per_gpu: int) -> int {
        low32(self.remote_group_count()) * nets_per_gpu
    }

    /// Whether the sizes allow for a round: there is a whole node, and the message counts fit
    /// their integer types.
    pub open spec fn round_ready(self, nets_per_gpu: int) -> bool {
        &&& self.wf()
        &&& 0 < self.config.node_size <= self.config.world_size
        &&& self.route_target() >= 0
        &&& self.remote_group_count() <= usize::MAX
        &&& self.combine_target(nets_per_gpu) <= u32::MAX
    }

    /// The dispatch and combine stages of a round whose routing is known.
    pub open spec fn stages(self, nets_per_gpu: int, has_initial: bool, info: RoutingInfo) -> Seq<
        Action,
    > {
        dispatching(
            self.single_node(),
            has_initial,
            info.dispatch_ranges@.len() > 0,
            info.num_recv_tx,
            self.barrier_target() as u32,
        ) + combining(
            self.single_node(),
            info.combine_ranges@.len() > 0,
            self.combine_target(nets_per_gpu) as u32,
            self.barrier_target() as u32,
            self.slot_idx,
        )
    }

    /// Starts a round.
    pub fn step(&self, nets_per_gpu: u32) -> (started: (Round, Action))
        ensures
            started.0.started(*self, nets_per_gpu as int, started.1),
    {
        let mut pending: Vec<Action> = Vec::new();
        push_timed_signal(&mut pending, Signal::DispatchRouteDone, WaitKind::WaitDispatchRoute);
        pending.push(Action::CheckRunning);
        if self.has_node_route_exchange() {
            pending.push(Action::PublishNodeRoutes);
        } else {
            pending.push(Action::SubmitRoutes);
        }
        push_timed_signal(&mut pending, Signal::DispatchSendDone, WaitKind::WaitDispatchSend);
        pending.push(Action::SetTxReady { ready: false });
        pending.push(Action::CheckRunning);
        pending.push(Action::ReadCounts);
        proof {
            assert(pending@ =~= opening(self.node_exchange()));
        }
        let round = Round {
            pending,
            pos: 1,
            awaiting: Action::StartTimer,
            reads_left: 2,
            nets_per_gpu,
            initial_ranges: Vec::new(),
            upload: None,
            routing: None,
        };
        proof {
            assert(round.rest() =~= opening(self.node_exchange()).drop_first());
        }
        (round, Action::StartTimer)
    }
}

/// Appends a timed wait for a signal.
fn push_timed_signal(actions: &mut Vec<Action>, signal: Signal, kind: WaitKind)
    ensures
        final(actions)@ == old(actions)@ + timed_signal(signal, kind),
{
    actions.push(Action::StartTimer);
    actions.push(Action::WaitEpoch { signal });
    actions.push(Action::RecordTime { kind });
    proof {
        assert(actions@ =~= old(actions)@ + timed_signal(signal, kind));
    }
}

/// Appends the end of a stage: the barrier and what goes with it, unless all ranks sit on one
/// node.
fn barrier(
    actions: &mut Vec<Action>,
    single_node: bool,
    stage: Stage,
    barrier_target: u32,
    num_tx: u32,
)
    ensures
        final(actions)@ == old(actions)@ + ending(
            single_node,
            stage,
            barrier_target,
            num_tx as int,
        ),
{
    if single_node {
        actions.push(Action::SetTxReady { ready: true });
    } else {
        let counter: MessageCounter = if stage == Stage::Dispatch {
            MessageCounter::DispatchBarrier
        } else {
            MessageCounter::CombineBarrier
        };
        let kind: WaitKind = if stage == Stage::Dispatch {
            WaitKind::DispatchBarrier
        } else {
            WaitKind::CombineBarrier
        };
        actions.push(Action::StartTimer);
        actions.push(Action::SubmitBarrier { stage });
        actions.push(Action::WaitMessages { counter, target: barrier_target });
        actions.push(Action::SubtractTransfers { count: num_tx as i64 + 1 });
        actions.push(Action::SetTxReady { ready: true });
        actions.push(Action::RecordTime { kind });
    }
    proof {
        assert(actions@ =~= old(actions)@ + ending(
            single_node,
            stage,
            barrier_target,
            num_tx as int,
        ));
    }
}

/// Whether handing out from `script` gives `action` and leaves `rest`.
pub open spec fn handed_out(script: Seq<Action>, action: Action, rest: Seq<Action>) -> bool {
    if script.len() == 0 {
        action == Action::Return && rest == script
    } else {
        action == script[0] && rest == script.drop_first()
    }
}

/// Actions that are handed out one after another follow the script that they are handed out
/// from, until it ends.
pub proof fn law_actions_follow_the_script(actions: Seq<Action>, rests: Seq<Seq<Action>>, k: int)
    requires
        rests.len() == actions.len() + 1,
        forall|i: int|
            0 <= i < actions.len() ==> handed_out(rests[i], #[trigger] actions[i], rests[i + 1]),
        0 <= k < actions.len(),
    ensures
        actions[k] == if k < rests[0].len() {
            rests[0][k]
        } else {
            Action::Return
        },
        rests[k + 1] == rests[0].skip(if k < rests[0].len() {
            k + 1
        } else {
            rests[0].len() as int
        }),
    decreases k,
{
    assert(handed_out(rests[k], actions[k], rests[k + 1]));
    if k == 0 {
        assert(rests[0].drop_first() =~= rests[0].skip(1));
        assert(rests[0].len() == 0 ==> rests[0] =~= rests[0].skip(0));
    } else {
        law_actions_follow_the_script(actions, rests, k - 1);
        if k < rests[0].len() {
            assert(rests[0].skip(k)[0] == rests[0][k]);
            assert(rests[0].skip(k).drop_first() =~= rests[0].skip(k + 1));
        } else {
            assert(rests[k].len() == 0);
        }
    }
}

/// A round gives its slot back as its very last action, and only then.
pub proof fn law_slot_is_released_last(
    worker: WorkerState,
    nets_per_gpu: int,
    has_initial: bool,
    info: RoutingInfo,
    node_exchange: bool,
    route_target: u32,
    i: int,
)
    ensures
        0 <= i < opening(node_exchange).len() ==> !(opening(node_exchange)[i] is ReleaseSlot),
        0 <= i < exchanging(node_exchange, has_initial, route_target).len() ==> !(exchanging(
            node_exchange,
            has_initial,
            route_target,
        )[i] is ReleaseSlot),
        worker.stages(nets_per_gpu, has_initial, info).last() == (Action::ReleaseSlot {
            slot: worker.slot_idx,
        }),
        0 <= i < worker.stages(nets_per_gpu, has_initial, info).len() - 1 ==> !(worker.stages(
            nets_per_gpu,
            has_initial,
            info,
        )[i] is ReleaseSlot),
{
    lemma_released_last(
        worker.single_node(),
        has_initial,
        info.dispatch_ranges@.len() > 0,
        info.combine_ranges@.len() > 0,
        info.num_recv_tx,
        worker.combine_target(nets_per_gpu) as u32,
        worker.barrier_target() as u32,
        worker.slot_idx,
        i,
    );
}

/// The two stages hold no release but the last action.
proof fn lemma_released_last(
    single_node: bool,
    has_initial: bool,
    has_dispatch: bool,
    has_combine: bool,
    num_recv_tx: u32,
    combine_target: u32,
    barrier_target: u32,
    slot: usize,
    i: int,
)
    ensures
        ({
            let all = dispatching(
                single_node,
                has_initial,
                has_dispatch,
                num_recv_tx,
                barrier_target,
            ) + combining(single_node, has_combine, combine_target, barrier_target, slot);
            &&& all.last() == (Action::ReleaseSlot { slot })
            &&& 0 <= i < all.len() - 1 ==> !(all[i] is ReleaseSlot)
        }),
{
    let first = dispatching(single_node, has_initial, has_dispatch, num_recv_tx, barrier_target);
    let second = combining(single_node, has_combine, combine_target, barrier_target, slot);
    let end = ending(
        single_node,
        Stage::Dispatch,
        barrier_target,
        dispatch_transfers(has_initial, has_dispatch),
    );
    assert(forall|k: int| 0 <= k < end.len() ==> !(#[trigger] end[k] is ReleaseSlot));
    assert(forall|k: int| 0 <= k < first.len() ==> !(#[trigger] first[k] is ReleaseSlot));
    assert(forall|k: int|
        0 <= k < second.len() - 1 ==> !(#[trigger] second[k] is ReleaseSlot));
    assert(second.len() > 0);
    assert(second.last() == Action::ReleaseSlot { slot });
    let all = first + second;
    assert(all.last() == second.last());
    if first.len() <= i < all.len() - 1 {
        assert(all[i] == second[i - first.len()]);
    }
}

/// The epoch after `epoch`.
pub open spec fn next_epoch(epoch: u32) -> u32 {
    if epoch == u32::MAX {
        0
    } else {
        (epoch + 1) as u32
    }
}

/// No part of a round has more actions than this.
pub const LONGEST_PART: usize = 64;

impl Round {
    /// What is left to do of the current part of the round.
    pub open spec fn rest(self) -> Seq<Action> {
        self.pending@.skip(self.pos as int)
    }

    /// The action whose outcome is awaited.
    pub open spec fn awaits(self) -> Action {
        self.awaiting
    }

    /// How many more times route counts are read.
    pub open spec fn reads(self) -> int {
        self.reads_left as int
    }

    /// The network interfaces per device.
    pub open spec fn nets(self) -> int {
        self.nets_per_gpu as int
    }

    /// Route counts are read only while there are reads left.
    pub open spec fn reads_only_while_left(self) -> bool {
        &&& self.awaits() == Action::ReadCounts ==> self.reads() > 0
        &&& forall|i: int|
            0 <= i < self.rest().len() && #[trigger] self.rest()[i] == Action::ReadCounts
                ==> self.reads() > 0
    }

    /// The round is in order.
    pub open spec fn wf(self) -> bool {
        &&& self.pos <= self.pending@.len()
        &&& self.reads_left <= 2
        &&& self.rest().len() < LONGEST_PART
        &&& self.reads_only_while_left()
    }

    /// How far the round is from its end.
    pub open spec fn distance(self) -> int {
        self.reads() * (2 * LONGEST_PART + 2) + 2 * self.rest().len() + (
        if self.awaits() is SubtractTransfers {
            1int
        } else {
            0
        })
    }

    /// The number of transfers to take off the counter.
    pub open spec fn subtracting(self) -> i64 {
        match self.awaits() {
            Action::SubtractTransfers { count } => count,
            _ => 0,
        }
    }

    /// What a round needs of its next event.
    pub open spec fn accepts(self, worker: WorkerState, event: Event) -> bool {
        &&& answers(event, self.awaits())
        &&& match event {
            Event::Counts { counts } => self.takes_counts(worker, counts@),
            _ => true,
        }
    }

    /// Whether the round can go on with these route counts: there is one for every group and
    /// expert, and what the round computes of them fits its integer types.
    pub open spec fn takes_counts(self, worker: WorkerState, counts: Seq<u32>) -> bool {
        &&& worker.round_ready(self.nets())
        &&& worker.counts_cover(counts)
        &&& if self.reads() == 2 {
            worker.config.initial_routable(worker.routes(counts))
        } else {
            worker.config.routable(worker.routes(counts), self.nets())
        }
    }

    /// Whether a round of the worker was just started, with a first action.
    pub open spec fn started(self, worker: WorkerState, nets_per_gpu: int, action: Action) -> bool {
        &&& self.wf()
        &&& self.awaits() == action
        &&& self.nets() == nets_per_gpu
        &&& self.reads() == 2
        &&& self.initial_ranges@.len() == 0
        &&& self.upload is None
        &&& self.routing is None
        &&& action == Action::StartTimer
        &&& self.rest() == opening(worker.node_exchange()).drop_first()
    }

    /// What going on with a round does, given what came of its last action: which action comes
    /// next, and what changes of the round and of the worker.
    pub open spec fn went_on(
        self,
        worker: WorkerState,
        event: Event,
        after: Round,
        after_worker: WorkerState,
        action: Action,
    ) -> bool {
        &&& after.wf()
        &&& after_worker.wf()
        &&& after.awaits() == action
        &&& after.nets() == self.nets()
        &&& action != Action::Return ==> after.distance() < self.distance()
        &&& after_worker == (WorkerState {
            epoch: if action is ReleaseSlot {
                next_epoch(worker.epoch)
            } else {
                worker.epoch
            },
            counters: after_worker.counters,
            ..worker
        })
        &&& match event {
            Event::Counts { counts } if self.reads() == 2 => {
                &&& after_worker.counters == worker.counters
                &&& after.reads() == 1
                &&& after.initial_ranges@ == initial_ranges(
                    worker.config,
                    worker.routes(counts@),
                )
                &&& after.upload == self.upload
                &&& after.routing == self.routing
                &&& handed_out(
                    exchanging(
                        worker.node_exchange(),
                        after.initial_ranges@.len() > 0,
                        worker.route_target() as u32,
                    ),
                    action,
                    after.rest(),
                )
            },
            Event::Counts { counts } => {
                &&& after.reads() == 0
                &&& after.initial_ranges == self.initial_ranges
                &&& after.upload matches Some(upload)
                &&& after.routing matches Some(info)
                &&& worker.routed(
                    after_worker,
                    counts@,
                    self.nets(),
                    upload,
                    info,
                )
                &&& handed_out(
                    worker.stages(
                        self.nets(),
                        self.initial_ranges@.len() > 0,
                        info,
                    ),
                    action,
                    after.rest(),
                )
            },
            _ => {
                &&& after.reads() == self.reads()
                &&& after.initial_ranges == self.initial_ranges
                &&& after.upload == self.upload
                &&& after.routing == self.routing
                &&& after_worker.counters.dispatch == worker.counters.dispatch
                &&& after_worker.counters.combine == worker.counters.combine
                &&& match event {
                    Event::Waited { reached } if !reached => {
                        &&& action == Action::Return
                        &&& after_worker.counters == worker.counters
                    },
                    Event::TransfersBefore { count } if count < self.subtracting() => {
                        &&& action == Action::WaitTransfers
                        &&& after.rest() == self.rest()
                        &&& after_worker.counters == worker.counters
                    },
                    Event::Elapsed { ns } => {
                        &&& self.awaits() matches Action::RecordTime { kind }
                        &&& handed_out(self.rest(), action, after.rest())
                        &&& after_worker.counters.times.spent(kind) == wrap64(
                            worker.counters.times.spent(kind) + counted_ns(ns),
                        )
                        &&& forall|other: WaitKind|
                            other != kind ==> #[trigger]
                            after_worker.counters.times.spent(other) == worker.counters.times.spent(other)
                    },
                    _ => {
                        &&& handed_out(self.rest(), action, after.rest())
                        &&& after_worker.counters == worker.counters
                    },
                }
            },
        }
    }

    /// Hands out the next action.
    fn hand_out(&mut self) -> (action: Action)
        requires
            old(self).pos <= old(self).pending@.len(),
        ensures
            final(self).pos <= final(self).pending@.len(),
            handed_out(old(self).rest(), action, final(self).rest()),
            final(self).awaits() == action,
            final(self).reads_left == old(self).reads_left,
            final(self).nets_per_gpu == old(self).nets_per_gpu,
            final(self).initial_ranges == old(self).initial_ranges,
            final(self).upload == old(self).upload,
            final(self).routing == old(self).routing,
    {
        let ghost before = self.rest();
        let action: Action = if self.pos < self.pending.len() {
            let action: Action = self.pending[self.pos];
            proof {
                assert(before[0] == action);
            }
            self.pos = self.pos + 1;
            action
        } else {
            Action::Return
        };
        self.awaiting = action;
        proof {
            if before.len() > 0 {
                assert(self.rest() =~= before.drop_first());
            }
        }
        action
    }

    /// Goes on with a round, given what came of its last action.
    ///
    /// A wait that was cut short ends the round. Where fewer transfers had completed than the
    /// stage submitted, the rest are waited for. Route counts are read twice: what this rank
    /// sends is known at first, and what it receives later. The epoch moves on when the slot is
    /// given back.
    pub fn next(&mut self, worker: &mut WorkerState, event: Event) -> (action: Action)
        requires
            old(self).wf(),
            old(worker).wf(),
            old(self).accepts(*old(worker), event),
        ensures
            old(self).went_on(*old(worker), event, *final(self), *final(worker), action),
    {
        match event {
            Event::Waited { reached } => {
                if !reached {
                    self.awaiting = Action::Return;
                    return Action::Return;
                }
            },
            Event::TransfersBefore { count } => {
                if let Action::SubtractTransfers { count: total } = self.awaiting {
                    if count < total {
                        self.awaiting = Action::WaitTransfers;
                        return Action::WaitTransfers;
                    }
                }
            },
            Event::Elapsed { ns } => {
                if let Action::RecordTime { kind } = self.awaiting {
                    worker.counters.times.add_elapsed_ns(kind, ns);
                }
            },
            Event::Counts { counts } => {
                if self.reads_left == 2 {
                    self.initial_ranges = worker.dispatch_initial_routes(&counts);
                    self.reads_left = 1;
                    self.pending = exchange_actions(worker, self.initial_ranges.len() > 0);
                    self.pos = 0;
                    proof {
                        assert(self.rest() =~= self.pending@);
                    }
                } else {
                    let (upload, info) = worker.process_routing_info(&counts, self.nets_per_gpu);
                    self.reads_left = 0;
                    self.pending = stage_actions(
                        worker,
                        self.nets_per_gpu,
                        self.initial_ranges.len() > 0,
                        &info,
                    );
                    self.pos = 0;
                    self.upload = Some(upload);
                    self.routing = Some(info);
                    proof {
                        assert(self.rest() =~= self.pending@);
                    }
                }
            },
            Event::Done => {},
        }
        let action: Action = self.hand_out();
        if let Action::ReleaseSlot { slot: _ } = action {
            worker.epoch = worker.epoch.wrapping_add(1);
        }
        action
    }
}

/// The actions between the two times that route counts are read.
fn exchange_actions(worker: &WorkerState, has_initial: bool) -> (actions: Vec<Action>)
    requires
        worker.wf(),
        worker.route_target() >= 0,
    ensures
        actions@ == exchanging(
            worker.node_exchange(),
            has_initial,
            worker.route_target() as u32,
        ),
{
    let mut actions: Vec<Action> = Vec::new();
    if has_initial {
        actions.push(Action::SubmitInitial);
    }
    let num_dp_groups: u32 = (worker.config.world_size / worker.config.dp_size) as u32;
    actions.push(Action::StartTimer);
    if worker.has_node_route_exchange() {
        actions.push(Action::WaitNodeRoutes);
    } else {
        actions.push(
            Action::WaitMessages { counter: MessageCounter::Route, target: num_dp_groups - 1 },
        );
    }
    actions.push(Action::RecordTime { kind: WaitKind::RouteExchange });
    actions.push(Action::StartTimer);
    actions.push(Action::ReadCounts);
    proof {
        assert(actions@ =~= exchanging(
            worker.node_exchange(),
            has_initial,
            worker.route_target() as u32,
        ));
    }
    actions
}

/// The actions of the two stages.
fn stage_actions(
    worker: &WorkerState,
    nets_per_gpu: u32,
    has_initial: bool,
    info: &RoutingInfo,
) -> (actions: Vec<Action>)
    requires
        worker.round_ready(nets_per_gpu as int),
    ensures
        actions@ == worker.stages(nets_per_gpu as int, has_initial, *info),
        actions@.len() < LONGEST_PART,
        forall|i: int| 0 <= i < actions@.len() ==> #[trigger] actions@[i] != Action::ReadCounts,
{
    let single_node: bool = worker.config.world_size == worker.config.node_size;
    let has_dispatch: bool = info.dispatch_ranges.len() > 0;
    let has_combine: bool = info.combine_ranges.len() > 0;
    proof {
        vstd::arithmetic::div_mod::lemma_fundamental_div_mod(
            worker.config.world_size as int,
            worker.config.node_size as int,
        );
        assert(worker.config.world_size as int / worker.config.node_size as int >= 1)
            by (nonlinear_arith)
            requires
                0 < worker.config.node_size <= worker.config.world_size,
        ;
        assert(0 <= worker.remote_group_count()) by (nonlinear_arith)
            requires
                worker.remote_group_count() == (worker.config.world_size as int
                    / worker.config.node_size as int - 1) * (worker.config.node_size as int
                    / worker.config.dp_size as int),
                worker.config.world_size as int / worker.config.node_size as int >= 1,
                0 <= worker.config.node_size as int / worker.config.dp_size as int,
        ;
        assert(0 <= low32(worker.remote_group_count()) * nets_per_gpu) by (nonlinear_arith)
            requires
                0 <= low32(worker.remote_group_count()),
                0 <= nets_per_gpu,
        ;
    }
    let num_remote_nodes: usize = worker.config.world_size / worker.config.node_size - 1;
    let groups_per_node: usize = worker.config.node_size / worker.config.dp_size;
    let num_combine_imm: u32 = (num_remote_nodes * groups_per_node) as u32 * nets_per_gpu;
    let barrier_target: u32 = (worker.config.world_size - 1) as u32;

    let mut actions: Vec<Action> = dispatch_actions(
        single_node,
        has_initial,
        has_dispatch,
        info.num_recv_tx,
        barrier_target,
    );
    push_combine_actions(
        &mut actions,
        single_node,
        has_combine,
        num_combine_imm,
        barrier_target,
        worker.slot_idx,
    );
    proof {
        lemma_dispatching_shape(
            single_node,
            has_initial,
            has_dispatch,
            info.num_recv_tx,
            barrier_target,
        );
        lemma_combining_shape(
            single_node,
            has_combine,
            num_combine_imm,
            barrier_target,
            worker.slot_idx,
        );
    }
    actions
}

/// The actions of the dispatch stage.
fn dispatch_actions(
    single_node: bool,
    has_initial: bool,
    has_dispatch: bool,
    num_recv_tx: u32,
    barrier_target: u32,
) -> (actions: Vec<Action>)
    ensures
        actions@ == dispatching(
            single_node,
            has_initial,
            has_dispatch,
            num_recv_tx,
            barrier_target,
        ),
{
    let initial_tx: u32 = if has_initial {
        1
    } else {
        0
    };
    let dispatch_tx: u32 = if has_dispatch {
        1
    } else {
        0
    };
    let num_dispatch_tx: u32 = 1 + initial_tx + dispatch_tx;
    let mut actions: Vec<Action> = Vec::new();
    actions.push(Action::Upload);
    actions.push(Action::RecordTime { kind: WaitKind::ProcessRouting });
    if has_dispatch {
        actions.push(Action::SubmitDispatch);
    }
    actions.push(Action::StartTimer);
    actions.push(Action::WaitDispatched { target: num_recv_tx });
    actions.push(Action::RecordTime { kind: WaitKind::DispatchTransferWait });
    let ghost head = actions@;
    proof {
        assert(head =~= seq![
            Action::Upload,
            Action::RecordTime { kind: WaitKind::ProcessRouting },
        ] + optional(has_dispatch, Action::SubmitDispatch) + seq![
            Action::StartTimer,
            Action::WaitDispatched { target: num_recv_tx },
            Action::RecordTime { kind: WaitKind::DispatchTransferWait },
        ]);
    }
    push_timed_signal(&mut actions, Signal::DispatchRecvDone, WaitKind::WaitDispatchRecv);
    barrier(&mut actions, single_node, Stage::Dispatch, barrier_target, num_dispatch_tx);
    actions
}

/// Appends the actions of the combine stage.
fn push_combine_actions(
    actions: &mut Vec<Action>,
    single_node: bool,
    has_combine: bool,
    combine_target: u32,
    barrier_target: u32,
    slot: usize,
)
    ensures
        final(actions)@ == old(actions)@ + combining(
            single_node,
            has_combine,
            combine_target,
            barrier_target,
            slot,
        ),
{
    let ghost before = actions@;
    let num_combine_tx: u32 = if has_combine {
        1
    } else {
        0
    };
    push_timed_signal(actions, Signal::CombineSendDone, WaitKind::WaitCombineSend);
    let ghost waited = actions@;
    actions.push(Action::CheckRunning);
    if has_combine {
        actions.push(Action::SubmitCombine);
    }
    actions.push(Action::StartTimer);
    actions.push(
        Action::WaitMessages { counter: MessageCounter::Combine, target: combine_target },
    );
    actions.push(Action::RecordTime { kind: WaitKind::CombineTransferWait });
    actions.push(Action::SetCombineRecvFlag);
    let ghost middle = seq![Action::CheckRunning] + optional(has_combine, Action::SubmitCombine)
        + seq![
        Action::StartTimer,
        Action::WaitMessages { counter: MessageCounter::Combine, target: combine_target },
        Action::RecordTime { kind: WaitKind::CombineTransferWait },
        Action::SetCombineRecvFlag,
    ];
    proof {
        assert(actions@ =~= waited + middle);
    }
    push_timed_signal(actions, Signal::CombineRecvDone, WaitKind::WaitCombineRecv);
    barrier(actions, single_node, Stage::Combine, barrier_target, num_combine_tx);
    actions.push(Action::ReleaseSlot { slot });
    proof {
        let a = timed_signal(Signal::CombineSendDone, WaitKind::WaitCombineSend);
        let e = timed_signal(Signal::CombineRecvDone, WaitKind::WaitCombineRecv);
        let end = ending(single_node, Stage::Combine, barrier_target, num_combine_tx as int);
        let f = seq![Action::ReleaseSlot { slot }];
        assert(actions@ =~= before + a + middle + e + end + f);
        assert(combining(single_node, has_combine, combine_target, barrier_target, slot) =~= a
            + middle + e + end + f);
        assert(before + a + middle + e + end + f =~= before + (a + middle + e + end + f));
    }
}

/// The dispatch stage is short and reads no route counts.
proof fn lemma_dispatching_shape(
    single_node: bool,
    has_initial: bool,
    has_dispatch: bool,
    num_recv_tx: u32,
    barrier_target: u32,
)
    ensures
        dispatching(single_node, has_initial, has_dispatch, num_recv_tx, barrier_target).len()
            < 20,
        forall|i: int|
            0 <= i < dispatching(
                single_node,
                has_initial,
                has_dispatch,
                num_recv_tx,
                barrier_target,
            ).len() ==> #[trigger] dispatching(
                single_node,
                has_initial,
                has_dispatch,
                num_recv_tx,
                barrier_target,
            )[i] != Action::ReadCounts,
{
}

/// The combine stage is short and reads no route counts.
proof fn lemma_combining_shape(
    single_node: bool,
    has_combine: bool,
    combine_target: u32,
    barrier_target: u32,
    slot: usize,
)
    ensures
        combining(single_node, has_combine, combine_target, barrier_target, slot).len() < 20,
        forall|i: int|
            0 <= i < combining(
                single_node,
                has_combine,
                combine_target,
                barrier_target,
                slot,
            ).len() ==> #[trigger] combining(
                single_node,
                has_combine,
                combine_target,
                barrier_target,
                slot,
            )[i] != Action::ReadCounts,
{
}

} // verus!
