//! What holds of the stages of a round: what comes before what, what is timed, and how many
//! messages are waited for.

use vstd::prelude::*;
use crate::counters::WaitKind;
use crate::step::{
    combining, dispatching, ending, exchanging, opening, Action, MessageCounter, Signal, Stage,
};

verus! {

/// Whether an action occurs.
pub open spec fn occurs(actions: Seq<Action>, action: Action) -> bool {
    exists|i: int| 0 <= i < actions.len() && actions[i] == action
}

/// Whether an action occurs once.
pub open spec fn occurs_once(actions: Seq<Action>, action: Action) -> bool {
    &&& occurs(actions, action)
    &&& forall|i: int, j: int|
        0 <= i < actions.len() && 0 <= j < actions.len() && actions[i] == action && actions[j]
            == action ==> i == j
}

/// Whether both actions occur, and every occurrence of the first comes before every occurrence
/// of the second.
pub open spec fn ordered(actions: Seq<Action>, first: Action, second: Action) -> bool {
    &&& occurs(actions, first)
    &&& occurs(actions, second)
    &&& forall|i: int, j: int|
        0 <= i < actions.len() && 0 <= j < actions.len() && actions[i] == first && actions[j]
            == second ==> i < j
}

/// Which kind of time the wait for a signal counts as.
pub open spec fn kind_of(signal: Signal) -> WaitKind {
    match signal {
        Signal::DispatchRouteDone => WaitKind::WaitDispatchRoute,
        Signal::DispatchSendDone => WaitKind::WaitDispatchSend,
        Signal::DispatchRecvDone => WaitKind::WaitDispatchRecv,
        Signal::CombineSendDone => WaitKind::WaitCombineSend,
        Signal::CombineRecvDone => WaitKind::WaitCombineRecv,
    }
}

/// Whether waits for signals are timed: the timer starts just before, and the time is noted just
/// after, as time of that wait.
pub open spec fn signals_are_timed(actions: Seq<Action>) -> bool {
    forall|i: int|
        0 <= i < actions.len() ==> match #[trigger] actions[i] {
            Action::WaitEpoch { signal } => {
                &&& 0 < i < actions.len() - 1
                &&& actions[i - 1] == Action::StartTimer
                &&& actions[i + 1] == (Action::RecordTime { kind: kind_of(signal) })
            },
            _ => true,
        }
}

/// Whether a wait is timed: the timer starts just before, and the time is noted just after.
pub open spec fn timed_as(actions: Seq<Action>, action: Action, kind: WaitKind) -> bool {
    forall|i: int|
        0 <= i < actions.len() && #[trigger] actions[i] == action ==> {
            &&& 0 < i < actions.len() - 1
            &&& actions[i - 1] == Action::StartTimer
            &&& actions[i + 1] == (Action::RecordTime { kind })
        }
}

/// Whether an action only measures time, or only sees whether to go on.
pub open spec fn is_quiet(action: Action) -> bool {
    match action {
        Action::StartTimer => true,
        Action::RecordTime { .. } => true,
        Action::CheckRunning => true,
        _ => false,
    }
}

/// Whether just before an action the worker sees whether to go on.
pub open spec fn guarded(actions: Seq<Action>, action: Action) -> bool {
    forall|i: int|
        0 <= i < actions.len() && #[trigger] actions[i] == action ==> 0 < i && actions[i - 1]
            == Action::CheckRunning
}

/// A round starts by waiting for its routes, passes them on to the other ranks in one of two
/// ways, waits for its tokens, and only then claims the send buffer and reads the counts.
pub proof fn law_round_opens_in_order(node_exchange: bool)
    ensures
        ({
            let actions = opening(node_exchange);
            let pass_on = if node_exchange {
                Action::PublishNodeRoutes
            } else {
                Action::SubmitRoutes
            };
            let routes = Action::WaitEpoch { signal: Signal::DispatchRouteDone };
            let tokens = Action::WaitEpoch { signal: Signal::DispatchSendDone };
            let claim = Action::SetTxReady { ready: false };
            &&& occurs_once(actions, routes)
            &&& occurs_once(actions, pass_on)
            &&& occurs_once(actions, tokens)
            &&& occurs_once(actions, claim)
            &&& occurs_once(actions, Action::ReadCounts)
            &&& ordered(actions, routes, pass_on)
            &&& ordered(actions, pass_on, tokens)
            &&& ordered(actions, tokens, claim)
            &&& ordered(actions, claim, Action::ReadCounts)
            &&& actions[0] == Action::StartTimer
            &&& actions.last() == Action::ReadCounts
            &&& guarded(actions, pass_on)
            &&& guarded(actions, Action::ReadCounts)
            &&& signals_are_timed(actions)
            &&& forall|i: int|
                0 <= i < actions.len() ==> is_quiet(#[trigger] actions[i]) || actions[i] == routes
                    || actions[i] == pass_on || actions[i] == tokens || actions[i] == claim
                    || actions[i] == Action::ReadCounts
        }),
{
    let actions = opening(node_exchange);
    assert(actions[1] == Action::WaitEpoch { signal: Signal::DispatchRouteDone });
    assert(actions[4] == if node_exchange {
        Action::PublishNodeRoutes
    } else {
        Action::SubmitRoutes
    });
    assert(actions[6] == Action::WaitEpoch { signal: Signal::DispatchSendDone });
    assert(actions[8] == Action::SetTxReady { ready: false });
    assert(actions[10] == Action::ReadCounts);
}

/// A round goes on by writing what it can write at once, if there is anything, and waits for the
/// counts of all groups in the way that they were passed on, before it reads them.
pub proof fn law_counts_are_exchanged_in_order(
    node_exchange: bool,
    has_initial: bool,
    route_target: u32,
)
    ensures
        ({
            let actions = exchanging(node_exchange, has_initial, route_target);
            let wait = if node_exchange {
                Action::WaitNodeRoutes
            } else {
                Action::WaitMessages { counter: MessageCounter::Route, target: route_target }
            };
            &&& occurs(actions, Action::SubmitInitial) <==> has_initial
            &&& has_initial ==> occurs_once(actions, Action::SubmitInitial)
            &&& has_initial ==> ordered(actions, Action::SubmitInitial, wait)
            &&& occurs_once(actions, wait)
            &&& occurs_once(actions, Action::ReadCounts)
            &&& ordered(actions, wait, Action::ReadCounts)
            &&& timed_as(actions, wait, WaitKind::RouteExchange)
            &&& actions.last() == Action::ReadCounts
            &&& actions[actions.len() - 2] == Action::StartTimer
            &&& forall|i: int|
                0 <= i < actions.len() ==> #[trigger] actions[i] == Action::StartTimer || actions[i]
                    == (Action::RecordTime { kind: WaitKind::RouteExchange }) || actions[i] == wait
                    || actions[i] == Action::ReadCounts || actions[i] == Action::SubmitInitial
        }),
{
    let actions = exchanging(node_exchange, has_initial, route_target);
    let d: int = if has_initial {
        1
    } else {
        0
    };
    if has_initial {
        assert(actions[0] == Action::SubmitInitial);
    }
    assert(actions[d + 1] == if node_exchange {
        Action::WaitNodeRoutes
    } else {
        Action::WaitMessages { counter: MessageCounter::Route, target: route_target }
    });
    assert(actions[d + 4] == Action::ReadCounts);
    assert(actions.len() == d + 5);
}

/// How many messages end a barrier, and how many transfers a stage takes off.
pub open spec fn barrier_wait(stage: Stage, target: u32) -> Action {
    match stage {
        Stage::Dispatch => Action::WaitMessages {
            counter: MessageCounter::DispatchBarrier,
            target,
        },
        Stage::Combine => Action::WaitMessages { counter: MessageCounter::CombineBarrier, target },
    }
}

/// Between nodes, a stage ends with a barrier: it is announced, waited for, and then the
/// stage's transfers are waited for, before the send buffer is free again. Within a node it is
/// free at once.
pub proof fn law_stages_end_at_a_barrier(
    single_node: bool,
    stage: Stage,
    target: u32,
    transfers: int,
)
    requires
        0 <= transfers < 1000,
    ensures
        ({
            let actions = ending(single_node, stage, target, transfers);
            let announce = Action::SubmitBarrier { stage };
            let wait = barrier_wait(stage, target);
            let settle = Action::SubtractTransfers { count: (transfers + 1) as i64 };
            let free = Action::SetTxReady { ready: true };
            let kind = match stage {
                Stage::Dispatch => WaitKind::DispatchBarrier,
                Stage::Combine => WaitKind::CombineBarrier,
            };
            &&& occurs_once(actions, free)
            &&& single_node ==> actions.len() == 1
            &&& !single_node ==> {
                &&& occurs_once(actions, announce)
                &&& occurs_once(actions, wait)
                &&& occurs_once(actions, settle)
                &&& ordered(actions, announce, wait)
                &&& ordered(actions, wait, settle)
                &&& ordered(actions, settle, free)
                &&& actions[0] == Action::StartTimer
                &&& actions.last() == (Action::RecordTime { kind })
                &&& forall|i: int|
                    0 < i < actions.len() - 1 ==> #[trigger] actions[i] == announce || actions[i]
                        == wait || actions[i] == settle || actions[i] == free
            }
        }),
{
    let actions = ending(single_node, stage, target, transfers);
    if !single_node {
        assert(actions[1] == Action::SubmitBarrier { stage });
        assert(actions[2] == barrier_wait(stage, target));
        assert(actions[3] == Action::SubtractTransfers { count: (transfers + 1) as i64 });
        assert(actions[4] == Action::SetTxReady { ready: true });
    } else {
        assert(actions[0] == Action::SetTxReady { ready: true });
    }
}

/// An action that stands at one place only.
spec fn stands_at(actions: Seq<Action>, action: Action, at: int) -> bool {
    &&& 0 <= at < actions.len()
    &&& actions[at] == action
    &&& forall|i: int| 0 <= i < actions.len() && #[trigger] actions[i] == action ==> i == at
}

proof fn lemma_once(actions: Seq<Action>, action: Action, at: int)
    requires
        stands_at(actions, action, at),
    ensures
        occurs_once(actions, action),
{
}

proof fn lemma_ordered(actions: Seq<Action>, first: Action, i: int, second: Action, j: int)
    requires
        stands_at(actions, first, i),
        stands_at(actions, second, j),
        i < j,
    ensures
        ordered(actions, first, second),
{
}

/// Whether actions are those of a dispatch stage in order: the plan goes to the device first;
/// then what is left is written, if there is anything, the messages of the others are waited
/// for, and then the kernel; the stage then ends, between nodes at a barrier and once as many
/// transfers are done as the round has started by then.
pub open spec fn dispatch_in_order(
    actions: Seq<Action>,
    single_node: bool,
    has_initial: bool,
    has_dispatch: bool,
    num_recv_tx: u32,
    barrier_target: u32,
) -> bool {
    let arrived = Action::WaitDispatched { target: num_recv_tx };
    let received = Action::WaitEpoch { signal: Signal::DispatchRecvDone };
    let announce = Action::SubmitBarrier { stage: Stage::Dispatch };
    let meet = barrier_wait(Stage::Dispatch, barrier_target);
    let free = Action::SetTxReady { ready: true };
    let settle = Action::SubtractTransfers {
        count: (if has_initial {
            1int
        } else {
            0
        } + if has_dispatch {
            1int
        } else {
            0
        } + 2) as i64,
    };
    &&& actions[0] == Action::Upload
    &&& actions[1] == (Action::RecordTime { kind: WaitKind::ProcessRouting })
    &&& occurs_once(actions, Action::Upload)
    &&& occurs(actions, Action::SubmitDispatch) <==> has_dispatch
    &&& has_dispatch ==> ordered(actions, Action::Upload, Action::SubmitDispatch)
    &&& has_dispatch ==> ordered(actions, Action::SubmitDispatch, arrived)
    &&& has_dispatch ==> occurs_once(actions, Action::SubmitDispatch)
    &&& ordered(actions, Action::Upload, arrived)
    &&& occurs_once(actions, arrived)
    &&& timed_as(actions, arrived, WaitKind::DispatchTransferWait)
    &&& occurs_once(actions, received)
    &&& signals_are_timed(actions)
    &&& ordered(actions, arrived, received)
    &&& occurs_once(actions, free)
    &&& ordered(actions, received, free)
    &&& occurs(actions, announce) <==> !single_node
    &&& !single_node ==> {
        &&& ordered(actions, received, announce)
        &&& ordered(actions, announce, meet)
        &&& ordered(actions, meet, settle)
        &&& ordered(actions, settle, free)
        &&& occurs_once(actions, announce)
        &&& occurs_once(actions, meet)
        &&& occurs_once(actions, settle)
        &&& actions.last() == (Action::RecordTime { kind: WaitKind::DispatchBarrier })
    }
    &&& forall|i: int|
        0 <= i < actions.len() ==> is_quiet(#[trigger] actions[i]) || actions[i] == Action::Upload
            || actions[i] == Action::SubmitDispatch || actions[i] == arrived || actions[i]
            == received || actions[i] == announce || actions[i] == meet || actions[i] == settle
            || actions[i] == free
}

proof fn lemma_dispatch_single_writes(
    has_initial: bool,
    num_recv_tx: u32,
    barrier_target: u32,
)
    ensures
        ({
            let actions = dispatching(true, has_initial, true, num_recv_tx, barrier_target);
            dispatch_in_order(
            actions,
            true,
            has_initial,
            true,
            num_recv_tx,
            barrier_target,
        )
        }),
{
    let arrived = Action::WaitDispatched { target: num_recv_tx };
    let received = Action::WaitEpoch { signal: Signal::DispatchRecvDone };
    let announce = Action::SubmitBarrier { stage: Stage::Dispatch };
    let meet = barrier_wait(Stage::Dispatch, barrier_target);
    let free = Action::SetTxReady { ready: true };
    let settle = Action::SubtractTransfers {
        count: (if has_initial {
            1int
        } else {
            0
        } + 1int + 2) as i64,
    };
    let actions = dispatching(true, has_initial, true, num_recv_tx, barrier_target);
    let written = seq![
        Action::Upload,
        Action::RecordTime { kind: WaitKind::ProcessRouting },
        Action::SubmitDispatch,
        Action::StartTimer,
        arrived,
        Action::RecordTime { kind: WaitKind::DispatchTransferWait },
        Action::StartTimer,
        received,
        Action::RecordTime { kind: WaitKind::WaitDispatchRecv },
        free,
    ];
    assert(actions =~= written);
    assert(actions == written);
    assert(dispatch_in_order(
            actions,
            true,
            has_initial,
            true,
            num_recv_tx,
            barrier_target,
        )) by {
        assert(stands_at(actions, Action::Upload, 0));
        lemma_once(actions, Action::Upload, 0);
        assert(stands_at(actions, Action::SubmitDispatch, 2));
        lemma_once(actions, Action::SubmitDispatch, 2);
        assert(stands_at(actions, arrived, 4));
        lemma_once(actions, arrived, 4);
        assert(stands_at(actions, received, 7));
        lemma_once(actions, received, 7);
        assert(stands_at(actions, free, 9));
        lemma_once(actions, free, 9);
        lemma_ordered(actions, Action::Upload, 0, Action::SubmitDispatch, 2);
        lemma_ordered(actions, Action::SubmitDispatch, 2, arrived, 4);
        lemma_ordered(actions, Action::Upload, 0, arrived, 4);
        lemma_ordered(actions, arrived, 4, received, 7);
        lemma_ordered(actions, received, 7, free, 9);
    }
}

proof fn lemma_dispatch_single_quiet(
    has_initial: bool,
    num_recv_tx: u32,
    barrier_target: u32,
)
    ensures
        ({
            let actions = dispatching(true, has_initial, false, num_recv_tx, barrier_target);
            dispatch_in_order(
            actions,
            true,
            has_initial,
            false,
            num_recv_tx,
            barrier_target,
        )
        }),
{
    let arrived = Action::WaitDispatched { target: num_recv_tx };
    let received = Action::WaitEpoch { signal: Signal::DispatchRecvDone };
    let announce = Action::SubmitBarrier { stage: Stage::Dispatch };
    let meet = barrier_wait(Stage::Dispatch, barrier_target);
    let free = Action::SetTxReady { ready: true };
    let settle = Action::SubtractTransfers {
        count: (if has_initial {
            1int
        } else {
            0
        } + 0int + 2) as i64,
    };
    let actions = dispatching(true, has_initial, false, num_recv_tx, barrier_target);
    let written = seq![
        Action::Upload,
        Action::RecordTime { kind: WaitKind::ProcessRouting },
        Action::StartTimer,
        arrived,
        Action::RecordTime { kind: WaitKind::DispatchTransferWait },
        Action::StartTimer,
        received,
        Action::RecordTime { kind: WaitKind::WaitDispatchRecv },
        free,
    ];
    assert(actions =~= written);
    assert(actions == written);
    assert(dispatch_in_order(
            actions,
            true,
            has_initial,
            false,
            num_recv_tx,
            barrier_target,
        )) by {
        assert(stands_at(actions, Action::Upload, 0));
        lemma_once(actions, Action::Upload, 0);
        assert(stands_at(actions, arrived, 3));
        lemma_once(actions, arrived, 3);
        assert(stands_at(actions, received, 6));
        lemma_once(actions, received, 6);
        assert(stands_at(actions, free, 8));
        lemma_once(actions, free, 8);
        lemma_ordered(actions, Action::Upload, 0, arrived, 3);
        lemma_ordered(actions, arrived, 3, received, 6);
        lemma_ordered(actions, received, 6, free, 8);
    }
}

proof fn lemma_dispatch_between_writes(
    has_initial: bool,
    num_recv_tx: u32,
    barrier_target: u32,
)
    ensures
        ({
            let actions = dispatching(false, has_initial, true, num_recv_tx, barrier_target);
            dispatch_in_order(
            actions,
            false,
            has_initial,
            true,
            num_recv_tx,
            barrier_target,
        )
        }),
{
    let arrived = Action::WaitDispatched { target: num_recv_tx };
    let received = Action::WaitEpoch { signal: Signal::DispatchRecvDone };
    let announce = Action::SubmitBarrier { stage: Stage::Dispatch };
    let meet = barrier_wait(Stage::Dispatch, barrier_target);
    let free = Action::SetTxReady { ready: true };
    let settle = Action::SubtractTransfers {
        count: (if has_initial {
            1int
        } else {
            0
        } + 1int + 2) as i64,
    };
    let actions = dispatching(false, has_initial, true, num_recv_tx, barrier_target);
    let written = seq![
        Action::Upload,
        Action::RecordTime { kind: WaitKind::ProcessRouting },
        Action::SubmitDispatch,
        Action::StartTimer,
        arrived,
        Action::RecordTime { kind: WaitKind::DispatchTransferWait },
        Action::StartTimer,
        received,
        Action::RecordTime { kind: WaitKind::WaitDispatchRecv },
        Action::StartTimer,
        announce,
        meet,
        settle,
        free,
        Action::RecordTime { kind: WaitKind::DispatchBarrier },
    ];
    assert(actions =~= written);
    assert(actions == written);
    assert(dispatch_in_order(
            actions,
            false,
            has_initial,
            true,
            num_recv_tx,
            barrier_target,
        )) by {
        assert(stands_at(actions, Action::Upload, 0));
        lemma_once(actions, Action::Upload, 0);
        assert(stands_at(actions, Action::SubmitDispatch, 2));
        lemma_once(actions, Action::SubmitDispatch, 2);
        assert(stands_at(actions, arrived, 4));
        lemma_once(actions, arrived, 4);
        assert(stands_at(actions, received, 7));
        lemma_once(actions, received, 7);
        assert(stands_at(actions, announce, 10));
        lemma_once(actions, announce, 10);
        assert(stands_at(actions, meet, 11));
        lemma_once(actions, meet, 11);
        assert(stands_at(actions, settle, 12));
        lemma_once(actions, settle, 12);
        assert(stands_at(actions, free, 13));
        lemma_once(actions, free, 13);
        lemma_ordered(actions, Action::Upload, 0, Action::SubmitDispatch, 2);
        lemma_ordered(actions, Action::SubmitDispatch, 2, arrived, 4);
        lemma_ordered(actions, Action::Upload, 0, arrived, 4);
        lemma_ordered(actions, arrived, 4, received, 7);
        lemma_ordered(actions, received, 7, free, 13);
        lemma_ordered(actions, received, 7, announce, 10);
        lemma_ordered(actions, announce, 10, meet, 11);
        lemma_ordered(actions, meet, 11, settle, 12);
        lemma_ordered(actions, settle, 12, free, 13);
    }
}

proof fn lemma_dispatch_between_quiet(
    has_initial: bool,
    num_recv_tx: u32,
    barrier_target: u32,
)
    ensures
        ({
            let actions = dispatching(false, has_initial, false, num_recv_tx, barrier_target);
            dispatch_in_order(
            actions,
            false,
            has_initial,
            false,
            num_recv_tx,
            barrier_target,
        )
        }),
{
    let arrived = Action::WaitDispatched { target: num_recv_tx };
    let received = Action::WaitEpoch { signal: Signal::DispatchRecvDone };
    let announce = Action::SubmitBarrier { stage: Stage::Dispatch };
    let meet = barrier_wait(Stage::Dispatch, barrier_target);
    let free = Action::SetTxReady { ready: true };
    let settle = Action::SubtractTransfers {
        count: (if has_initial {
            1int
        } else {
            0
        } + 0int + 2) as i64,
    };
    let actions = dispatching(false, has_initial, false, num_recv_tx, barrier_target);
    let written = seq![
        Action::Upload,
        Action::RecordTime { kind: WaitKind::ProcessRouting },
        Action::StartTimer,
        arrived,
        Action::RecordTime { kind: WaitKind::DispatchTransferWait },
        Action::StartTimer,
        received,
        Action::RecordTime { kind: WaitKind::WaitDispatchRecv },
        Action::StartTimer,
        announce,
        meet,
        settle,
        free,
        Action::RecordTime { kind: WaitKind::DispatchBarrier },
    ];
    assert(actions =~= written);
    assert(actions == written);
    assert(dispatch_in_order(
            actions,
            false,
            has_initial,
            false,
            num_recv_tx,
            barrier_target,
        )) by {
        assert(stands_at(actions, Action::Upload, 0));
        lemma_once(actions, Action::Upload, 0);
        assert(stands_at(actions, arrived, 3));
        lemma_once(actions, arrived, 3);
        assert(stands_at(actions, received, 6));
        lemma_once(actions, received, 6);
        assert(stands_at(actions, announce, 9));
        lemma_once(actions, announce, 9);
        assert(stands_at(actions, meet, 10));
        lemma_once(actions, meet, 10);
        assert(stands_at(actions, settle, 11));
        lemma_once(actions, settle, 11);
        assert(stands_at(actions, free, 12));
        lemma_once(actions, free, 12);
        lemma_ordered(actions, Action::Upload, 0, arrived, 3);
        lemma_ordered(actions, arrived, 3, received, 6);
        lemma_ordered(actions, received, 6, free, 12);
        lemma_ordered(actions, received, 6, announce, 9);
        lemma_ordered(actions, announce, 9, meet, 10);
        lemma_ordered(actions, meet, 10, settle, 11);
        lemma_ordered(actions, settle, 11, free, 12);
    }
}

/// Whether actions are those of a combine stage in order: the kernel is waited for first; then
/// results are written back, if there are any, those of the others are waited for, and the
/// kernel is told; once it has combined them the stage ends, and the slot is given back last.
pub open spec fn combine_in_order(
    actions: Seq<Action>,
    single_node: bool,
    has_combine: bool,
    combine_target: u32,
    barrier_target: u32,
    slot: usize,
) -> bool {
    let sent = Action::WaitEpoch { signal: Signal::CombineSendDone };
    let arrived = Action::WaitMessages {
        counter: MessageCounter::Combine,
        target: combine_target,
    };
    let tell = Action::SetCombineRecvFlag;
    let combined = Action::WaitEpoch { signal: Signal::CombineRecvDone };
    let announce = Action::SubmitBarrier { stage: Stage::Combine };
    let meet = barrier_wait(Stage::Combine, barrier_target);
    let free = Action::SetTxReady { ready: true };
    let release = Action::ReleaseSlot { slot };
    let settle = Action::SubtractTransfers {
        count: (if has_combine {
            1int
        } else {
            0
        } + 1) as i64,
    };
    &&& occurs_once(actions, sent)
    &&& occurs(actions, Action::SubmitCombine) <==> has_combine
    &&& has_combine ==> occurs_once(actions, Action::SubmitCombine)
    &&& has_combine ==> guarded(actions, Action::SubmitCombine)
    &&& has_combine ==> ordered(actions, sent, Action::SubmitCombine)
    &&& has_combine ==> ordered(actions, Action::SubmitCombine, arrived)
    &&& ordered(actions, sent, Action::CheckRunning)
    &&& ordered(actions, Action::CheckRunning, arrived)
    &&& occurs_once(actions, Action::CheckRunning)
    &&& occurs_once(actions, arrived)
    &&& timed_as(actions, arrived, WaitKind::CombineTransferWait)
    &&& occurs_once(actions, tell)
    &&& ordered(actions, arrived, tell)
    &&& occurs_once(actions, combined)
    &&& ordered(actions, tell, combined)
    &&& signals_are_timed(actions)
    &&& occurs_once(actions, free)
    &&& ordered(actions, combined, free)
    &&& ordered(actions, free, release)
    &&& occurs_once(actions, release)
    &&& actions.last() == release
    &&& occurs(actions, announce) <==> !single_node
    &&& !single_node ==> {
        &&& ordered(actions, combined, announce)
        &&& ordered(actions, announce, meet)
        &&& ordered(actions, meet, settle)
        &&& ordered(actions, settle, free)
        &&& occurs_once(actions, announce)
        &&& occurs_once(actions, meet)
        &&& occurs_once(actions, settle)
        &&& actions[actions.len() - 2] == (Action::RecordTime { kind: WaitKind::CombineBarrier })
    }
    &&& forall|i: int|
        0 <= i < actions.len() ==> is_quiet(#[trigger] actions[i]) || actions[i] == sent
            || actions[i] == Action::SubmitCombine || actions[i] == arrived || actions[i] == tell
            || actions[i] == combined || actions[i] == announce || actions[i] == meet || actions[i]
            == settle || actions[i] == free || actions[i] == release
}

proof fn lemma_combine_single_writes(
    combine_target: u32,
    barrier_target: u32,
    slot: usize,
)
    ensures
        ({
            let actions = combining(true, true, combine_target, barrier_target, slot);
            combine_in_order(
            actions,
            true,
            true,
            combine_target,
            barrier_target,
            slot,
        )
        }),
{
    let sent = Action::WaitEpoch { signal: Signal::CombineSendDone };
    let arrived = Action::WaitMessages {
        counter: MessageCounter::Combine,
        target: combine_target,
    };
    let tell = Action::SetCombineRecvFlag;
    let combined = Action::WaitEpoch { signal: Signal::CombineRecvDone };
    let announce = Action::SubmitBarrier { stage: Stage::Combine };
    let meet = barrier_wait(Stage::Combine, barrier_target);
    let free = Action::SetTxReady { ready: true };
    let release = Action::ReleaseSlot { slot };
    let settle = Action::SubtractTransfers {
        count: (1int + 1) as i64,
    };
    let actions = combining(true, true, combine_target, barrier_target, slot);
    let written = seq![
        Action::StartTimer,
        sent,
        Action::RecordTime { kind: WaitKind::WaitCombineSend },
        Action::CheckRunning,
        Action::SubmitCombine,
        Action::StartTimer,
        arrived,
        Action::RecordTime { kind: WaitKind::CombineTransferWait },
        tell,
        Action::StartTimer,
        combined,
        Action::RecordTime { kind: WaitKind::WaitCombineRecv },
        free,
        release,
    ];
    assert(actions =~= written);
    assert(actions == written);
    assert(combine_in_order(
            actions,
            true,
            true,
            combine_target,
            barrier_target,
            slot,
        )) by {
        assert(stands_at(actions, sent, 1));
        lemma_once(actions, sent, 1);
        assert(stands_at(actions, Action::CheckRunning, 3));
        lemma_once(actions, Action::CheckRunning, 3);
        assert(stands_at(actions, Action::SubmitCombine, 4));
        lemma_once(actions, Action::SubmitCombine, 4);
        assert(stands_at(actions, arrived, 6));
        lemma_once(actions, arrived, 6);
        assert(stands_at(actions, tell, 8));
        lemma_once(actions, tell, 8);
        assert(stands_at(actions, combined, 10));
        lemma_once(actions, combined, 10);
        assert(stands_at(actions, free, 12));
        lemma_once(actions, free, 12);
        assert(stands_at(actions, release, 13));
        lemma_once(actions, release, 13);
        lemma_ordered(actions, sent, 1, Action::SubmitCombine, 4);
        lemma_ordered(actions, Action::SubmitCombine, 4, arrived, 6);
        lemma_ordered(actions, sent, 1, Action::CheckRunning, 3);
        lemma_ordered(actions, Action::CheckRunning, 3, arrived, 6);
        lemma_ordered(actions, arrived, 6, tell, 8);
        lemma_ordered(actions, tell, 8, combined, 10);
        lemma_ordered(actions, combined, 10, free, 12);
        lemma_ordered(actions, free, 12, release, 13);
    }
}

proof fn lemma_combine_single_quiet(
    combine_target: u32,
    barrier_target: u32,
    slot: usize,
)
    ensures
        ({
            let actions = combining(true, false, combine_target, barrier_target, slot);
            combine_in_order(
            actions,
            true,
            false,
            combine_target,
            barrier_target,
            slot,
        )
        }),
{
    let sent = Action::WaitEpoch { signal: Signal::CombineSendDone };
    let arrived = Action::WaitMessages {
        counter: MessageCounter::Combine,
        target: combine_target,
    };
    let tell = Action::SetCombineRecvFlag;
    let combined = Action::WaitEpoch { signal: Signal::CombineRecvDone };
    let announce = Action::SubmitBarrier { stage: Stage::Combine };
    let meet = barrier_wait(Stage::Combine, barrier_target);
    let free = Action::SetTxReady { ready: true };
    let release = Action::ReleaseSlot { slot };
    let settle = Action::SubtractTransfers {
        count: (0int + 1) as i64,
    };
    let actions = combining(true, false, combine_target, barrier_target, slot);
    let written = seq![
        Action::StartTimer,
        sent,
        Action::RecordTime { kind: WaitKind::WaitCombineSend },
        Action::CheckRunning,
        Action::StartTimer,
        arrived,
        Action::RecordTime { kind: WaitKind::CombineTransferWait },
        tell,
        Action::StartTimer,
        combined,
        Action::RecordTime { kind: WaitKind::WaitCombineRecv },
        free,
        release,
    ];
    assert(actions =~= written);
    assert(actions == written);
    assert(combine_in_order(
            actions,
            true,
            false,
            combine_target,
            barrier_target,
            slot,
        )) by {
        assert(stands_at(actions, sent, 1));
        lemma_once(actions, sent, 1);
        assert(stands_at(actions, Action::CheckRunning, 3));
        lemma_once(actions, Action::CheckRunning, 3);
        assert(stands_at(actions, arrived, 5));
        lemma_once(actions, arrived, 5);
        assert(stands_at(actions, tell, 7));
        lemma_once(actions, tell, 7);
        assert(stands_at(actions, combined, 9));
        lemma_once(actions, combined, 9);
        assert(stands_at(actions, free, 11));
        lemma_once(actions, free, 11);
        assert(stands_at(actions, release, 12));
        lemma_once(actions, release, 12);
        lemma_ordered(actions, sent, 1, Action::CheckRunning, 3);
        lemma_ordered(actions, Action::CheckRunning, 3, arrived, 5);
        lemma_ordered(actions, arrived, 5, tell, 7);
        lemma_ordered(actions, tell, 7, combined, 9);
        lemma_ordered(actions, combined, 9, free, 11);
        lemma_ordered(actions, free, 11, release, 12);
    }
}

proof fn lemma_combine_between_writes(
    combine_target: u32,
    barrier_target: u32,
    slot: usize,
)
    ensures
        ({
            let actions = combining(false, true, combine_target, barrier_target, slot);
            combine_in_order(
            actions,
            false,
            true,
            combine_target,
            barrier_target,
            slot,
        )
        }),
{
    let sent = Action::WaitEpoch { signal: Signal::CombineSendDone };
    let arrived = Action::WaitMessages {
        counter: MessageCounter::Combine,
        target: combine_target,
    };
    let tell = Action::SetCombineRecvFlag;
    let combined = Action::WaitEpoch { signal: Signal::CombineRecvDone };
    let announce = Action::SubmitBarrier { stage: Stage::Combine };
    let meet = barrier_wait(Stage::Combine, barrier_target);
    let free = Action::SetTxReady { ready: true };
    let release = Action::ReleaseSlot { slot };
    let settle = Action::SubtractTransfers {
        count: (1int + 1) as i64,
    };
    let actions = combining(false, true, combine_target, barrier_target, slot);
    let written = seq![
        Action::StartTimer,
        sent,
        Action::RecordTime { kind: WaitKind::WaitCombineSend },
        Action::CheckRunning,
        Action::SubmitCombine,
        Action::StartTimer,
        arrived,
        Action::RecordTime { kind: WaitKind::CombineTransferWait },
        tell,
        Action::StartTimer,
        combined,
        Action::RecordTime { kind: WaitKind::WaitCombineRecv },
        Action::StartTimer,
        announce,
        meet,
        settle,
        free,
        Action::RecordTime { kind: WaitKind::CombineBarrier },
        release,
    ];
    assert(actions =~= written);
    assert(actions == written);
    assert(combine_in_order(
            actions,
            false,
            true,
            combine_target,
            barrier_target,
            slot,
        )) by {
        assert(stands_at(actions, sent, 1));
        lemma_once(actions, sent, 1);
        assert(stands_at(actions, Action::CheckRunning, 3));
        lemma_once(actions, Action::CheckRunning, 3);
        assert(stands_at(actions, Action::SubmitCombine, 4));
        lemma_once(actions, Action::SubmitCombine, 4);
        assert(stands_at(actions, arrived, 6));
        lemma_once(actions, arrived, 6);
        assert(stands_at(actions, tell, 8));
        lemma_once(actions, tell, 8);
        assert(stands_at(actions, combined, 10));
        lemma_once(actions, combined, 10);
        assert(stands_at(actions, announce, 13));
        lemma_once(actions, announce, 13);
        assert(stands_at(actions, meet, 14));
        lemma_once(actions, meet, 14);
        assert(stands_at(actions, settle, 15));
        lemma_once(actions, settle, 15);
        assert(stands_at(actions, free, 16));
        lemma_once(actions, free, 16);
        assert(stands_at(actions, release, 18));
        lemma_once(actions, release, 18);
        lemma_ordered(actions, sent, 1, Action::SubmitCombine, 4);
        lemma_ordered(actions, Action::SubmitCombine, 4, arrived, 6);
        lemma_ordered(actions, sent, 1, Action::CheckRunning, 3);
        lemma_ordered(actions, Action::CheckRunning, 3, arrived, 6);
        lemma_ordered(actions, arrived, 6, tell, 8);
        lemma_ordered(actions, tell, 8, combined, 10);
        lemma_ordered(actions, combined, 10, free, 16);
        lemma_ordered(actions, free, 16, release, 18);
        lemma_ordered(actions, combined, 10, announce, 13);
        lemma_ordered(actions, announce, 13, meet, 14);
        lemma_ordered(actions, meet, 14, settle, 15);
        lemma_ordered(actions, settle, 15, free, 16);
    }
}

proof fn lemma_combine_between_quiet(
    combine_target: u32,
    barrier_target: u32,
    slot: usize,
)
    ensures
        ({
            let actions = combining(false, false, combine_target, barrier_target, slot);
            combine_in_order(
            actions,
            false,
            false,
            combine_target,
            barrier_target,
            slot,
        )
        }),
{
    let sent = Action::WaitEpoch { signal: Signal::CombineSendDone };
    let arrived = Action::WaitMessages {
        counter: MessageCounter::Combine,
        target: combine_target,
    };
    let tell = Action::SetCombineRecvFlag;
    let combined = Action::WaitEpoch { signal: Signal::CombineRecvDone };
    let announce = Action::SubmitBarrier { stage: Stage::Combine };
    let meet = barrier_wait(Stage::Combine, barrier_target);
    let free = Action::SetTxReady { ready: true };
    let release = Action::ReleaseSlot { slot };
    let settle = Action::SubtractTransfers {
        count: (0int + 1) as i64,
    };
    let actions = combining(false, false, combine_target, barrier_target, slot);
    let written = seq![
        Action::StartTimer,
        sent,
        Action::RecordTime { kind: WaitKind::WaitCombineSend },
        Action::CheckRunning,
        Action::StartTimer,
        arrived,
        Action::RecordTime { kind: WaitKind::CombineTransferWait },
        tell,
        Action::StartTimer,
        combined,
        Action::RecordTime { kind: WaitKind::WaitCombineRecv },
        Action::StartTimer,
        announce,
        meet,
        settle,
        free,
        Action::RecordTime { kind: WaitKind::CombineBarrier },
        release,
    ];
    assert(actions =~= written);
    assert(actions == written);
    assert(combine_in_order(
            actions,
            false,
            false,
            combine_target,
            barrier_target,
            slot,
        )) by {
        assert(stands_at(actions, sent, 1));
        lemma_once(actions, sent, 1);
        assert(stands_at(actions, Action::CheckRunning, 3));
        lemma_once(actions, Action::CheckRunning, 3);
        assert(stands_at(actions, arrived, 5));
        lemma_once(actions, arrived, 5);
        assert(stands_at(actions, tell, 7));
        lemma_once(actions, tell, 7);
        assert(stands_at(actions, combined, 9));
        lemma_once(actions, combined, 9);
        assert(stands_at(actions, announce, 12));
        lemma_once(actions, announce, 12);
        assert(stands_at(actions, meet, 13));
        lemma_once(actions, meet, 13);
        assert(stands_at(actions, settle, 14));
        lemma_once(actions, settle, 14);
        assert(stands_at(actions, free, 15));
        lemma_once(actions, free, 15);
        assert(stands_at(actions, release, 17));
        lemma_once(actions, release, 17);
        lemma_ordered(actions, sent, 1, Action::CheckRunning, 3);
        lemma_ordered(actions, Action::CheckRunning, 3, arrived, 5);
        lemma_ordered(actions, arrived, 5, tell, 7);
        lemma_ordered(actions, tell, 7, combined, 9);
        lemma_ordered(actions, combined, 9, free, 15);
        lemma_ordered(actions, free, 15, release, 17);
        lemma_ordered(actions, combined, 9, announce, 12);
        lemma_ordered(actions, announce, 12, meet, 13);
        lemma_ordered(actions, meet, 13, settle, 14);
        lemma_ordered(actions, settle, 14, free, 15);
    }
}

/// A dispatch stage keeps its order.
pub proof fn law_dispatch_stage_keeps_its_order(
    single_node: bool,
    has_initial: bool,
    has_dispatch: bool,
    num_recv_tx: u32,
    barrier_target: u32,
)
    ensures
        dispatch_in_order(
            dispatching(single_node, has_initial, has_dispatch, num_recv_tx, barrier_target),
            single_node,
            has_initial,
            has_dispatch,
            num_recv_tx,
            barrier_target,
        ),
{
    if single_node && has_dispatch {
        lemma_dispatch_single_writes(has_initial, num_recv_tx, barrier_target);
    } else if single_node {
        lemma_dispatch_single_quiet(has_initial, num_recv_tx, barrier_target);
    } else if has_dispatch {
        lemma_dispatch_between_writes(has_initial, num_recv_tx, barrier_target);
    } else {
        lemma_dispatch_between_quiet(has_initial, num_recv_tx, barrier_target);
    }
}

/// A combine stage keeps its order.
pub proof fn law_combine_stage_keeps_its_order(
    single_node: bool,
    has_combine: bool,
    combine_target: u32,
    barrier_target: u32,
    slot: usize,
)
    ensures
        combine_in_order(
            combining(single_node, has_combine, combine_target, barrier_target, slot),
            single_node,
            has_combine,
            combine_target,
            barrier_target,
            slot,
        ),
{
    if single_node && has_combine {
        lemma_combine_single_writes(combine_target, barrier_target, slot);
    } else if single_node {
        lemma_combine_single_quiet(combine_target, barrier_target, slot);
    } else if has_combine {
        lemma_combine_between_writes(combine_target, barrier_target, slot);
    } else {
        lemma_combine_between_quiet(combine_target, barrier_target, slot);
    }
}

} // verus!
