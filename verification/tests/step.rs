use p2p_all_to_all::config::ContextConfig;
use p2p_all_to_all::counters::WaitKind;
use p2p_all_to_all::ranges::ScatterRange;
use p2p_all_to_all::step::{Action, Event, MessageCounter, Round, Signal, Stage};
use p2p_all_to_all::worker::WorkerState;

fn config(node_size: usize) -> ContextConfig {
    ContextConfig {
        hidden_dim: 8,
        hidden_dim_scale: 0,
        in_elemsize: 2,
        out_elemsize: 2,
        scale_elemsize: 0,
        num_experts: 8,
        max_num_tokens: 32,
        max_recv_tokens: 64,
        max_tokens_per_expert: 8,
        expert_padding: 1,
        num_experts_per_token: 2,
        max_private_tokens: 2,
        rank: 0,
        dp_size: 1,
        node_size,
        world_size: 4,
    }
}

fn counts() -> Vec<u32> {
    vec![
        1, 2, 5, 1, 4, 0, 2, 3, //
        3, 0, 0, 0, 0, 0, 0, 0, //
        2, 1, 0, 0, 0, 0, 0, 0, //
        0, 4, 0, 0, 0, 0, 0, 0,
    ]
}

fn range(peer_rank: usize, length: u64, src_offset: u64, dst_offset: u64) -> ScatterRange {
    ScatterRange { peer_rank, length, src_offset, dst_offset }
}

/// What a fabric and a device that never fail make of an action.
fn outcome(action: Action, completed: i64) -> Event {
    match action {
        Action::RecordTime { .. } => Event::Elapsed { ns: 1 },
        Action::WaitEpoch { .. }
        | Action::CheckRunning
        | Action::WaitNodeRoutes
        | Action::WaitMessages { .. }
        | Action::WaitTransfers => Event::Waited { reached: true },
        Action::ReadCounts => Event::Counts { counts: counts() },
        Action::SubtractTransfers { .. } => Event::TransfersBefore { count: completed },
        _ => Event::Done,
    }
}

/// Runs a round to its end, and lists its actions.
fn run(worker: &mut WorkerState, completed: i64) -> (Vec<Action>, Round) {
    let (mut round, mut action) = worker.step(2);
    let mut actions = Vec::new();
    while action != Action::Return {
        actions.push(action);
        action = round.next(worker, outcome(action, completed));
    }
    (actions, round)
}

fn timed(signal: Signal, kind: WaitKind) -> Vec<Action> {
    vec![Action::StartTimer, Action::WaitEpoch { signal }, Action::RecordTime { kind }]
}

#[test]
fn round_between_nodes_runs_its_course() {
    let mut worker = WorkerState::new(5, config(2), Vec::new(), Vec::new(), 0);
    let (actions, round) = run(&mut worker, 4);
    let mut expected = timed(Signal::DispatchRouteDone, WaitKind::WaitDispatchRoute);
    expected.extend([Action::CheckRunning, Action::SubmitRoutes]);
    expected.extend(timed(Signal::DispatchSendDone, WaitKind::WaitDispatchSend));
    expected.extend([
        Action::SetTxReady { ready: false },
        Action::CheckRunning,
        Action::ReadCounts,
        Action::SubmitInitial,
        Action::StartTimer,
        Action::WaitMessages { counter: MessageCounter::Route, target: 3 },
        Action::RecordTime { kind: WaitKind::RouteExchange },
        Action::StartTimer,
        Action::ReadCounts,
        Action::Upload,
        Action::RecordTime { kind: WaitKind::ProcessRouting },
        Action::SubmitDispatch,
        Action::StartTimer,
        Action::WaitDispatched { target: 6 },
        Action::RecordTime { kind: WaitKind::DispatchTransferWait },
    ]);
    expected.extend(timed(Signal::DispatchRecvDone, WaitKind::WaitDispatchRecv));
    expected.extend([
        Action::StartTimer,
        Action::SubmitBarrier { stage: Stage::Dispatch },
        Action::WaitMessages { counter: MessageCounter::DispatchBarrier, target: 3 },
        Action::SubtractTransfers { count: 4 },
        Action::SetTxReady { ready: true },
        Action::RecordTime { kind: WaitKind::DispatchBarrier },
    ]);
    expected.extend(timed(Signal::CombineSendDone, WaitKind::WaitCombineSend));
    expected.extend([
        Action::CheckRunning,
        Action::SubmitCombine,
        Action::StartTimer,
        Action::WaitMessages { counter: MessageCounter::Combine, target: 4 },
        Action::RecordTime { kind: WaitKind::CombineTransferWait },
        Action::SetCombineRecvFlag,
    ]);
    expected.extend(timed(Signal::CombineRecvDone, WaitKind::WaitCombineRecv));
    expected.extend([
        Action::StartTimer,
        Action::SubmitBarrier { stage: Stage::Combine },
        Action::WaitMessages { counter: MessageCounter::CombineBarrier, target: 3 },
        Action::SubtractTransfers { count: 2 },
        Action::SetTxReady { ready: true },
        Action::RecordTime { kind: WaitKind::CombineBarrier },
        Action::ReleaseSlot { slot: 5 },
    ]);
    assert_eq!(actions, expected);
    assert_eq!(worker.epoch, 2);
    assert_eq!(round.initial_ranges, vec![range(2, 64, 288, 0), range(3, 64, 416, 0)]);
    let info = round.routing.unwrap();
    assert_eq!(info.num_recv_tx, 6);
    assert_eq!(info.dispatch_ranges, vec![range(2, 64, 352, 256), range(3, 96, 480, 256)]);
    assert_eq!(info.combine_ranges, vec![range(2, 48, 96, 0), range(3, 64, 144, 0)]);
    let upload = round.upload.unwrap();
    assert_eq!(upload.num_recv_tokens, vec![13, 7, 0]);
    assert_eq!(upload.num_recv_tokens_ready, 1);
    assert_eq!(upload.plan.tokens_per_expert, vec![6, 7]);
    assert_eq!(worker.counters.dispatch.local, 96);
    assert_eq!(worker.counters.dispatch.nvlink, 192);
    assert_eq!(worker.counters.dispatch.network, 288);
    assert_eq!(worker.counters.dispatch.peer, vec![96, 192, 128, 160]);
    assert_eq!(worker.counters.combine.local, 48);
    assert_eq!(worker.counters.combine.nvlink, 48);
    assert_eq!(worker.counters.combine.network, 112);
    assert_eq!(worker.counters.combine.peer, vec![48, 48, 48, 64]);
    assert_eq!(worker.counters.times.wait_dispatch_route_ns, 1);
    assert_eq!(worker.counters.times.combine_barrier_ns, 1);
}

#[test]
fn submitted_transfers_are_taken_off_again() {
    let mut worker = WorkerState::new(0, config(2), Vec::new(), Vec::new(), 0);
    let (actions, _) = run(&mut worker, 0);
    let mut outstanding: i64 = 0;
    for action in actions {
        match action {
            Action::SubmitRoutes
            | Action::SubmitInitial
            | Action::SubmitDispatch
            | Action::SubmitCombine
            | Action::SubmitBarrier { .. } => outstanding += 1,
            Action::SubtractTransfers { count } => {
                outstanding -= count;
                assert_eq!(outstanding, 0);
            }
            _ => {}
        }
    }
}

#[test]
fn outstanding_transfers_are_waited_for() {
    let mut worker = WorkerState::new(0, config(2), Vec::new(), Vec::new(), 0);
    let (actions, _) = run(&mut worker, 3);
    let waits = actions.iter().filter(|action| **action == Action::WaitTransfers).count();
    assert_eq!(waits, 1);
    let at = actions.iter().position(|action| *action == Action::WaitTransfers).unwrap();
    assert_eq!(actions[at - 1], Action::SubtractTransfers { count: 4 });
    assert_eq!(actions[at + 1], Action::SetTxReady { ready: true });
}

#[test]
fn round_within_a_node_needs_no_barrier() {
    let ptrs: Vec<usize> = vec![1, 2, 3, 4];
    let mut worker = WorkerState::new(5, config(4), ptrs.clone(), ptrs, 0);
    let (actions, round) = run(&mut worker, 0);
    assert!(actions.contains(&Action::PublishNodeRoutes));
    assert!(actions.contains(&Action::WaitNodeRoutes));
    assert!(!actions.contains(&Action::SubmitRoutes));
    assert!(!actions.contains(&Action::SubmitInitial));
    assert!(!actions.contains(&Action::SubmitDispatch));
    assert!(!actions.contains(&Action::SubmitCombine));
    assert!(!actions.contains(&Action::SubmitBarrier { stage: Stage::Dispatch }));
    assert!(actions.contains(&Action::WaitDispatched { target: 0 }));
    assert!(actions
        .contains(&Action::WaitMessages { counter: MessageCounter::Combine, target: 0 }));
    let ready = actions.iter().filter(|action| **action == Action::SetTxReady { ready: true });
    assert_eq!(ready.count(), 2);
    assert_eq!(*actions.last().unwrap(), Action::ReleaseSlot { slot: 5 });
    assert!(round.initial_ranges.is_empty());
    assert_eq!(worker.epoch, 2);
}

#[test]
fn stopping_ends_the_round_without_a_release() {
    let mut worker = WorkerState::new(0, config(2), Vec::new(), Vec::new(), 0);
    let (complete, _) = run(&mut worker, 4);
    for stop in 0..complete.len() {
        let mut worker = WorkerState::new(0, config(2), Vec::new(), Vec::new(), 0);
        let (mut round, mut action) = worker.step(2);
        for expected in &complete[..stop] {
            assert_eq!(action, *expected);
            action = round.next(&mut worker, outcome(action, 4));
        }
        if let Event::Waited { .. } = outcome(action, 4) {
            let next = round.next(&mut worker, Event::Waited { reached: false });
            assert_eq!(next, Action::Return);
            assert_eq!(worker.epoch, 1);
        }
    }
}

#[test]
fn complete_rounds_release_once_at_the_end_when_ready() {
    for (node_size, completed) in [(2, 4), (2, 0), (4, 0)] {
        let mut worker = WorkerState::new(3, config(node_size), Vec::new(), Vec::new(), 0);
        let (actions, _) = run(&mut worker, completed);
        let releases =
            actions.iter().filter(|action| matches!(action, Action::ReleaseSlot { .. })).count();
        assert_eq!(releases, 1);
        assert_eq!(*actions.last().unwrap(), Action::ReleaseSlot { slot: 3 });
        let ready =
            actions.iter().rev().find(|action| matches!(action, Action::SetTxReady { .. }));
        assert_eq!(ready, Some(&Action::SetTxReady { ready: true }));
        assert_eq!(worker.epoch, 2);
    }
}

#[test]
fn epochs_wrap() {
    let mut worker = WorkerState::new(0, config(2), Vec::new(), Vec::new(), 0);
    worker.epoch = u32::MAX;
    run(&mut worker, 4);
    assert_eq!(worker.epoch, 0);
}

fn worker(config: ContextConfig) -> WorkerState {
    WorkerState::new(0, config, Vec::new(), Vec::new(), 0)
}

#[test]
fn counts_are_checked_before_they_are_used() {
    let worker = worker(config(2));
    assert!(worker.check_initial_counts(&counts(), 2));
    assert!(worker.check_counts(&counts(), 2));
    assert!(!worker.check_counts(&counts()[..31].to_vec(), 2));
    assert!(!worker.check_initial_counts(&counts()[..31].to_vec(), 2));
    let mut many = counts();
    many[31] = u32::MAX;
    assert!(worker.check_counts(&many, 2));
    many[25] = u32::MAX;
    assert!(worker.check_initial_counts(&many, 2));
    assert!(!worker.check_counts(&many, 2));
    many = counts();
    many[0] = u32::MAX;
    assert!(worker.check_initial_counts(&many, 2));
    assert!(!worker.check_counts(&many, 2));
    assert!(worker.check_ready(u32::MAX / 2));
    assert!(!worker.check_ready(u32::MAX));
    assert!(!worker.check_counts(&counts(), u32::MAX));
    assert!(!worker.check_initial_counts(&counts(), u32::MAX));
}

#[test]
fn rounds_check_counts_by_what_they_do_next() {
    let mut worker = worker(config(2));
    let mut many = counts();
    many[0] = u32::MAX;
    let (mut round, mut action) = worker.step(2);
    while action != Action::ReadCounts {
        action = round.next(&mut worker, outcome(action, 4));
    }
    assert!(round.check_counts(&worker, &many));
    action = round.next(&mut worker, Event::Counts { counts: counts() });
    while action != Action::ReadCounts {
        action = round.next(&mut worker, outcome(action, 4));
    }
    assert!(round.check_counts(&worker, &counts()));
    assert!(!round.check_counts(&worker, &many));
}

#[test]
fn sizes_are_checked_before_they_are_used() {
    let counts = counts();
    let fits = |change: &dyn Fn(&mut ContextConfig)| {
        let mut config = config(2);
        change(&mut config);
        worker(config).check_counts(&counts, 2)
    };
    assert!(fits(&|_| {}));
    assert!(!fits(&|config| config.node_size = 0));
    assert!(!fits(&|config| config.node_size = 5));
    assert!(fits(&|config| config.node_size = 3));
    assert!(!fits(&|config| {
        config.node_size = 3;
        config.rank = 3;
    }));
    assert!(!fits(&|config| config.rank = 4));
    assert!(!fits(&|config| config.num_experts = usize::MAX));
    assert!(!fits(&|config| config.hidden_dim = usize::MAX));
    assert!(!fits(&|config| config.max_private_tokens = usize::MAX));
    assert!(!fits(&|config| config.max_tokens_per_expert = usize::MAX));
    assert!(!fits(&|config| {
        config.max_tokens_per_expert = 0;
        config.expert_padding = 0;
    }));
    assert!(fits(&|config| config.max_tokens_per_expert = 0));
}

#[test]
fn rows_are_limited_by_the_local_experts() {
    let mut config = config(8);
    config.world_size = 8;
    config.num_experts = 256;
    config.max_tokens_per_expert = 1 << 25;
    let mut counts: Vec<u32> = vec![1; 8 * 256];
    assert!(worker(config).check_counts(&counts, 2));
    config.rank = 7;
    assert!(worker(config).check_counts(&counts, 2));
    config.max_tokens_per_expert = 1 << 28;
    assert!(worker(config).check_counts(&counts, 2));
    config.max_tokens_per_expert = u32::MAX as usize;
    assert!(!worker(config).check_counts(&counts, 2));
    config.max_tokens_per_expert = 0;
    config.expert_padding = 1 << 27;
    assert!(!worker(config).check_counts(&counts, 2));
    config.expert_padding = 1 << 26;
    assert!(worker(config).check_counts(&counts, 2));
    counts[255] = u32::MAX;
    assert!(!worker(config).check_counts(&counts, 2));
}

#[test]
fn overflow_is_limited_by_what_a_peer_receives_before_it() {
    let mut config = config(2);
    config.rank = 1;
    config.hidden_dim = 1 << 32;
    let mut many = counts();
    many[4] = u32::MAX;
    assert!(worker(config).check_counts(&many, 2));
    many[12] = 3;
    assert!(!worker(config).check_counts(&many, 2));
    many[12] = 2;
    assert!(worker(config).check_counts(&many, 2));
    config.hidden_dim = 8;
    many[12] = 3;
    assert!(worker(config).check_counts(&many, 2));
}

#[test]
fn rounds_end_early_only_when_stopped() {
    let mut worker = worker(config(2));
    worker.stop();
    let (mut round, mut action) = worker.step(2);
    assert_eq!(action, Action::StartTimer);
    action = round.next(&mut worker, Event::Done);
    assert_eq!(action, Action::WaitEpoch { signal: Signal::DispatchRouteDone });
    let reached = worker.is_running();
    assert!(!reached);
    assert_eq!(round.next(&mut worker, Event::Waited { reached }), Action::Return);
    assert_eq!(worker.epoch, 1);
}

#[test]
fn counters_only_grow() {
    let mut worker = worker(config(2));
    let mut before = worker.counters.clone();
    for _ in 0..3 {
        let (mut round, mut action) = worker.step(2);
        while action != Action::Return {
            action = round.next(&mut worker, outcome(action, 4));
            let after = worker.counters.clone();
            for (now, was) in [(&after.dispatch, &before.dispatch), (&after.combine, &before.combine)]
            {
                assert!(now.local >= was.local);
                assert!(now.nvlink >= was.nvlink);
                assert!(now.network >= was.network);
                assert!(now.peer.iter().zip(&was.peer).all(|(now, was)| now >= was));
            }
            assert!(after.times.route_exchange_ns >= before.times.route_exchange_ns);
            assert!(after.times.combine_barrier_ns >= before.times.combine_barrier_ns);
            before = after;
        }
    }
    assert_eq!(before.dispatch.peer, vec![288, 576, 384, 480]);
    assert_eq!(before.combine.network, 336);
    assert_eq!(before.times.wait_dispatch_route_ns, 3);
}
