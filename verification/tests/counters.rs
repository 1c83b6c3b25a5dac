use p2p_all_to_all::counters::{
    check_sums, sum_counters, ByteCounters, WaitKind, WaitTimes, WorkerCounters,
};

#[test]
fn traffic_is_counted_by_link_and_peer() {
    let mut counters = ByteCounters::new(4);
    counters.record(1, 2, &vec![0, 1, 2, 3], &vec![1, 2, 3, 0], 10);
    assert_eq!(counters.local, 20);
    assert_eq!(counters.nvlink, 10);
    assert_eq!(counters.network, 30);
    assert_eq!(counters.peer, vec![10, 20, 30, 0]);
    let by_link = counters.local + counters.nvlink + counters.network;
    let by_peer: u64 = counters.peer.iter().sum();
    assert_eq!(by_link, 60);
    assert_eq!(by_peer, 60);
}

#[test]
fn counters_wrap() {
    let mut counters = ByteCounters::new(1);
    counters.local = u64::MAX;
    counters.record(0, 1, &vec![0], &vec![2], 10);
    assert_eq!(counters.local, 19);
    assert_eq!(counters.peer, vec![20]);
}

#[test]
fn long_times_count_as_the_largest() {
    let mut times = WaitTimes::new();
    times.add_elapsed_ns(WaitKind::RouteExchange, 7);
    assert_eq!(times.route_exchange_ns, 7);
    times.add_elapsed_ns(WaitKind::CombineBarrier, u128::MAX);
    assert_eq!(times.combine_barrier_ns, u64::MAX);
    times.add_elapsed_ns(WaitKind::CombineBarrier, 3);
    assert_eq!(times.combine_barrier_ns, 2);
    assert_eq!(times.wait_dispatch_route_ns, 0);
}

#[test]
fn every_kind_of_time_has_its_counter() {
    let kinds = [
        WaitKind::WaitDispatchRoute,
        WaitKind::RouteExchange,
        WaitKind::ProcessRouting,
        WaitKind::WaitDispatchSend,
        WaitKind::DispatchTransferWait,
        WaitKind::WaitDispatchRecv,
        WaitKind::DispatchBarrier,
        WaitKind::WaitCombineSend,
        WaitKind::CombineTransferWait,
        WaitKind::WaitCombineRecv,
        WaitKind::CombineBarrier,
    ];
    let mut worker = WorkerCounters::new(1);
    for (i, kind) in kinds.iter().enumerate() {
        worker.times.add_elapsed_ns(*kind, i as u128 + 1);
    }
    let stats = sum_counters(&vec![worker], 1);
    assert_eq!(stats.wait_dispatch_route_ns, 1);
    assert_eq!(stats.route_exchange_ns, 2);
    assert_eq!(stats.process_routing_ns, 3);
    assert_eq!(stats.wait_dispatch_send_ns, 4);
    assert_eq!(stats.dispatch_transfer_wait_ns, 5);
    assert_eq!(stats.wait_dispatch_recv_ns, 6);
    assert_eq!(stats.dispatch_barrier_ns, 7);
    assert_eq!(stats.wait_combine_send_ns, 8);
    assert_eq!(stats.combine_transfer_wait_ns, 9);
    assert_eq!(stats.wait_combine_recv_ns, 10);
    assert_eq!(stats.combine_barrier_ns, 11);
}

#[test]
fn statistics_add_up_the_workers() {
    let mut first = WorkerCounters::new(2);
    first.dispatch.local = 1;
    first.dispatch.nvlink = 2;
    first.dispatch.network = 3;
    first.combine.local = 4;
    first.combine.nvlink = 5;
    first.combine.network = 6;
    first.dispatch.peer = vec![7, 8];
    first.combine.peer = vec![9];
    let mut second = first.clone();
    second.combine.peer = vec![1, 2, 3];
    let stats = sum_counters(&vec![first, second], 2);
    assert_eq!(stats.local_dispatch_bytes, 2);
    assert_eq!(stats.nvlink_dispatch_bytes, 4);
    assert_eq!(stats.network_dispatch_bytes, 6);
    assert_eq!(stats.local_combine_bytes, 8);
    assert_eq!(stats.nvlink_combine_bytes, 10);
    assert_eq!(stats.network_combine_bytes, 12);
    assert_eq!(stats.peer_dispatch_bytes, vec![14, 16]);
    assert_eq!(stats.peer_combine_bytes, vec![10, 2]);
}

#[test]
fn no_workers_give_zeros() {
    let stats = sum_counters(&Vec::new(), 3);
    assert_eq!(stats.local_dispatch_bytes, 0);
    assert_eq!(stats.peer_dispatch_bytes, vec![0, 0, 0]);
    assert_eq!(stats.peer_combine_bytes, vec![0, 0, 0]);
}

#[test]
fn sums_beyond_64_bits_are_noticed() {
    let mut worker = WorkerCounters::new(2);
    worker.combine.network = u64::MAX;
    worker.times.combine_barrier_ns = 1;
    let zero = WorkerCounters::new(2);
    assert!(check_sums(&vec![worker.clone(), zero.clone()], 2));
    assert!(!check_sums(&vec![worker.clone(), worker], 2));
    let mut peers = zero.clone();
    peers.dispatch.peer = vec![0, u64::MAX];
    assert!(check_sums(&vec![peers.clone(), peers.clone()], 1));
    assert!(!check_sums(&vec![peers.clone(), peers], 2));
    let mut peers = zero;
    peers.combine.peer = vec![u64::MAX];
    assert!(!check_sums(&vec![peers.clone(), peers], 2));
}

#[test]
fn statistics_repeat_and_never_shrink() {
    let mut workers = vec![WorkerCounters::new(2), WorkerCounters::new(2)];
    workers[0].dispatch.record(0, 1, &vec![0, 1], &vec![3, 4], 10);
    workers[1].combine.record(0, 2, &vec![1], &vec![5], 10);
    let first = sum_counters(&workers, 2);
    assert_eq!(first, sum_counters(&workers, 2));
    assert_eq!(first.peer_dispatch_bytes, vec![30, 40]);
    assert_eq!(first.nvlink_combine_bytes, 50);
    workers[1].dispatch.record(0, 1, &vec![0, 1], &vec![1, 0], 10);
    workers[0].times.add_elapsed_ns(WaitKind::RouteExchange, 9);
    let second = sum_counters(&workers, 2);
    assert_eq!(second.local_dispatch_bytes, first.local_dispatch_bytes + 10);
    assert_eq!(second.network_dispatch_bytes, first.network_dispatch_bytes);
    assert_eq!(second.peer_dispatch_bytes, vec![40, 40]);
    assert_eq!(second.peer_combine_bytes, first.peer_combine_bytes);
    assert_eq!(second.route_exchange_ns, 9);
}
