use p2p_all_to_all::config::ContextConfig;
use p2p_all_to_all::ranges::ScatterRange;
use p2p_all_to_all::worker::{
    poll_epoch, poll_transfers, route_table, MicrobatchSlot, NodeRouteRow, StopSignal, WaitPoll, WorkerState,
};

fn config(rank: usize, dp_size: usize, node_size: usize, world_size: usize) -> ContextConfig {
    ContextConfig {
        hidden_dim: 8,
        hidden_dim_scale: 0,
        in_elemsize: 2,
        out_elemsize: 2,
        scale_elemsize: 0,
        num_experts: 8,
        max_num_tokens: 32,
        max_recv_tokens: 64,
        max_tokens_per_expert: 8,
        expert_padding: 1,
        num_experts_per_token: 2,
        max_private_tokens: 2,
        rank,
        dp_size,
        node_size,
        world_size,
    }
}

fn worker(rank: usize, dp_size: usize, node_size: usize, world_size: usize) -> WorkerState {
    let config = config(rank, dp_size, node_size, world_size);
    WorkerState::new(3, config, Vec::new(), Vec::new(), 100)
}

#[test]
fn token_sizes_are_aligned() {
    let mut config = config(0, 1, 2, 4);
    assert_eq!(config.get_dispatch_token_dim(), 32);
    assert_eq!(config.get_combine_token_dim(), 16);
    config.hidden_dim = 7168;
    config.in_elemsize = 1;
    config.hidden_dim_scale = 56;
    config.scale_elemsize = 4;
    assert_eq!(config.get_dispatch_token_dim(), 7168 + 224 + 16);
    assert_eq!(config.get_combine_token_dim(), 14336);
    config.hidden_dim = 5;
    config.in_elemsize = 3;
    config.hidden_dim_scale = 1;
    assert_eq!(config.get_dispatch_token_dim(), 16 + 16 + 16);
    assert_eq!(config.num_local_experts(), 2);
}

#[test]
fn new_worker_is_in_its_first_round() {
    let worker = worker(3, 2, 4, 8);
    assert_eq!(worker.slot_idx, 3);
    assert_eq!(worker.dp_rank, 1);
    assert_eq!(worker.dp_group, 1);
    assert_eq!(worker.route_imm, 100);
    assert_eq!(worker.dispatch_imm, 101);
    assert_eq!(worker.combine_imm, 102);
    assert_eq!(worker.dispatch_barrier_imm, 103);
    assert_eq!(worker.combine_barrier_imm, 104);
    assert_eq!(worker.epoch(), 1);
    assert!(worker.is_running());
    assert_eq!(worker.counters.dispatch.peer, vec![0; 8]);
}

#[test]
fn stopping_releases_the_current_round() {
    let mut worker = worker(0, 1, 2, 4);
    worker.epoch = 9;
    assert_eq!(worker.stop(), StopSignal { epoch: 9, tx_ready: true });
    assert!(!worker.is_running());
    assert_eq!(worker.epoch(), 9);
}

#[test]
fn any_error_is_a_failure() {
    let worker = worker(0, 1, 2, 4);
    assert!(!worker.failed(0));
    assert!(worker.failed(1));
    assert!(worker.failed(-1));
}

#[test]
fn slot_buffers_follow_the_sizes() {
    let slot = worker(0, 1, 2, 4).slot_sizes();
    assert_eq!(slot, MicrobatchSlot::new(2, 4, 64));
    assert_eq!(slot.tokens_per_expert, 2);
    assert_eq!(slot.source_rank, 64);
    assert_eq!(slot.padded_index, 64);
    assert_eq!(slot.source_dispatch_offset, 64);
    assert_eq!(slot.combine_send_offset, 64);
    assert_eq!(slot.layout_range, 8);
    assert_eq!(slot.num_recv_tokens, 3);
}

#[test]
fn slots_start_ready_with_nothing_reached() {
    let flags = worker(0, 1, 2, 4).slot_sizes().initial;
    assert_eq!(flags.dispatch_route_done, 0);
    assert_eq!(flags.dispatch_send_done, 0);
    assert_eq!(flags.dispatch_recv_done, 0);
    assert_eq!(flags.combine_send_done, 0);
    assert_eq!(flags.combine_recv_done, 0);
    assert_eq!(flags.num_recv_tokens_ready, 0);
    assert_eq!(flags.num_recv_tokens, 0);
    assert!(flags.tx_ready);
    assert!(!flags.dispatch_recv_flag);
    assert!(!flags.combine_recv_flag);
}

#[test]
fn counts_are_laid_out_row_after_row() {
    let worker = worker(0, 1, 2, 4);
    let counts: Vec<u32> = (0..32).collect();
    assert_eq!(worker.get_num_routed(&counts, 2, 5), 21);
    let rows = route_table(4, 8, &counts);
    assert_eq!(rows.len(), 4);
    assert_eq!(rows[3], vec![24, 25, 26, 27, 28, 29, 30, 31]);
}

#[test]
fn route_counts_go_to_the_peers_of_other_groups() {
    let row = |peer_rank: usize, offset: u64| ScatterRange {
        peer_rank,
        length: 32,
        src_offset: offset,
        dst_offset: offset,
    };
    assert_eq!(worker(3, 2, 4, 8).route_targets(), vec![row(5, 32), row(7, 32), row(1, 32)]);
    assert_eq!(worker(0, 1, 2, 4).route_targets(), vec![row(1, 0), row(2, 0), row(3, 0)]);
    assert_eq!(worker(0, 1, 1, 1).route_targets(), Vec::new());
    assert_eq!(worker(1, 4, 4, 4).route_targets(), Vec::new());
}

#[test]
fn barriers_reach_all_other_ranks() {
    assert_eq!(worker(2, 1, 2, 4).barrier_peers(), vec![3, 0, 1]);
    assert_eq!(worker(0, 1, 1, 1).barrier_peers(), Vec::<usize>::new());
}

#[test]
fn node_exchange_needs_one_node_and_all_addresses() {
    let ptrs: Vec<usize> = vec![10, 11, 12, 13];
    let full = WorkerState::new(0, config(3, 2, 4, 4), ptrs.clone(), ptrs.clone(), 0);
    assert!(full.has_node_route_exchange());
    let short = WorkerState::new(0, config(3, 2, 4, 4), ptrs.clone(), vec![1, 2], 0);
    assert!(!short.has_node_route_exchange());
    let none = WorkerState::new(0, config(3, 2, 4, 4), Vec::new(), ptrs.clone(), 0);
    assert!(!none.has_node_route_exchange());
    let nodes = WorkerState::new(0, config(3, 2, 2, 4), ptrs.clone(), ptrs, 0);
    assert!(!nodes.has_node_route_exchange());
}

#[test]
fn node_rows_are_shared_by_group() {
    let counts: Vec<usize> = vec![10, 11, 12, 13];
    let epochs: Vec<usize> = vec![20, 21, 22, 23];
    let worker = WorkerState::new(0, config(3, 2, 4, 4), counts, epochs, 0);
    assert_eq!(
        worker.publish_local_node_route_counts(),
        NodeRouteRow { count_ptr: 13, epoch_ptr: 23, start: 8, len: 8 }
    );
    assert_eq!(
        worker.wait_node_route_counts(),
        vec![
            NodeRouteRow { count_ptr: 11, epoch_ptr: 21, start: 0, len: 8 },
            NodeRouteRow { count_ptr: 13, epoch_ptr: 23, start: 8, len: 8 },
        ]
    );
}

#[test]
fn epochs_are_looked_at_before_stopping() {
    assert_eq!(poll_epoch(4, 4, true), WaitPoll::Ready);
    assert_eq!(poll_epoch(4, 4, false), WaitPoll::Ready);
    assert_eq!(poll_epoch(3, 4, false), WaitPoll::Stopped);
    assert_eq!(poll_epoch(3, 4, true), WaitPoll::Again);
    assert_eq!(poll_epoch(5, 4, true), WaitPoll::Again);
}

#[test]
fn transfers_are_over_once_none_is_outstanding() {
    assert_eq!(poll_transfers(0, true), WaitPoll::Ready);
    assert_eq!(poll_transfers(3, false), WaitPoll::Ready);
    assert_eq!(poll_transfers(-1, false), WaitPoll::Stopped);
    assert_eq!(poll_transfers(-1, true), WaitPoll::Again);
}
