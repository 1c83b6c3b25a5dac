use p2p_all_to_all::config::ContextConfig;
use p2p_all_to_all::context::{
    check_rank_descriptors, AllToAllContext, CombineRecvLaunch, CombineSendLaunch,
    ContextBuffers, DispatchRecvLaunch, LaunchOutcome,
};
use p2p_all_to_all::counters::WorkerCounters;
use p2p_all_to_all::handles::{ContextError, HandlePhase, Kernel, SlotGenerationState};
use p2p_all_to_all::workspace::DeviceBuffer;

const LAUNCHED: LaunchOutcome = LaunchOutcome::Launched { transfer_errors: 0 };

fn config() -> ContextConfig {
    ContextConfig {
        hidden_dim: 16,
        hidden_dim_scale: 1,
        in_elemsize: 2,
        out_elemsize: 4,
        scale_elemsize: 4,
        num_experts: 8,
        max_num_tokens: 4,
        max_recv_tokens: 64,
        max_tokens_per_expert: 8,
        expert_padding: 1,
        num_experts_per_token: 2,
        max_private_tokens: 2,
        rank: 0,
        dp_size: 1,
        node_size: 2,
        world_size: 4,
    }
}

fn buffers(slots: usize) -> ContextBuffers {
    ContextBuffers {
        num_routed_ptrs: slots,
        num_routed_mrs: slots,
        send_buffer_ptrs: slots,
        send_buffer_mrs: slots,
        recv_buffer_ptrs: slots,
        recv_buffer_mrs: slots,
        rank_handles: slots,
        sync_ptrs: vec![vec![1]; slots],
        send_ptrs: vec![vec![]; slots],
        recv_ptrs: vec![vec![2]; slots],
        node_route_count_ptrs: vec![vec![5, 6]; slots],
        node_route_epoch_ptrs: vec![vec![7]; slots],
    }
}

fn context(slots: usize) -> AllToAllContext {
    match AllToAllContext::new(config(), &buffers(slots), 100, slots, 132) {
        Ok(parts) => parts.context,
        Err(error) => panic!("{:?}", error),
    }
}

fn refusal(buffers: &ContextBuffers) -> ContextError {
    match AllToAllContext::new(config(), buffers, 0, 2, 1) {
        Ok(_) => panic!("accepted"),
        Err(error) => error,
    }
}

fn sent(context: &mut AllToAllContext, num_tokens: usize) -> (usize, u64) {
    let launch = context.dispatch_send(num_tokens).unwrap().unwrap();
    let handle = context.dispatch_sent(launch.slot, num_tokens, LAUNCHED).unwrap();
    (handle.slot, handle.generation)
}

#[test]
fn context_starts_with_idle_slots() {
    let parts = match AllToAllContext::new(config(), &buffers(2), 100, 2, 132) {
        Ok(parts) => parts,
        Err(error) => panic!("{:?}", error),
    };
    assert_eq!(parts.context.handles.next_generation, 1);
    assert_eq!(parts.context.handles.slot_states, vec![SlotGenerationState::Idle; 2]);
    assert_eq!(parts.context.slot_pool.len(), 2);
    assert!(!parts.context.uses_node_route_exchange());
    assert_eq!(parts.workspaces.len(), 2);
    assert_eq!(parts.workspaces[1].expert_offsets, DeviceBuffer { bytes: 32, zeroed: true });
    assert_eq!(parts.workspaces[1].token_offset, DeviceBuffer { bytes: 32, zeroed: false });
    assert_eq!(parts.workspaces[1].sync_ptrs, Some(vec![1]));
    assert_eq!(parts.workspaces[1].send_ptrs, None);
    assert_eq!(parts.workspaces[1].recv_ptrs, Some(vec![2]));
    assert_eq!(parts.workers.len(), 2);
    assert_eq!(parts.workers[0].route_imm, 100);
    assert_eq!(parts.workers[0].combine_barrier_imm, 104);
    assert_eq!(parts.workers[1].route_imm, 105);
    assert_eq!(parts.workers[1].combine_barrier_imm, 109);
    assert_eq!(parts.workers[1].slot_idx, 1);
    assert_eq!(parts.workers[1].node_route_count_ptrs, vec![5, 6]);
    assert_eq!(parts.workers[1].node_route_epoch_ptrs, vec![7]);
    for worker in &parts.workers {
        assert_eq!(worker.counters.dispatch.local, 0);
        assert_eq!(worker.counters.dispatch.network, 0);
        assert_eq!(worker.counters.dispatch.peer, vec![0; 4]);
        assert_eq!(worker.counters.combine.nvlink, 0);
        assert_eq!(worker.counters.combine.peer, vec![0; 4]);
        assert_eq!(worker.counters.times.wait_dispatch_route_ns, 0);
        assert_eq!(worker.counters.times.combine_barrier_ns, 0);
    }
}

#[test]
fn context_has_at_least_one_slot() {
    match AllToAllContext::new(config(), &buffers(1), 0, 0, 1) {
        Ok(parts) => assert_eq!(parts.workers.len(), 1),
        Err(error) => panic!("{:?}", error),
    }
}

#[test]
fn one_node_with_all_addresses_exchanges_routes_itself() {
    let mut config = config();
    config.node_size = 4;
    let mut buffers = buffers(1);
    buffers.node_route_count_ptrs = vec![vec![1, 2, 3, 4]];
    buffers.node_route_epoch_ptrs = vec![vec![1, 2, 3, 4]];
    match AllToAllContext::new(config, &buffers, 0, 1, 1) {
        Ok(parts) => assert!(parts.context.uses_node_route_exchange()),
        Err(error) => panic!("{:?}", error),
    }
}

#[test]
fn wrong_numbers_of_buffers_are_refused() {
    let mut wrong = buffers(2);
    wrong.num_routed_mrs = 1;
    wrong.rank_handles = 5;
    assert_eq!(
        refusal(&wrong),
        ContextError::RoutedBuffers { expected: 2, ptrs: 2, mrs: 1 }
    );
    let mut wrong = buffers(2);
    wrong.recv_buffer_ptrs = 3;
    assert_eq!(
        refusal(&wrong),
        ContextError::PayloadBuffers {
            expected: 2,
            send_ptrs: 2,
            send_mrs: 2,
            recv_ptrs: 3,
            recv_mrs: 2,
        }
    );
    let mut wrong = buffers(2);
    wrong.rank_handles = 5;
    assert_eq!(refusal(&wrong), ContextError::RankHandleSets { expected: 2, got: 5 });
    let mut wrong = buffers(2);
    wrong.send_ptrs = vec![];
    assert_eq!(
        refusal(&wrong),
        ContextError::NvlinkPointerSets { expected: 2, sync: 2, send: 0, recv: 2 }
    );
    let mut wrong = buffers(2);
    wrong.node_route_epoch_ptrs = vec![vec![]];
    assert_eq!(
        refusal(&wrong),
        ContextError::NodeRoutePointerSets { expected: 2, counts: 2, epochs: 1 }
    );
}

#[test]
fn ranks_give_one_descriptor_per_slot() {
    assert_eq!(check_rank_descriptors(2, 2, 2), None);
    assert_eq!(check_rank_descriptors(0, 1, 1), None);
    assert_eq!(
        check_rank_descriptors(2, 1, 3),
        Some(ContextError::RoutedDescriptors { expected: 2, got: 1 })
    );
    assert_eq!(
        check_rank_descriptors(0, 1, 3),
        Some(ContextError::RecvDescriptors { expected: 1, got: 3 })
    );
}

#[test]
fn dispatch_reserves_slots_in_turn() {
    let mut context = context(2);
    let launch = context.dispatch_send(3).unwrap().unwrap();
    assert_eq!(launch.slot, 0);
    assert_eq!(launch.num_tokens, 3);
    assert_eq!(launch.num_blocks, 132);
    assert_eq!(launch.hidden_dim, 16);
    assert_eq!(launch.hidden_dim_scale, 1);
    assert_eq!(launch.num_experts, 8);
    assert_eq!(launch.num_experts_per_token, 2);
    assert_eq!(launch.max_private_tokens, 2);
    assert_eq!(launch.rank, 0);
    assert_eq!(launch.dp_size, 1);
    assert_eq!(launch.node_size, 2);
    assert_eq!(launch.world_size, 4);
    assert_eq!(launch.in_elemsize, 2);
    assert_eq!(launch.scale_elemsize, 4);
    assert_eq!(context.dispatch_send(4).unwrap().unwrap().slot, 1);
    assert_eq!(context.dispatch_send(4), Ok(None));
    assert_eq!(context.dispatch_send(5), Err(ContextError::TooManyTokens));
    assert!(context.release_slot(1));
    assert!(!context.release_slot(1));
    assert_eq!(context.dispatch_send(4).unwrap().unwrap().slot, 1);
}

#[test]
fn dispatch_reserves_a_particular_slot() {
    let mut context = context(2);
    assert_eq!(context.dispatch_send_on_slot(1, 2).unwrap().unwrap().slot, 1);
    assert_eq!(context.dispatch_send_on_slot(1, 2), Ok(None));
    assert_eq!(
        context.dispatch_send_on_slot(2, 2),
        Err(ContextError::SlotUnavailable { slot: 2 })
    );
    assert_eq!(context.dispatch_send_on_slot(0, 5), Err(ContextError::TooManyTokens));
    assert_eq!(context.dispatch_send(2).unwrap().unwrap().slot, 0);
}

#[test]
fn calls_follow_the_phases_of_a_dispatch() {
    let mut context = context(1);
    let (slot, generation) = sent(&mut context, 3);
    assert_eq!((slot, generation), (0, 1));
    assert_eq!(
        context.dispatch_recv(slot, generation),
        Ok(DispatchRecvLaunch {
            num_blocks: 132,
            hidden_dim: 16,
            hidden_dim_scale: 1,
            in_elemsize: 2,
            scale_elemsize: 4,
            num_experts: 8,
            rank: 0,
            dp_size: 1,
            node_size: 2,
            world_size: 4,
        })
    );
    assert_eq!(context.dispatch_received(slot, generation, LAUNCHED), Ok(()));
    assert_eq!(
        context.combine_send(slot, generation),
        Ok(CombineSendLaunch {
            num_blocks: 132,
            hidden_dim: 16,
            out_elemsize: 4,
            rank: 0,
            node_size: 2,
            dp_size: 1,
        })
    );
    assert_eq!(context.combine_sent(slot, generation, LAUNCHED), Ok(()));
    assert_eq!(
        context.combine_recv(slot, generation, 3, 9),
        Ok(CombineRecvLaunch {
            num_blocks: 132,
            hidden_dim: 16,
            out_elemsize: 4,
            num_experts: 8,
            num_experts_per_token: 2,
            rank: 0,
            node_size: 2,
            world_size: 4,
            num_tokens: 3,
            num_recv_tokens: 9,
            max_recv_tokens: 64,
        })
    );
    assert_eq!(context.combine_received(slot, generation, LAUNCHED), Ok(()));
    assert_eq!(context.handles.slot_states, vec![SlotGenerationState::Idle]);
}

#[test]
fn calls_out_of_turn_are_refused() {
    let mut context = context(1);
    let (slot, generation) = sent(&mut context, 3);
    let found = SlotGenerationState::DispatchSent { generation: 1, num_tokens: 3 };
    let stale = |expected: HandlePhase, generation: u64| ContextError::StaleHandle {
        slot: 0,
        generation,
        expected,
        found,
    };
    assert_eq!(
        context.dispatch_recv(slot, 2),
        Err(stale(HandlePhase::DispatchSent, 2))
    );
    assert_eq!(
        context.combine_send(slot, generation),
        Err(stale(HandlePhase::DispatchReceived, 1))
    );
    assert_eq!(
        context.combine_recv(slot, generation, 3, 0),
        Err(stale(HandlePhase::CombineSent, 1))
    );
    assert_eq!(context.dispatch_recv(7, 1), Err(ContextError::InvalidSlot { slot: 7 }));
}

#[test]
fn combine_checks_the_number_of_tokens() {
    let mut context = context(1);
    let (slot, generation) = sent(&mut context, 3);
    context.dispatch_received(slot, generation, LAUNCHED).unwrap();
    context.combine_sent(slot, generation, LAUNCHED).unwrap();
    assert_eq!(
        context.combine_recv(slot, generation, 2, 9),
        Err(ContextError::TokenCountMismatch { slot: 0, expected: 3, got: 2 })
    );
}

#[test]
fn failed_launches_leave_the_slot_reserved() {
    let mut context = context(1);
    let launch = context.dispatch_send(3).unwrap().unwrap();
    assert_eq!(
        context.dispatch_sent(launch.slot, 3, LaunchOutcome::Failed),
        Err(ContextError::KernelFailed { kernel: Kernel::DispatchSend, slot: 0 })
    );
    let errors = LaunchOutcome::Launched { transfer_errors: 2 };
    assert_eq!(
        context.dispatch_sent(launch.slot, 3, errors),
        Err(ContextError::TransferFailed { kernel: Kernel::DispatchSend, slot: 0 })
    );
    assert_eq!(context.handles.next_generation, 1);
    assert_eq!(context.handles.slot_states, vec![SlotGenerationState::Idle]);
    assert_eq!(context.dispatch_send(3), Ok(None));
}

#[test]
fn failed_launches_leave_the_phase_as_it_was() {
    let mut context = context(1);
    let (slot, generation) = sent(&mut context, 3);
    let errors = LaunchOutcome::Launched { transfer_errors: -1 };
    assert_eq!(
        context.dispatch_received(slot, generation, LaunchOutcome::Failed),
        Err(ContextError::KernelFailed { kernel: Kernel::DispatchRecv, slot: 0 })
    );
    assert_eq!(
        context.dispatch_received(slot, generation, errors),
        Err(ContextError::TransferFailed { kernel: Kernel::DispatchRecv, slot: 0 })
    );
    context.dispatch_received(slot, generation, LAUNCHED).unwrap();
    assert_eq!(
        context.combine_sent(slot, generation, LaunchOutcome::Failed),
        Err(ContextError::KernelFailed { kernel: Kernel::CombineSend, slot: 0 })
    );
    context.combine_sent(slot, generation, LAUNCHED).unwrap();
    assert_eq!(
        context.combine_received(slot, generation, errors),
        Err(ContextError::TransferFailed { kernel: Kernel::CombineRecv, slot: 0 })
    );
    assert_eq!(
        context.handles.slot_states,
        vec![SlotGenerationState::CombineSent { generation: 1, num_tokens: 3 }]
    );
}

#[test]
fn busy_slots_take_no_second_dispatch() {
    let mut context = context(1);
    sent(&mut context, 3);
    assert!(context.release_slot(0));
    context.dispatch_send(1).unwrap().unwrap();
    let found = SlotGenerationState::DispatchSent { generation: 1, num_tokens: 3 };
    assert_eq!(
        context.dispatch_sent(0, 1, LAUNCHED),
        Err(ContextError::NotIdle { slot: 0, found })
    );
    assert_eq!(context.handles.next_generation, 3);
}

#[test]
fn workspace_holds_aligned_tensors() {
    let layout = context(1).low_latency_workspace_layout();
    assert_eq!(layout.alignment, 256);
    assert_eq!(layout.total_bytes, 2048);
    let tensors: Vec<(&str, usize, usize, Vec<usize>, &str)> = layout
        .tensors
        .iter()
        .map(|tensor| {
            (tensor.name, tensor.offset_bytes, tensor.nbytes, tensor.shape.clone(), tensor.dtype)
        })
        .collect();
    assert_eq!(
        tensors,
        vec![
            ("expert_num_tokens", 0, 8, vec![2], "int32"),
            ("expert_x", 256, 512, vec![2, 8, 16], "activation"),
            ("indices", 768, 32, vec![4, 2], "uint32"),
            ("weights", 1024, 32, vec![4, 2], "float32"),
            ("dp_x", 1280, 128, vec![4, 16], "activation"),
            ("expert_x_scale", 1536, 64, vec![2, 8, 1], "scale"),
            ("dp_x_scale", 1792, 16, vec![4, 1], "scale"),
        ]
    );
}

#[test]
fn workspace_without_scales_is_shorter() {
    let mut context = context(1);
    context.config.scale_elemsize = 0;
    let layout = context.low_latency_workspace_layout();
    assert_eq!(layout.tensors.len(), 5);
    assert_eq!(layout.total_bytes, 1536);
}

fn counts() -> Vec<Vec<u32>> {
    vec![
        vec![1, 2, 5, 1, 4, 0, 2, 3],
        vec![3, 0, 0, 0, 0, 0, 0, 0],
        vec![2, 1, 0, 0, 0, 0, 0, 0],
        vec![0, 4, 0, 0, 0, 0, 0, 0],
    ]
}

#[test]
fn layout_of_a_table_is_computed() {
    let plan = context(1).debug_low_latency_route_layout_plan(&counts()).unwrap();
    assert_eq!(plan.source_group_order, vec![2, 3, 1, 0]);
    assert_eq!(plan.final_index, vec![0, 1, 8, 9, 10, 11, 12, 2, 3, 4, 5, 13, 14]);
    assert_eq!(plan.num_recv_tokens, 13);
    assert!(plan.source_token_index.is_empty());
}

#[test]
fn tables_of_a_wrong_shape_are_refused() {
    let context = context(1);
    assert_eq!(
        context.debug_low_latency_route_layout_plan(&counts()[..3].to_vec()),
        Err(ContextError::RouteRows { expected: 4, got: 3 })
    );
    let mut table = counts();
    table[1].pop();
    table[2].push(0);
    assert_eq!(
        context.debug_low_latency_route_layout_plan(&table),
        Err(ContextError::ExpertCounts { expected: 8, source_group: 1, got: 7 })
    );
}

#[test]
fn layout_of_a_live_dispatch_shows_what_the_device_holds() {
    let mut context = context(1);
    let (slot, generation) = sent(&mut context, 3);
    let flat: Vec<u32> = counts().into_iter().flatten().collect();
    let layout_range: Vec<u64> = (100..116).collect();
    let source_token_index: Vec<u32> = (1000..1064).collect();
    let plan = context
        .debug_low_latency_route_layout_plan_for_handle(
            slot,
            generation,
            &flat,
            &layout_range,
            &source_token_index,
        )
        .unwrap();
    assert_eq!(plan.final_index, vec![0, 1, 8, 9, 10, 11, 12, 2, 3, 4, 5, 13, 14]);
    assert_eq!(plan.layout_range, (100..108).collect::<Vec<u64>>());
    assert_eq!(
        plan.source_token_index,
        vec![1000, 1001, 1008, 1009, 1010, 1011, 1012, 1002, 1003, 1004, 1005, 1013, 1014]
    );
}

#[test]
fn layout_of_a_dead_dispatch_is_refused() {
    let mut context = context(1);
    let (slot, _) = sent(&mut context, 3);
    let found = SlotGenerationState::DispatchSent { generation: 1, num_tokens: 3 };
    let none = Vec::new();
    assert_eq!(
        context.debug_low_latency_route_layout_plan_for_handle(slot, 9, &none, &Vec::new(), &none),
        Err(ContextError::StaleLiveHandle { slot: 0, generation: 9, found })
    );
    assert_eq!(
        context.debug_low_latency_route_layout_plan_for_handle(4, 1, &none, &Vec::new(), &none),
        Err(ContextError::InvalidSlot { slot: 4 })
    );
}

#[test]
fn statistics_come_from_all_workers() {
    let context = context(2);
    let mut first = WorkerCounters::new(4);
    first.dispatch.record(0, 2, &vec![0, 1, 2, 3], &vec![1, 1, 1, 1], 10);
    let second = first.clone();
    let stats = context.get_perf_stats(&vec![first, second]);
    assert_eq!(stats.local_dispatch_bytes, 20);
    assert_eq!(stats.nvlink_dispatch_bytes, 20);
    assert_eq!(stats.network_dispatch_bytes, 40);
    assert_eq!(stats.peer_dispatch_bytes, vec![20, 20, 20, 20]);
    assert_eq!(stats.peer_combine_bytes, vec![0, 0, 0, 0]);
}

#[test]
fn sizes_for_a_context_are_checked() {
    let slots = 2;
    assert!(AllToAllContext::check_creatable(&config(), slots, 100));
    assert!(AllToAllContext::check_creatable(&config(), slots, u32::MAX - 9));
    assert!(!AllToAllContext::check_creatable(&config(), slots, u32::MAX - 8));
    assert!(!AllToAllContext::check_creatable(&config(), usize::MAX, 0));
    let mut wrong = config();
    wrong.dp_size = 0;
    assert!(!AllToAllContext::check_creatable(&wrong, slots, 0));
    let mut wrong = config();
    wrong.dp_size = 5;
    assert!(!AllToAllContext::check_creatable(&wrong, slots, 0));
    let mut wrong = config();
    wrong.num_experts = usize::MAX / 2;
    assert!(!AllToAllContext::check_creatable(&wrong, slots, 0));
    let mut wrong = config();
    wrong.max_num_tokens = usize::MAX;
    assert!(!AllToAllContext::check_creatable(&wrong, slots, 0));
}

#[test]
fn sizes_of_a_workspace_are_checked() {
    let mut context = context(1);
    assert!(context.check_workspace());
    context.config.hidden_dim_scale = usize::MAX;
    assert!(!context.check_workspace());
    context.config.scale_elemsize = 0;
    assert!(context.check_workspace());
    context.config.max_num_tokens = usize::MAX / 16;
    assert!(!context.check_workspace());
}

#[test]
fn route_tables_are_checked() {
    let context = context(1);
    assert!(context.check_route_layout(&counts()));
    assert!(context.check_route_layout(&Vec::new()));
    let mut table = counts();
    table[2].pop();
    assert!(context.check_route_layout(&table));
    let mut table = counts();
    table[3][7] = u32::MAX;
    assert!(context.check_route_layout(&table));
    table[3][0] = u32::MAX;
    assert!(!context.check_route_layout(&table));
}
