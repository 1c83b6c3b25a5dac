use p2p_all_to_all::arith::ceil_div;
use p2p_all_to_all::cluster::ordered_source_groups;
use p2p_all_to_all::padding::pack_layout_range;
use p2p_all_to_all::route_layout::compute_low_latency_route_layout_plan;
use p2p_all_to_all::workspace::{
    add_workspace_tensor, checked_tensor_end, DeviceBuffer, DeviceWorkspace,
};
use p2p_all_to_all::{align_up, receive_plan::compute_receive_route_plan};

fn counts() -> Vec<Vec<u32>> {
    vec![
        vec![1, 2, 5, 1, 4, 0, 2, 3],
        vec![3, 0, 0, 0, 0, 0, 0, 0],
        vec![2, 1, 0, 0, 0, 0, 0, 0],
        vec![0, 4, 0, 0, 0, 0, 0, 0],
    ]
}

#[test]
fn aligning_gives_the_next_multiple() {
    assert_eq!(align_up(0, 256), 0);
    assert_eq!(align_up(1, 256), 256);
    assert_eq!(align_up(256, 256), 256);
    assert_eq!(align_up(257, 256), 512);
    assert_eq!(align_up(align_up(37, 16), 16), align_up(37, 16));
    assert_eq!(ceil_div(7, 2), 4);
    assert_eq!(ceil_div(8, 2), 4);
}

#[test]
fn packed_ranges_hold_count_and_offset() {
    let packed = pack_layout_range(3, 5);
    assert_eq!(packed, 0x5_0000_0003);
    assert_eq!(packed as u32, 3);
    assert_eq!(packed >> 32, 5);
    assert_eq!(pack_layout_range(u32::MAX, u32::MAX), u64::MAX);
}

#[test]
fn source_groups_come_remote_first_and_self_last() {
    assert_eq!(ordered_source_groups(1, 0, 2, 3), vec![2, 3, 4, 5, 0, 1]);
    assert_eq!(ordered_source_groups(2, 1, 2, 2), vec![0, 1, 3, 2]);
    assert_eq!(ordered_source_groups(0, 0, 1, 1), vec![0]);
}

#[test]
fn route_layout_lists_tokens_in_arrival_order() {
    let layout = compute_low_latency_route_layout_plan(0, 0, 1, 2, 4, 8, 1, 8, 2, 2, &counts());
    assert_eq!(layout.source_group_order, vec![2, 3, 1, 0]);
    assert_eq!(layout.source_rank, vec![2, 2, 2, 3, 3, 3, 3, 1, 1, 1, 0, 0, 0]);
    assert_eq!(layout.source_group, layout.source_rank);
    assert_eq!(layout.final_index, vec![0, 1, 8, 9, 10, 11, 12, 2, 3, 4, 5, 13, 14]);
    assert_eq!(
        layout.tokens_per_source_group_per_local_expert,
        vec![vec![1, 2], vec![3, 0], vec![2, 1], vec![0, 4]]
    );
    assert_eq!(layout.tokens_per_expert, vec![6, 7]);
    assert_eq!(layout.num_recv_tokens, 13);
    assert!(layout.source_token_index.is_empty());
    let plan = compute_receive_route_plan(0, 0, 1, 2, 4, 8, 1, 8, 2, 2, &counts());
    assert_eq!(layout.layout_range, plan.layout_range);
}

#[test]
fn source_groups_differ_from_ranks_where_groups_are_wide() {
    let table = vec![vec![1, 2], vec![3, 4]];
    let layout = compute_low_latency_route_layout_plan(0, 1, 2, 2, 4, 2, 4, 0, 1, 1, &table);
    assert_eq!(layout.source_group_order, vec![1, 0]);
    assert_eq!(layout.source_rank, vec![3, 3, 3, 1]);
    assert_eq!(layout.source_group, vec![1, 1, 1, 0]);
    assert_eq!(layout.final_index, vec![0, 1, 2, 3]);
}

#[test]
fn compact_experts_start_at_padded_offsets() {
    let plan = compute_receive_route_plan(0, 0, 1, 2, 4, 8, 4, 0, 2, 2, &counts());
    assert_eq!(plan.padded_index, vec![0, 1, 8, 9, 10, 11, 12, 2, 3, 4, 5, 13, 14]);
    let plan = compute_receive_route_plan(0, 0, 1, 2, 4, 8, 1, 0, 2, 2, &counts());
    assert_eq!(plan.padded_index, vec![0, 1, 6, 7, 8, 9, 10, 2, 3, 4, 5, 11, 12]);
}

#[test]
fn last_block_of_experts_may_be_short() {
    let table = vec![vec![1, 1, 1], vec![2, 2, 2]];
    let plan = compute_receive_route_plan(1, 0, 1, 2, 2, 3, 1, 0, 8, 1, &table);
    assert_eq!(plan.tokens_per_expert, vec![3, 0]);
    assert_eq!(plan.num_recv_tokens, 3);
    assert_eq!(plan.num_recv_efa_tokens, 0);
    assert_eq!(plan.num_recv_tx, 0);
    assert_eq!(plan.source_rank, vec![0, 1, 1]);
    assert_eq!(plan.source_dispatch_offset, vec![0, 4, 5]);
    assert_eq!(plan.combine_send_offset, vec![2, 4, 5]);
}

#[test]
fn tensors_are_placed_one_after_another() {
    let mut tensors = Vec::new();
    let mut total: usize = 0;
    add_workspace_tensor(&mut tensors, &mut total, "a", vec![3, 5], "int32", 4);
    add_workspace_tensor(&mut tensors, &mut total, "b", vec![2], "scale", 1);
    assert_eq!(tensors[0].offset_bytes, 0);
    assert_eq!(tensors[0].nbytes, 60);
    assert_eq!(tensors[1].offset_bytes, 256);
    assert_eq!(tensors[1].nbytes, 2);
    assert_eq!(tensors[1].name, "b");
    assert_eq!(tensors[1].dtype, "scale");
    assert_eq!(tensors[1].shape, vec![2]);
    assert_eq!(total, 258);
}

#[test]
fn device_buffers_follow_the_sizes() {
    let workspace = DeviceWorkspace::new(8, 16, 2, &[1, 2], &[], &[3]);
    let word = DeviceBuffer { bytes: 4, zeroed: true };
    assert_eq!(workspace.expert_offsets, DeviceBuffer { bytes: 32, zeroed: true });
    assert_eq!(workspace.token_offset, DeviceBuffer { bytes: 128, zeroed: false });
    assert_eq!(workspace.combine_recv_position, DeviceBuffer { bytes: 128, zeroed: false });
    assert_eq!(workspace.token_counter, word);
    assert_eq!(workspace.dispatch_send_counter, word);
    assert_eq!(workspace.dispatch_recv_counter, word);
    assert_eq!(workspace.epoch_counter, word);
    assert_eq!(workspace.current_epoch, word);
    assert_eq!(workspace.sync_counter, word);
    assert_eq!(workspace.sync_ptrs, Some(vec![1, 2]));
    assert_eq!(workspace.send_ptrs, None);
    assert_eq!(workspace.recv_ptrs, Some(vec![3]));
}

#[test]
fn tensors_that_do_not_fit_are_noticed() {
    assert_eq!(checked_tensor_end(60, &vec![2], 1), Some(258));
    assert_eq!(checked_tensor_end(0, &vec![3, 5], 4), Some(60));
    assert_eq!(checked_tensor_end(0, &vec![usize::MAX, 2], 0), None);
    assert_eq!(checked_tensor_end(0, &vec![usize::MAX], 2), None);
    assert_eq!(checked_tensor_end(usize::MAX, &vec![1], 1), None);
    assert_eq!(checked_tensor_end(256, &vec![usize::MAX], 1), None);
}
