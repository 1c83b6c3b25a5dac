use p2p_all_to_all::padding::pack_layout_range;
use p2p_all_to_all::receive_plan::compute_receive_route_plan;
use p2p_all_to_all::transfer_plan::{
    compute_initial_dispatch_transfer_plans, compute_remote_combine_transfer_plans,
    compute_remote_dispatch_transfer_plans, RemoteTransferPlan,
};

#[test]
fn receive_route_plan_orders_remote_local_then_self() {
    let num_routed: Vec<Vec<u32>> = vec![
        vec![1, 2, 5, 1, 4, 0, 2, 3],
        vec![3, 0, 0, 0, 0, 0, 0, 0],
        vec![2, 1, 0, 0, 0, 0, 0, 0],
        vec![0, 4, 0, 0, 0, 0, 0, 0],
    ];

    let plan = compute_receive_route_plan(0, 0, 1, 2, 4, 8, 1, 8, 2, 2, &num_routed);

    assert_eq!(plan.tokens_per_expert, vec![6, 7]);
    assert_eq!(plan.tokens_from_group, vec![3, 3, 3, 4]);
    assert_eq!(plan.tokens_to_rank, vec![3, 6, 4, 5]);
    assert_eq!(plan.num_recv_tokens, 13);
    assert_eq!(plan.num_recv_efa_tokens, 7);
    assert_eq!(plan.num_recv_tx, 6);

    assert_eq!(plan.source_rank, vec![2, 2, 2, 3, 3, 3, 3, 1, 1, 1, 0, 0, 0]);
    assert_eq!(
        plan.source_dispatch_offset,
        vec![4, 5, 14, 6, 7, 17, 18, 2, 3, (1 << 31) | 2, 0, 1, 2]
    );
    assert_eq!(
        plan.combine_send_offset,
        vec![6, 7, 8, 9, 10, 11, 12, 0, 1, 2, 0, 1, 2]
    );
    assert_eq!(plan.padded_index, vec![0, 1, 8, 9, 10, 11, 12, 2, 3, 4, 5, 13, 14]);
    assert_eq!(
        plan.layout_range,
        vec![
            pack_layout_range(1, 5),
            pack_layout_range(3, 2),
            pack_layout_range(2, 0),
            pack_layout_range(0, 2),
            pack_layout_range(2, 5),
            pack_layout_range(0, 5),
            pack_layout_range(1, 0),
            pack_layout_range(4, 1),
        ]
    );

    assert_eq!(
        compute_initial_dispatch_transfer_plans(0, 0, 1, 2, 4, 8, 2, &num_routed),
        vec![
            RemoteTransferPlan {
                peer_rank: 2,
                length_tokens: 2,
                src_token_offset: 9,
                dst_token_offset: 0,
            },
            RemoteTransferPlan {
                peer_rank: 3,
                length_tokens: 2,
                src_token_offset: 13,
                dst_token_offset: 0,
            },
        ]
    );
    assert_eq!(
        compute_remote_dispatch_transfer_plans(&plan, 0, 0, 1, 2, 4, 8, 2, &num_routed),
        vec![
            RemoteTransferPlan {
                peer_rank: 2,
                length_tokens: 2,
                src_token_offset: 11,
                dst_token_offset: 8,
            },
            RemoteTransferPlan {
                peer_rank: 3,
                length_tokens: 3,
                src_token_offset: 15,
                dst_token_offset: 8,
            },
        ]
    );
    assert_eq!(
        compute_remote_combine_transfer_plans(&plan, 0, 0, 1, 2, 4),
        vec![
            RemoteTransferPlan {
                peer_rank: 2,
                length_tokens: 3,
                src_token_offset: 6,
                dst_token_offset: 0,
            },
            RemoteTransferPlan {
                peer_rank: 3,
                length_tokens: 4,
                src_token_offset: 9,
                dst_token_offset: 0,
            },
        ]
    );
}
