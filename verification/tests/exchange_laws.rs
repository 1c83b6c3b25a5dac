use p2p_all_to_all::receive_plan::{
    compute_receive_route_plan, ReceiveRoutePlan, PEER_SEND_BUFFER,
};
use p2p_all_to_all::transfer_plan::{
    compute_initial_dispatch_transfer_plans, compute_remote_combine_transfer_plans,
    compute_remote_dispatch_transfer_plans,
};

const GROUPS: usize = 4;
const NODE: usize = 2;
const EXPERTS: usize = 8;
const LOCAL: usize = 2;
const PRIVATE: usize = 2;
const STRIDE: usize = 32;

type Token = (usize, usize, usize);

fn counts() -> Vec<Vec<u32>> {
    vec![
        vec![1, 2, 5, 1, 4, 0, 2, 3],
        vec![3, 0, 1, 0, 6, 2, 0, 1],
        vec![2, 1, 0, 7, 1, 1, 0, 0],
        vec![0, 4, 3, 0, 0, 0, 5, 5],
    ]
}

fn plan(rank: usize) -> ReceiveRoutePlan {
    compute_receive_route_plan(rank, 0, 1, NODE, GROUPS, EXPERTS, 1, STRIDE, PRIVATE, 2, &counts())
}

/// What a rank lays out in its send buffer: its tokens, expert by expert.
fn outgoing(rank: usize) -> Vec<Token> {
    let mut tokens = Vec::new();
    for expert in 0..EXPERTS {
        for k in 0..counts()[rank][expert] as usize {
            tokens.push((rank, expert, k));
        }
    }
    tokens
}

/// The receive buffers of all ranks after every rank dispatched its tokens.
fn dispatched() -> Vec<Vec<Option<Token>>> {
    let mut buffers = vec![vec![None; 200]; GROUPS];
    for rank in 0..GROUPS {
        let tokens = outgoing(rank);
        for write in
            compute_initial_dispatch_transfer_plans(
                rank, 0, 1, NODE, GROUPS, EXPERTS, PRIVATE, &counts(),
            )
        {
            for i in 0..write.length_tokens {
                buffers[write.peer_rank][write.dst_token_offset as usize + i] =
                    Some(tokens[write.src_token_offset as usize + i]);
            }
        }
        let receive = plan(rank);
        for write in
            compute_remote_dispatch_transfer_plans(
                &receive, rank, 0, 1, NODE, GROUPS, EXPERTS, PRIVATE, &counts(),
            )
        {
            for i in 0..write.length_tokens {
                buffers[write.peer_rank][write.dst_token_offset as usize + i] =
                    Some(tokens[write.src_token_offset as usize + i]);
            }
        }
        // On the same node the kernel itself fills the private part.
        for peer in 0..GROUPS {
            if peer != rank && peer / NODE == rank / NODE {
                let start = receive.dispatch_src_offset[peer] as usize;
                let length = (receive.tokens_to_rank[peer] as usize).min(PRIVATE);
                for i in 0..length {
                    buffers[peer][rank * PRIVATE + i] = Some(tokens[start + i]);
                }
            }
        }
    }
    buffers
}

/// The tokens that a rank reads, in arrival order.
fn read(rank: usize, buffers: &Vec<Vec<Option<Token>>>) -> Vec<Token> {
    let receive = plan(rank);
    let mut tokens = Vec::new();
    for p in 0..receive.num_recv_tokens {
        let source = receive.source_rank[p] as usize;
        let offset = receive.source_dispatch_offset[p];
        if source == rank {
            tokens.push(outgoing(rank)[offset as usize]);
        } else if offset & PEER_SEND_BUFFER != 0 {
            tokens.push(outgoing(source)[(offset & !PEER_SEND_BUFFER) as usize]);
        } else {
            tokens.push(buffers[rank][offset as usize].unwrap());
        }
    }
    tokens
}

#[test]
fn what_is_sent_is_received() {
    for source in 0..GROUPS {
        for target in 0..GROUPS {
            assert_eq!(
                plan(source).tokens_to_rank[target],
                plan(target).tokens_from_group[source]
            );
        }
    }
}

#[test]
fn every_token_is_read_once_and_goes_to_its_expert() {
    let buffers = dispatched();
    let mut seen: Vec<Token> = Vec::new();
    for rank in 0..GROUPS {
        let receive = plan(rank);
        let tokens = read(rank, &buffers);
        for p in 0..tokens.len() {
            let (source, expert, _) = tokens[p];
            assert_eq!(source, receive.source_rank[p] as usize);
            assert_eq!(expert, rank * LOCAL + receive.padded_index[p] as usize / STRIDE);
            seen.push(tokens[p]);
        }
    }
    let mut all: Vec<Token> = (0..GROUPS).flat_map(|rank| outgoing(rank)).collect();
    seen.sort();
    all.sort();
    assert_eq!(seen, all);
}

#[test]
fn rows_are_distinct_and_runs_tile_them() {
    for rank in 0..GROUPS {
        let receive = plan(rank);
        let mut rows = receive.padded_index.clone();
        rows.sort();
        rows.dedup();
        assert_eq!(rows.len(), receive.num_recv_tokens);
        for expert in 0..LOCAL {
            let mut runs: Vec<(u32, u32)> = (0..GROUPS)
                .map(|group| receive.layout_range[expert * GROUPS + group])
                .map(|packed| ((packed >> 32) as u32, packed as u32))
                .collect();
            runs.sort();
            let mut next = 0;
            for (offset, count) in runs {
                assert_eq!(offset, next);
                next += count;
            }
            assert_eq!(next, receive.tokens_per_expert[expert]);
        }
    }
}

#[test]
fn remote_tokens_come_first() {
    for rank in 0..GROUPS {
        let receive = plan(rank);
        for p in 0..receive.num_recv_tokens {
            let remote = receive.source_rank[p] as usize / NODE != rank / NODE;
            assert_eq!(remote, p < receive.num_recv_efa_tokens);
        }
    }
}

#[test]
fn every_result_returns_to_the_place_of_its_token() {
    let buffers = dispatched();
    let mut returned = vec![vec![None; 200]; GROUPS];
    for rank in 0..GROUPS {
        let receive = plan(rank);
        let tokens = read(rank, &buffers);
        let mut staged = vec![None; 200];
        for p in 0..tokens.len() {
            let source = receive.source_rank[p] as usize;
            let offset = receive.combine_send_offset[p] as usize;
            if source / NODE == rank / NODE {
                returned[source][offset] = Some(tokens[p]);
            } else {
                staged[offset] = Some(tokens[p]);
            }
        }
        for write in compute_remote_combine_transfer_plans(&receive, rank, 0, 1, NODE, GROUPS) {
            for i in 0..write.length_tokens {
                returned[write.peer_rank][write.dst_token_offset as usize + i] =
                    staged[write.src_token_offset as usize + i];
            }
        }
    }
    for rank in 0..GROUPS {
        let tokens = outgoing(rank);
        for i in 0..tokens.len() {
            assert_eq!(returned[rank][i], Some(tokens[i]));
        }
        assert_eq!(returned[rank][tokens.len()], None);
    }
}

#[test]
fn awaited_messages_are_sent() {
    for rank in 0..GROUPS {
        let mut messages = 0;
        for peer in 0..GROUPS {
            let first = compute_initial_dispatch_transfer_plans(
                peer, 0, 1, NODE, GROUPS, EXPERTS, PRIVATE, &counts(),
            );
            messages += first.iter().filter(|write| write.peer_rank == rank).count() as u32;
            let rest = compute_remote_dispatch_transfer_plans(
                &plan(peer), peer, 0, 1, NODE, GROUPS, EXPERTS, PRIVATE, &counts(),
            );
            messages += 2 * rest.iter().filter(|write| write.peer_rank == rank).count() as u32;
        }
        assert_eq!(plan(rank).num_recv_tx, messages);
    }
}

#[test]
fn awaited_results_are_sent() {
    for rank in 0..GROUPS {
        let mut senders = 0;
        for peer in 0..GROUPS {
            let writes =
                compute_remote_combine_transfer_plans(&plan(peer), peer, 0, 1, NODE, GROUPS);
            let here = writes.iter().filter(|write| write.peer_rank == rank).count();
            assert_eq!(here, if peer / NODE == rank / NODE { 0 } else { 1 });
            senders += here;
        }
        assert_eq!(senders, (GROUPS / NODE - 1) * NODE);
    }
}
