//! What holds of what a worker sends to its peers and reads from them, and of its waits.

use vstd::prelude::*;
use vstd::arithmetic::div_mod::{lemma_fundamental_div_mod, lemma_fundamental_div_mod_converse};
use crate::config::ContextConfig;
use crate::padding::pack_layout_range;
use crate::ranges::ScatterRange;
use crate::worker::{
    poll_epoch, poll_transfers, route_peers, route_table, NodeRouteRow, WaitPoll, WorkerState,
};

verus! {

/// A rank that lies so many places further around the ring.
proof fn lemma_further(rank: int, world_size: int, k: int)
    requires
        0 <= rank < world_size,
        0 < k < world_size,
    ensures
        (rank + k) % world_size == if rank + k < world_size {
            rank + k
        } else {
            rank + k - world_size
        },
{
    if rank + k < world_size {
        lemma_fundamental_div_mod_converse(rank + k, world_size, 0, rank + k);
    } else {
        lemma_fundamental_div_mod_converse(rank + k, world_size, 1, rank + k - world_size);
    }
}

/// Which ranks are among the peers that lie up to so many places further around the ring.
proof fn lemma_route_peers(config: ContextConfig, n: int)
    requires
        0 < config.dp_size,
        config.rank < config.world_size,
        0 <= n < config.world_size,
    ensures
        ({
            let peers = route_peers(config, n);
            let rank = config.rank as int;
            let world = config.world_size as int;
            let dp = config.dp_size as int;
            &&& peers.no_duplicates()
            &&& forall|i: int|
                0 <= i < peers.len() ==> 0 <= #[trigger] peers[i] < world && peers[i] != rank
                    && peers[i] % dp == rank % dp && exists|k: int|
                    1 <= k <= n && #[trigger] further(rank, world, k) == peers[i]
            &&& forall|k: int|
                1 <= k <= n && #[trigger] further(rank, world, k) % dp == rank % dp
                    ==> peers.contains(further(rank, world, k))
        }),
    decreases n,
{
    if n > 0 {
        lemma_route_peers(config, n - 1);
        let rank = config.rank as int;
        let world = config.world_size as int;
        let dp = config.dp_size as int;
        let before = route_peers(config, n - 1);
        let peers = route_peers(config, n);
        let peer = (rank + n) % world;
        lemma_further(rank, world, n);
        assert(further(rank, world, n) == peer);
        assert forall|k: int| 1 <= k < n implies #[trigger] further(rank, world, k) != peer by {
            lemma_further(rank, world, k);
        }
        lemma_fundamental_div_mod(peer, dp);
        lemma_fundamental_div_mod(rank, dp);
        assert(peer != rank);
        if peer % dp == rank % dp {
            assert(peer / dp != rank / dp) by {
                if peer / dp == rank / dp {
                    assert(peer == rank);
                }
            }
            assert(peers == before.push(peer));
            assert(peers[peers.len() - 1] == peer);
            assert forall|i: int| 0 <= i < peers.len() implies 0 <= #[trigger] peers[i] < world
                && peers[i] != rank && peers[i] % dp == rank % dp && exists|k: int|
                1 <= k <= n && #[trigger] further(rank, world, k) == peers[i] by {
                if i < before.len() {
                    assert(peers[i] == before[i]);
                    let k = choose|k: int|
                        1 <= k <= n - 1 && #[trigger] further(rank, world, k) == before[i];
                    assert(1 <= k <= n && further(rank, world, k) == peers[i]);
                } else {
                    assert(1 <= n <= n && further(rank, world, n) == peers[i]);
                }
            }
            assert forall|k: int|
                1 <= k <= n && #[trigger] further(rank, world, k) % dp == rank
                    % dp implies peers.contains(further(rank, world, k)) by {
                if k < n {
                    let i = choose|i: int|
                        0 <= i < before.len() && before[i] == further(rank, world, k);
                    assert(peers[i] == further(rank, world, k));
                }
            }
            assert forall|i: int, j: int|
                0 <= i < peers.len() && 0 <= j < peers.len() && i != j implies peers[i]
                != peers[j] by {
                if i < before.len() && j < before.len() {
                    assert(peers[i] == before[i] && peers[j] == before[j]);
                } else if i < before.len() {
                    assert(peers[i] == before[i]);
                } else if j < before.len() {
                    assert(peers[j] == before[j]);
                }
            }
        } else {
            assert(peers == before);
            assert forall|i: int| 0 <= i < peers.len() implies 0 <= #[trigger] peers[i] < world
                && peers[i] != rank && peers[i] % dp == rank % dp && exists|k: int|
                1 <= k <= n && #[trigger] further(rank, world, k) == peers[i] by {
                assert(peers[i] == before[i]);
                let k = choose|k: int|
                    1 <= k <= n - 1 && #[trigger] further(rank, world, k) == before[i];
                assert(1 <= k <= n && further(rank, world, k) == peers[i]);
            }
        }
    }
}

/// The rank so many places further around the ring.
spec fn further(rank: int, world_size: int, k: int) -> int {
    (rank + k) % world_size
}

/// A rank sends its route counts to every rank at its place in another group, and to no other,
/// once. What it sends is the row of its own group, all of it, to where that row stands in the
/// other's table.
pub proof fn law_route_counts_go_to_every_peer(
    worker: WorkerState,
    targets: Vec<ScatterRange>,
    group: int,
    p: int,
)
    requires
        call_ensures(WorkerState::route_targets, (&worker,), targets),
        worker.wf(),
        4 * worker.config.num_experts <= usize::MAX,
        group * (4 * worker.config.num_experts) <= u64::MAX,
        worker.config.rank < worker.config.world_size,
        0 <= p < worker.config.world_size,
        group * worker.config.dp_size <= worker.config.rank < (group + 1) * worker.config.dp_size,
    ensures
        (exists|i: int| 0 <= i < targets@.len() && (#[trigger] targets@[i]).peer_rank == p) <==> (p
            != worker.config.rank && p % worker.config.dp_size as int == worker.config.rank as int
            % worker.config.dp_size as int),
        forall|i: int, j: int|
            0 <= i < targets@.len() && 0 <= j < targets@.len() && (
            #[trigger] targets@[i]).peer_rank == (#[trigger] targets@[j]).peer_rank ==> i == j,
        forall|i: int|
            0 <= i < targets@.len() ==> {
                let target = #[trigger] targets@[i];
                &&& target.length == 4 * worker.config.num_experts
                &&& target.src_offset == group * (4 * worker.config.num_experts)
                &&& target.dst_offset == target.src_offset
            },
{
    let config = worker.config;
    let rank = config.rank as int;
    let world = config.world_size as int;
    let dp = config.dp_size as int;
    let peers = route_peers(config, world - 1);
    lemma_route_peers(config, world - 1);
    crate::cluster_laws::lemma_groups(rank, dp, group);
    assert forall|i: int| 0 <= i < targets@.len() implies (#[trigger] targets@[i]).peer_rank
        == peers[i] && targets@[i] == crate::worker::route_target(config, peers[i]) by {}
    if exists|i: int| 0 <= i < targets@.len() && (#[trigger] targets@[i]).peer_rank == p {
        let i = choose|i: int| 0 <= i < targets@.len() && (#[trigger] targets@[i]).peer_rank == p;
        assert(peers[i] == p);
    }
    if p != rank && p % dp == rank % dp {
        let k = if p > rank {
            p - rank
        } else {
            p + world - rank
        };
        lemma_further(rank, world, k);
        assert(further(rank, world, k) == p);
        let i = choose|i: int| 0 <= i < peers.len() && peers[i] == p;
        assert(targets@[i].peer_rank == p);
    }
    assert forall|i: int, j: int|
        0 <= i < targets@.len() && 0 <= j < targets@.len() && (#[trigger] targets@[i]).peer_rank
            == (#[trigger] targets@[j]).peer_rank implies i == j by {
        assert(peers[i] == peers[j]);
    }
    assert forall|i: int| 0 <= i < targets@.len() implies {
        let target = #[trigger] targets@[i];
        &&& target.length == 4 * config.num_experts
        &&& target.src_offset == group * (4 * config.num_experts)
        &&& target.dst_offset == target.src_offset
    } by {
        assert(peers.len() > 0);
        assert(0 <= group * (config.num_experts * 4)) by (nonlinear_arith)
            requires
                group == rank / dp,
                0 <= rank,
                0 < dp,
        ;
        assert(config.num_experts * 4 == 4 * config.num_experts);
    }
}

/// Within a node a rank shares the row of its own group, at its own place, and collects the row
/// of every group from the rank at its place in that group, each to where the row stands in its
/// table.
pub proof fn law_node_rows_stand_group_by_group(
    worker: WorkerState,
    own: NodeRouteRow,
    rows: Vec<NodeRouteRow>,
    groups: int,
    dp_group: int,
    dp_rank: int,
    g: int,
)
    requires
        call_ensures(WorkerState::publish_local_node_route_counts, (&worker,), own),
        call_ensures(WorkerState::wait_node_route_counts, (&worker,), rows),
        worker.wf(),
        worker.config.rank < worker.config.world_size,
        dp_group * worker.config.num_experts <= usize::MAX,
        groups * worker.config.num_experts <= usize::MAX,
        groups * worker.config.dp_size <= worker.config.world_size < (groups + 1)
            * worker.config.dp_size,
        worker.config.rank == dp_group * worker.config.dp_size + dp_rank,
        0 <= dp_rank < worker.config.dp_size,
        0 <= g < groups,
    ensures
        rows@.len() == groups,
        rows@[g].count_ptr == worker.node_route_count_ptrs@[g * worker.config.dp_size + dp_rank],
        rows@[g].epoch_ptr == worker.node_route_epoch_ptrs@[g * worker.config.dp_size + dp_rank],
        rows@[g].start == g * worker.config.num_experts,
        rows@[g].len == worker.config.num_experts,
        own.count_ptr == worker.node_route_count_ptrs@[worker.config.rank as int],
        own.epoch_ptr == worker.node_route_epoch_ptrs@[worker.config.rank as int],
        own.start == dp_group * worker.config.num_experts,
        own.len == worker.config.num_experts,
        g == dp_group ==> rows@[g] == own,
{
    let config = worker.config;
    let c = config.cluster();
    let dp = config.dp_size as int;
    crate::cluster_laws::lemma_groups(config.world_size as int, dp, groups);
    lemma_fundamental_div_mod_converse(config.rank as int, dp, dp_group, dp_rank);
    crate::config::lemma_has_groups(config);
    assert(0 <= dp_group) by (nonlinear_arith)
        requires
            dp_group * dp + dp_rank == config.rank,
            0 <= dp_rank < dp,
            0 <= config.rank,
    ;
    assert(0 <= dp_group * config.num_experts) by (nonlinear_arith)
        requires
            0 <= dp_group,
    ;
    assert(0 <= g * config.num_experts <= groups * config.num_experts) by (nonlinear_arith)
        requires
            0 <= g < groups,
    ;
    assert(rows@[g].len == config.num_experts);
    assert(c.rank_of(g) == g * dp + dp_rank);
}

/// A table is read row after row: the count of a group for an expert stands as many places after
/// the start of the group's row as the expert's number says, and rows stand one after another.
pub proof fn law_counts_stand_row_after_row(
    groups: usize,
    experts: usize,
    counts: Vec<u32>,
    rows: Vec<Vec<u32>>,
    worker: WorkerState,
    group: usize,
    expert: usize,
    count: u32,
)
    requires
        call_ensures(route_table, (groups, experts, &counts), rows),
        group < groups,
        expert < experts,
        worker.config.num_experts == experts,
        call_ensures(WorkerState::get_num_routed, (&worker, &counts, group, expert), count),
    ensures
        rows@.len() == groups,
        rows@[group as int]@.len() == experts,
        rows@[group as int]@[expert as int] == counts@[group * experts + expert],
        count == rows@[group as int]@[expert as int],
{
    let t = crate::routing::table(&rows);
    assert(t.len() == rows@.len());
    assert(t[group as int] == rows@[group as int]@);
}

/// A wait for an epoch is over just where the epoch is there, whether or not the worker runs; it
/// is cut short just where the epoch is not there and the worker does not run.
pub proof fn law_epoch_waits_end_in_time(
    observed: u32,
    epoch: u32,
    running: bool,
    poll: WaitPoll,
)
    requires
        call_ensures(poll_epoch, (observed, epoch, running), poll),
    ensures
        poll == WaitPoll::Ready <==> observed == epoch,
        poll == WaitPoll::Stopped <==> observed != epoch && !running,
{
}

/// A wait for transfers is over just where none is outstanding, whether or not the worker runs;
/// it is cut short just where some are and the worker does not run.
pub proof fn law_transfer_waits_end_in_time(count: i64, running: bool, poll: WaitPoll)
    requires
        call_ensures(poll_transfers, (count, running), poll),
    ensures
        poll == WaitPoll::Ready <==> 0 <= count,
        poll == WaitPoll::Stopped <==> count < 0 && !running,
{
}

/// A run of tokens is packed with its count in the low half of a word and its offset in the high
/// half, so that two runs that differ are packed differently.
pub proof fn law_packed_runs_differ(
    count: u32,
    offset: u32,
    packed: u64,
    other_count: u32,
    other_offset: u32,
    other: u64,
)
    requires
        call_ensures(pack_layout_range, (count, offset), packed),
        call_ensures(pack_layout_range, (other_count, other_offset), other),
    ensures
        packed as int % 0x1_0000_0000 == count,
        packed as int / 0x1_0000_0000 == offset,
        packed == other <==> count == other_count && offset == other_offset,
{
}

} // verus!
