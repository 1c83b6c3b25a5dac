//! Traffic and timing counters.

use vstd::prelude::*;

verus! {

/// How a peer is reached.
#[derive(Clone, Copy, Debug, PartialEq, Eq, Structural)]
pub enum Link {
    /// The peer is this rank.
    Local,
    /// The peer sits on the same node.
    Nvlink,
    /// The peer sits on another node.
    Network,
}

/// How `rank` reaches `peer`.
pub open spec fn link_to(rank: int, node_size: int, peer: int) -> Link {
    if peer == rank {
        Link::Local
    } else if peer / node_size == rank / node_size {
        Link::Nvlink
    } else {
        Link::Network
    }
}

/// The value of a 64-bit counter after counting up to `value`: counters wrap.
pub open spec fn wrap64(value: int) -> int {
    value % 0x1_0000_0000_0000_0000
}

/// What a time counts as: a time beyond 64 bits counts as the largest that fits.
pub open spec fn counted_ns(elapsed_ns: u128) -> int {
    if elapsed_ns <= u64::MAX {
        elapsed_ns as int
    } else {
        u64::MAX as int
    }
}

/// Bytes exchanged with peers, in total by link and by peer.
#[derive(Debug, Clone, PartialEq)]
pub struct ByteCounters {
    pub local: u64,
    pub nvlink: u64,
    pub network: u64,
    pub peer: Vec<u64>,
}

/// The bytes of the first `n` entries of a list of token counts that go over `link`.
pub open spec fn link_bytes(
    rank: int,
    node_size: int,
    peers: Seq<usize>,
    tokens: Seq<u32>,
    token_dim: int,
    link: Link,
    n: int,
) -> int
    decreases n,
{
    if n <= 0 {
        0
    } else {
        link_bytes(rank, node_size, peers, tokens, token_dim, link, n - 1) + if link_to(
            rank,
            node_size,
            peers[n - 1] as int,
        ) == link {
            tokens[n - 1] * token_dim
        } else {
            0
        }
    }
}

/// The bytes of the first `n` entries of a list of token counts that are for `peer`.
pub open spec fn peer_bytes(
    peers: Seq<usize>,
    tokens: Seq<u32>,
    token_dim: int,
    peer: int,
    n: int,
) -> int
    decreases n,
{
    if n <= 0 {
        0
    } else {
        peer_bytes(peers, tokens, token_dim, peer, n - 1) + if peers[n - 1] == peer {
            tokens[n - 1] * token_dim
        } else {
            0
        }
    }
}

/// The bytes of the first `n` entries of a list of token counts.
pub open spec fn all_bytes(tokens: Seq<u32>, token_dim: int, n: int) -> int
    decreases n,
{
    if n <= 0 {
        0
    } else {
        all_bytes(tokens, token_dim, n - 1) + tokens[n - 1] * token_dim
    }
}

/// The three links together carry all bytes.
pub proof fn law_links_carry_all_bytes(
    rank: int,
    node_size: int,
    peers: Seq<usize>,
    tokens: Seq<u32>,
    token_dim: int,
    n: int,
)
    ensures
        link_bytes(rank, node_size, peers, tokens, token_dim, Link::Local, n) + link_bytes(
            rank,
            node_size,
            peers,
            tokens,
            token_dim,
            Link::Nvlink,
            n,
        ) + link_bytes(rank, node_size, peers, tokens, token_dim, Link::Network, n) == all_bytes(
            tokens,
            token_dim,
            n,
        ),
    decreases n,
{
    if n > 0 {
        law_links_carry_all_bytes(rank, node_size, peers, tokens, token_dim, n - 1);
    }
}

/// The bytes for the first `m` peers together.
pub open spec fn bytes_below(
    peers: Seq<usize>,
    tokens: Seq<u32>,
    token_dim: int,
    m: int,
    n: int,
) -> int
    decreases m,
{
    if m <= 0 {
        0
    } else {
        bytes_below(peers, tokens, token_dim, m - 1, n) + peer_bytes(
            peers,
            tokens,
            token_dim,
            m - 1,
            n,
        )
    }
}

/// The peers together get all bytes.
pub proof fn law_peers_get_all_bytes(
    peers: Seq<usize>,
    tokens: Seq<u32>,
    token_dim: int,
    num_peers: int,
    n: int,
)
    requires
        0 <= n <= peers.len(),
        forall|i: int| 0 <= i < peers.len() ==> (#[trigger] peers[i]) < num_peers,
    ensures
        bytes_below(peers, tokens, token_dim, num_peers, n) == all_bytes(tokens, token_dim, n),
    decreases n,
{
    if n > 0 {
        law_peers_get_all_bytes(peers, tokens, token_dim, num_peers, n - 1);
        assert(peers[n - 1] < num_peers);
        lemma_bytes_below_step(peers, tokens, token_dim, num_peers, n);
    } else {
        lemma_no_bytes_below(peers, tokens, token_dim, num_peers);
    }
}

/// One more entry adds its bytes to the sum over the peers, once its peer is among them.
proof fn lemma_bytes_below_step(
    peers: Seq<usize>,
    tokens: Seq<u32>,
    token_dim: int,
    m: int,
    n: int,
)
    requires
        0 < n <= peers.len(),
    ensures
        bytes_below(peers, tokens, token_dim, m, n) == bytes_below(
            peers,
            tokens,
            token_dim,
            m,
            n - 1,
        ) + if peers[n - 1] < m {
            tokens[n - 1] * token_dim
        } else {
            0
        },
    decreases m,
{
    if m > 0 {
        lemma_bytes_below_step(peers, tokens, token_dim, m - 1, n);
    }
}

/// Without entries there are no bytes.
proof fn lemma_no_bytes_below(peers: Seq<usize>, tokens: Seq<u32>, token_dim: int, m: int)
    ensures
        bytes_below(peers, tokens, token_dim, m, 0) == 0,
    decreases m,
{
    if m > 0 {
        lemma_no_bytes_below(peers, tokens, token_dim, m - 1);
    }
}

/// Counting in two steps wraps to the same value as counting at once.
proof fn lemma_wrap64(a: int, b: int)
    ensures
        wrap64(wrap64(a) + b) == wrap64(a + b),
{
    vstd::arithmetic::div_mod::lemma_add_mod_noop(a, b, 0x1_0000_0000_0000_0000);
    vstd::arithmetic::div_mod::lemma_add_mod_noop(
        a % 0x1_0000_0000_0000_0000,
        b,
        0x1_0000_0000_0000_0000,
    );
    vstd::arithmetic::div_mod::lemma_mod_twice(a, 0x1_0000_0000_0000_0000);
}

/// Counts a counter up, wrapping.
fn count_up(counter: u64, amount: u64) -> (sum: u64)
    ensures
        sum == wrap64(counter + amount),
{
    proof {
        let total = counter + amount;
        if total > u64::MAX {
            vstd::arithmetic::div_mod::lemma_fundamental_div_mod_converse(
                total,
                0x1_0000_0000_0000_0000,
                1,
                total - 0x1_0000_0000_0000_0000,
            );
        }
    }
    counter.wrapping_add(amount)
}

impl ByteCounters {
    /// Whether `after` holds these counters once `tokens[i]` tokens of `token_dim` bytes are
    /// counted for each `peers[i]`.
    pub open spec fn counted(
        self,
        after: ByteCounters,
        rank: int,
        node_size: int,
        peers: Seq<usize>,
        tokens: Seq<u32>,
        token_dim: int,
    ) -> bool {
        let n = peers.len() as int;
        &&& after.local == wrap64(
            self.local + link_bytes(rank, node_size, peers, tokens, token_dim, Link::Local, n),
        )
        &&& after.nvlink == wrap64(
            self.nvlink + link_bytes(rank, node_size, peers, tokens, token_dim, Link::Nvlink, n),
        )
        &&& after.network == wrap64(
            self.network + link_bytes(rank, node_size, peers, tokens, token_dim, Link::Network, n),
        )
        &&& after.peer@.len() == self.peer@.len()
        &&& forall|p: int|
            0 <= p < self.peer@.len() ==> #[trigger] after.peer@[p] == wrap64(
                self.peer@[p] + peer_bytes(peers, tokens, token_dim, p, n),
            )
    }

    /// Counters at zero, for a number of peers.
    pub fn new(num_peers: usize) -> (counters: Self)
        ensures
            counters.local == 0,
            counters.nvlink == 0,
            counters.network == 0,
            counters.peer@ == Seq::new(num_peers as nat, |p: int| 0u64),
    {
        let counters = ByteCounters {
            local: 0,
            nvlink: 0,
            network: 0,
            peer: vec![0u64; num_peers],
        };
        proof {
            assert(counters.peer@ =~= Seq::new(num_peers as nat, |p: int| 0u64));
        }
        counters
    }

    /// Counts tokens for peers: `tokens[i]` tokens of `token_dim` bytes for `peers[i]`.
    pub fn record(
        &mut self,
        rank: usize,
        node_size: usize,
        peers: &Vec<usize>,
        tokens: &Vec<u32>,
        token_dim: u64,
    )
        requires
            0 < node_size,
            peers@.len() <= tokens@.len(),
            forall|i: int|
                0 <= i < peers@.len() ==> (#[trigger] peers@[i]) < old(self).peer@.len(),
            forall|i: int|
                0 <= i < peers@.len() ==> #[trigger] tokens@[i] * token_dim <= u64::MAX,
        ensures
            old(self).counted(
                *final(self),
                rank as int,
                node_size as int,
                peers@,
                tokens@,
                token_dim as int,
            ),
    {
        let ghost before = *self;
        let ghost r = rank as int;
        let ghost n = node_size as int;
        let ghost d = token_dim as int;
        let rank_node: usize = rank / node_size;
        let mut i: usize = 0;
        while i < peers.len()
            invariant
                i <= peers@.len() <= tokens@.len(),
                0 < node_size,
                rank_node == rank as int / node_size as int,
                r == rank,
                n == node_size,
                d == token_dim,
                forall|j: int|
                    0 <= j < peers@.len() ==> (#[trigger] peers@[j]) < before.peer@.len(),
                forall|j: int|
                    0 <= j < peers@.len() ==> #[trigger] tokens@[j] * token_dim <= u64::MAX,
                self.local == wrap64(
                    before.local + link_bytes(r, n, peers@, tokens@, d, Link::Local, i as int),
                ),
                self.nvlink == wrap64(
                    before.nvlink + link_bytes(r, n, peers@, tokens@, d, Link::Nvlink, i as int),
                ),
                self.network == wrap64(
                    before.network + link_bytes(r, n, peers@, tokens@, d, Link::Network, i as int),
                ),
                self.peer@.len() == before.peer@.len(),
                forall|p: int|
                    0 <= p < before.peer@.len() ==> #[trigger] self.peer@[p] == wrap64(
                        before.peer@[p] + peer_bytes(peers@, tokens@, d, p, i as int),
                    ),
            decreases peers@.len() - i,
        {
            let peer: usize = peers[i];
            proof {
                assert(tokens@[i as int] * token_dim <= u64::MAX);
                assert(0 <= tokens@[i as int] * token_dim) by (nonlinear_arith);
                let amount = tokens@[i as int] * token_dim;
                lemma_wrap64(
                    before.local + link_bytes(r, n, peers@, tokens@, d, Link::Local, i as int),
                    amount,
                );
                lemma_wrap64(
                    before.nvlink + link_bytes(r, n, peers@, tokens@, d, Link::Nvlink, i as int),
                    amount,
                );
                lemma_wrap64(
                    before.network + link_bytes(r, n, peers@, tokens@, d, Link::Network, i as int),
                    amount,
                );
                lemma_wrap64(
                    before.peer@[peer as int] + peer_bytes(
                        peers@,
                        tokens@,
                        d,
                        peer as int,
                        i as int,
                    ),
                    amount,
                );
            }
            let bytes: u64 = tokens[i] as u64 * token_dim;
            if bytes > 0 {
                let counted: u64 = count_up(self.peer[peer], bytes);
                self.peer.set(peer, counted);
                if peer == rank {
                    self.local = count_up(self.local, bytes);
                } else if peer / node_size == rank_node {
                    self.nvlink = count_up(self.nvlink, bytes);
                } else {
                    self.network = count_up(self.network, bytes);
                }
            }
            i = i + 1;
        }
    }
}

/// What a worker spends time on.
#[derive(Clone, Copy, Debug, PartialEq, Eq, Structural)]
pub enum WaitKind {
    WaitDispatchRoute,
    RouteExchange,
    ProcessRouting,
    WaitDispatchSend,
    DispatchTransferWait,
    WaitDispatchRecv,
    DispatchBarrier,
    WaitCombineSend,
    CombineTransferWait,
    WaitCombineRecv,
    CombineBarrier,
}

/// Nanoseconds spent, by what they were spent on.
#[derive(Clone, Copy, Debug, PartialEq, Eq, Structural)]
pub struct WaitTimes {
    pub wait_dispatch_route_ns: u64,
    pub route_exchange_ns: u64,
    pub process_routing_ns: u64,
    pub wait_dispatch_send_ns: u64,
    pub dispatch_transfer_wait_ns: u64,
    pub wait_dispatch_recv_ns: u64,
    pub dispatch_barrier_ns: u64,
    pub wait_combine_send_ns: u64,
    pub combine_transfer_wait_ns: u64,
    pub wait_combine_recv_ns: u64,
    pub combine_barrier_ns: u64,
}

impl WaitTimes {
    /// The time spent on one kind of waiting.
    pub open spec fn spent(self, kind: WaitKind) -> u64 {
        match kind {
            WaitKind::WaitDispatchRoute => self.wait_dispatch_route_ns,
            WaitKind::RouteExchange => self.route_exchange_ns,
            WaitKind::ProcessRouting => self.process_routing_ns,
            WaitKind::WaitDispatchSend => self.wait_dispatch_send_ns,
            WaitKind::DispatchTransferWait => self.dispatch_transfer_wait_ns,
            WaitKind::WaitDispatchRecv => self.wait_dispatch_recv_ns,
            WaitKind::DispatchBarrier => self.dispatch_barrier_ns,
            WaitKind::WaitCombineSend => self.wait_combine_send_ns,
            WaitKind::CombineTransferWait => self.combine_transfer_wait_ns,
            WaitKind::WaitCombineRecv => self.wait_combine_recv_ns,
            WaitKind::CombineBarrier => self.combine_barrier_ns,
        }
    }

    /// No time spent.
    pub fn new() -> (times: Self)
        ensures
            forall|kind: WaitKind| #[trigger] times.spent(kind) == 0,
    {
        WaitTimes {
            wait_dispatch_route_ns: 0,
            route_exchange_ns: 0,
            process_routing_ns: 0,
            wait_dispatch_send_ns: 0,
            dispatch_transfer_wait_ns: 0,
            wait_dispatch_recv_ns: 0,
            dispatch_barrier_ns: 0,
            wait_combine_send_ns: 0,
            combine_transfer_wait_ns: 0,
            wait_combine_recv_ns: 0,
            combine_barrier_ns: 0,
        }
    }

    /// Counts time spent. A time beyond 64 bits counts as the largest that fits; the counter
    /// wraps.
    pub fn add_elapsed_ns(&mut self, kind: WaitKind, elapsed_ns: u128)
        ensures
            final(self).spent(kind) == wrap64(
                old(self).spent(kind) + counted_ns(elapsed_ns),
            ),
            forall|other: WaitKind|
                other != kind ==> #[trigger] final(self).spent(other) == old(self).spent(other),
    {
        let ns: u64 = if elapsed_ns <= u64::MAX as u128 {
            elapsed_ns as u64
        } else {
            u64::MAX
        };
        match kind {
            WaitKind::WaitDispatchRoute => {
                self.wait_dispatch_route_ns = count_up(self.wait_dispatch_route_ns, ns);
            },
            WaitKind::RouteExchange => {
                self.route_exchange_ns = count_up(self.route_exchange_ns, ns);
            },
            WaitKind::ProcessRouting => {
                self.process_routing_ns = count_up(self.process_routing_ns, ns);
            },
            WaitKind::WaitDispatchSend => {
                self.wait_dispatch_send_ns = count_up(self.wait_dispatch_send_ns, ns);
            },
            WaitKind::DispatchTransferWait => {
                self.dispatch_transfer_wait_ns = count_up(self.dispatch_transfer_wait_ns, ns);
            },
            WaitKind::WaitDispatchRecv => {
                self.wait_dispatch_recv_ns = count_up(self.wait_dispatch_recv_ns, ns);
            },
            WaitKind::DispatchBarrier => {
                self.dispatch_barrier_ns = count_up(self.dispatch_barrier_ns, ns);
            },
            WaitKind::WaitCombineSend => {
                self.wait_combine_send_ns = count_up(self.wait_combine_send_ns, ns);
            },
            WaitKind::CombineTransferWait => {
                self.combine_transfer_wait_ns = count_up(self.combine_transfer_wait_ns, ns);
            },
            WaitKind::WaitCombineRecv => {
                self.wait_combine_recv_ns = count_up(self.wait_combine_recv_ns, ns);
            },
            WaitKind::CombineBarrier => {
                self.combine_barrier_ns = count_up(self.combine_barrier_ns, ns);
            },
        }
    }
}

/// All counters of one worker.
#[derive(Debug, Clone, PartialEq)]
pub struct WorkerCounters {
    pub dispatch: ByteCounters,
    pub combine: ByteCounters,
    pub times: WaitTimes,
}

/// The counters of all workers together.
#[derive(Debug, Clone, PartialEq)]
pub struct AllToAllPerfStats {
    pub local_dispatch_bytes: u64,
    pub nvlink_dispatch_bytes: u64,
    pub network_dispatch_bytes: u64,
    pub local_combine_bytes: u64,
    pub nvlink_combine_bytes: u64,
    pub network_combine_bytes: u64,
    pub peer_dispatch_bytes: Vec<u64>,
    pub peer_combine_bytes: Vec<u64>,
    pub wait_dispatch_route_ns: u64,
    pub route_exchange_ns: u64,
    pub process_routing_ns: u64,
    pub wait_dispatch_send_ns: u64,
    pub dispatch_transfer_wait_ns: u64,
    pub wait_dispatch_recv_ns: u64,
    pub dispatch_barrier_ns: u64,
    pub wait_combine_send_ns: u64,
    pub combine_transfer_wait_ns: u64,
    pub wait_combine_recv_ns: u64,
    pub combine_barrier_ns: u64,
}

impl WorkerCounters {
    /// Whether every counter is at zero, with one per rank for the peers.
    pub open spec fn at_zero(self, world_size: int) -> bool {
        &&& self.dispatch.local == 0
        &&& self.dispatch.nvlink == 0
        &&& self.dispatch.network == 0
        &&& self.dispatch.peer@ == Seq::new(world_size as nat, |p: int| 0u64)
        &&& self.combine.local == 0
        &&& self.combine.nvlink == 0
        &&& self.combine.network == 0
        &&& self.combine.peer@ == Seq::new(world_size as nat, |p: int| 0u64)
        &&& forall|kind: WaitKind| #[trigger] self.times.spent(kind) == 0
    }

    /// Counters at zero.
    pub fn new(world_size: usize) -> (counters: Self)
        ensures
            counters.at_zero(world_size as int),
    {
        WorkerCounters {
            dispatch: ByteCounters::new(world_size),
            combine: ByteCounters::new(world_size),
            times: WaitTimes::new(),
        }
    }

    /// One of the counters that are single numbers.
    fn scalar(&self, i: usize) -> (count: u64)
        requires
            i < SCALARS,
        ensures
            count == self.scalars()[i as int],
    {
        match i {
            0 => self.dispatch.local,
            1 => self.dispatch.nvlink,
            2 => self.dispatch.network,
            3 => self.combine.local,
            4 => self.combine.nvlink,
            5 => self.combine.network,
            6 => self.times.wait_dispatch_route_ns,
            7 => self.times.route_exchange_ns,
            8 => self.times.process_routing_ns,
            9 => self.times.wait_dispatch_send_ns,
            10 => self.times.dispatch_transfer_wait_ns,
            11 => self.times.wait_dispatch_recv_ns,
            12 => self.times.dispatch_barrier_ns,
            13 => self.times.wait_combine_send_ns,
            14 => self.times.combine_transfer_wait_ns,
            15 => self.times.wait_combine_recv_ns,
            _ => self.times.combine_barrier_ns,
        }
    }

    /// The counters that are single numbers, in the order of `AllToAllPerfStats::scalars`.
    pub open spec fn scalars(self) -> Seq<u64> {
        seq![
            self.dispatch.local,
            self.dispatch.nvlink,
            self.dispatch.network,
            self.combine.local,
            self.combine.nvlink,
            self.combine.network,
            self.times.wait_dispatch_route_ns,
            self.times.route_exchange_ns,
            self.times.process_routing_ns,
            self.times.wait_dispatch_send_ns,
            self.times.dispatch_transfer_wait_ns,
            self.times.wait_dispatch_recv_ns,
            self.times.dispatch_barrier_ns,
            self.times.wait_combine_send_ns,
            self.times.combine_transfer_wait_ns,
            self.times.wait_combine_recv_ns,
            self.times.combine_barrier_ns,
        ]
    }
}

impl AllToAllPerfStats {
    /// Whether every statistic is the sum of its counter over all workers.
    pub open spec fn sums(self, workers: Seq<WorkerCounters>, world_size: int) -> bool {
        let n = workers.len() as int;
        &&& forall|i: int|
            0 <= i < SCALARS ==> #[trigger] self.scalars()[i] == scalar_sum(workers, i, n)
        &&& self.peer_dispatch_bytes@.len() == world_size
        &&& self.peer_combine_bytes@.len() == world_size
        &&& forall|p: int|
            0 <= p < world_size ==> #[trigger] self.peer_dispatch_bytes@[p] == peer_dispatch_sum(
                workers,
                p,
                n,
            )
        &&& forall|p: int|
            0 <= p < world_size ==> #[trigger] self.peer_combine_bytes@[p] == peer_combine_sum(
                workers,
                p,
                n,
            )
    }

    /// The statistics that are single numbers.
    pub open spec fn scalars(self) -> Seq<u64> {
        seq![
            self.local_dispatch_bytes,
            self.nvlink_dispatch_bytes,
            self.network_dispatch_bytes,
            self.local_combine_bytes,
            self.nvlink_combine_bytes,
            self.network_combine_bytes,
            self.wait_dispatch_route_ns,
            self.route_exchange_ns,
            self.process_routing_ns,
            self.wait_dispatch_send_ns,
            self.dispatch_transfer_wait_ns,
            self.wait_dispatch_recv_ns,
            self.dispatch_barrier_ns,
            self.wait_combine_send_ns,
            self.combine_transfer_wait_ns,
            self.wait_combine_recv_ns,
            self.combine_barrier_ns,
        ]
    }
}

/// The sum of one counter over the first `n` workers.
pub open spec fn scalar_sum(workers: Seq<WorkerCounters>, i: int, n: int) -> int
    decreases n,
{
    if n <= 0 {
        0
    } else {
        scalar_sum(workers, i, n - 1) + workers[n - 1].scalars()[i]
    }
}

/// What a counter per peer holds for a peer, zero where it has no entry.
pub open spec fn entry(counters: Seq<u64>, peer: int) -> int {
    if peer < counters.len() {
        counters[peer] as int
    } else {
        0
    }
}

/// The bytes dispatched to a peer by the first `n` workers.
pub open spec fn peer_dispatch_sum(workers: Seq<WorkerCounters>, peer: int, n: int) -> int
    decreases n,
{
    if n <= 0 {
        0
    } else {
        peer_dispatch_sum(workers, peer, n - 1) + entry(workers[n - 1].dispatch.peer@, peer)
    }
}

/// The bytes sent back to a peer by the first `n` workers.
pub open spec fn peer_combine_sum(workers: Seq<WorkerCounters>, peer: int, n: int) -> int
    decreases n,
{
    if n <= 0 {
        0
    } else {
        peer_combine_sum(workers, peer, n - 1) + entry(workers[n - 1].combine.peer@, peer)
    }
}

/// Whether the sums over all workers fit 64 bits.
pub open spec fn sums_fit(workers: Seq<WorkerCounters>, world_size: int) -> bool {
    let n = workers.len() as int;
    &&& forall|i: int| 0 <= i < SCALARS ==> #[trigger] scalar_sum(workers, i, n) <= u64::MAX
    &&& forall|p: int|
        0 <= p < world_size ==> #[trigger] peer_dispatch_sum(workers, p, n) <= u64::MAX
    &&& forall|p: int|
        0 <= p < world_size ==> #[trigger] peer_combine_sum(workers, p, n) <= u64::MAX
}

/// The number of counters that are single numbers.
pub const SCALARS: usize = 17;

proof fn lemma_sums_monotone(workers: Seq<WorkerCounters>, m: int, n: int)
    requires
        m <= n,
    ensures
        forall|i: int|
            0 <= i < SCALARS ==> #[trigger] scalar_sum(workers, i, m) <= scalar_sum(
                workers,
                i,
                n,
            ),
        forall|p: int| #[trigger]
            peer_dispatch_sum(workers, p, m) <= peer_dispatch_sum(workers, p, n),
        forall|p: int| #[trigger]
            peer_combine_sum(workers, p, m) <= peer_combine_sum(workers, p, n),
    decreases n - m,
{
    if m < n {
        lemma_sums_monotone(workers, m, n - 1);
        if n <= 0 {
            assert forall|i: int| 0 <= i < SCALARS implies #[trigger] scalar_sum(workers, i, m)
                <= scalar_sum(workers, i, n) by {
                assert(scalar_sum(workers, i, n) == 0);
            }
        } else {
            assert forall|i: int| 0 <= i < SCALARS implies #[trigger] scalar_sum(workers, i, m)
                <= scalar_sum(workers, i, n) by {
                assert(scalar_sum(workers, i, m) <= scalar_sum(workers, i, n - 1));
            }
            assert forall|p: int| #[trigger]
                peer_dispatch_sum(workers, p, m) <= peer_dispatch_sum(workers, p, n) by {
                assert(peer_dispatch_sum(workers, p, m) <= peer_dispatch_sum(workers, p, n - 1));
            }
            assert forall|p: int| #[trigger]
                peer_combine_sum(workers, p, m) <= peer_combine_sum(workers, p, n) by {
                assert(peer_combine_sum(workers, p, m) <= peer_combine_sum(workers, p, n - 1));
            }
        }
    }
}

/// Adds `values` to `sums`, entry by entry, as far as both reach.
fn add_entries(sums: &mut Vec<u64>, values: &Vec<u64>)
    requires
        forall|p: int|
            0 <= p < old(sums)@.len() ==> #[trigger] old(sums)@[p] + entry(values@, p)
                <= u64::MAX,
    ensures
        final(sums)@.len() == old(sums)@.len(),
        forall|p: int|
            0 <= p < old(sums)@.len() ==> #[trigger] final(sums)@[p] == old(sums)@[p] + entry(
                values@,
                p,
            ),
{
    let ghost before = sums@;
    let mut p: usize = 0;
    while p < sums.len() && p < values.len()
        invariant
            p <= sums@.len(),
            p <= values@.len(),
            sums@.len() == before.len(),
            forall|q: int|
                0 <= q < before.len() ==> #[trigger] before[q] + entry(values@, q) <= u64::MAX,
            forall|q: int|
                0 <= q < before.len() ==> #[trigger] sums@[q] == before[q] + if q < p {
                    entry(values@, q)
                } else {
                    0
                },
        decreases sums@.len() - p,
    {
        proof {
            assert(before[p as int] + entry(values@, p as int) <= u64::MAX);
        }
        let sum: u64 = sums[p] + values[p];
        sums.set(p, sum);
        p = p + 1;
    }
}

/// Adds up the counters of all workers.
pub fn sum_counters(workers: &Vec<WorkerCounters>, world_size: usize) -> (stats: AllToAllPerfStats)
    requires
        sums_fit(workers@, world_size as int),
    ensures
        stats.sums(workers@, world_size as int),
{
    let mut stats = AllToAllPerfStats {
        local_dispatch_bytes: 0,
        nvlink_dispatch_bytes: 0,
        network_dispatch_bytes: 0,
        local_combine_bytes: 0,
        nvlink_combine_bytes: 0,
        network_combine_bytes: 0,
        peer_dispatch_bytes: vec![0u64; world_size],
        peer_combine_bytes: vec![0u64; world_size],
        wait_dispatch_route_ns: 0,
        route_exchange_ns: 0,
        process_routing_ns: 0,
        wait_dispatch_send_ns: 0,
        dispatch_transfer_wait_ns: 0,
        wait_dispatch_recv_ns: 0,
        dispatch_barrier_ns: 0,
        wait_combine_send_ns: 0,
        combine_transfer_wait_ns: 0,
        wait_combine_recv_ns: 0,
        combine_barrier_ns: 0,
    };
    let mut w: usize = 0;
    while w < workers.len()
        invariant
            w <= workers@.len(),
            sums_fit(workers@, world_size as int),
            forall|i: int|
                0 <= i < SCALARS ==> #[trigger] stats.scalars()[i] == scalar_sum(
                    workers@,
                    i,
                    w as int,
                ),
            stats.peer_dispatch_bytes@.len() == world_size,
            stats.peer_combine_bytes@.len() == world_size,
            forall|p: int|
                0 <= p < world_size ==> #[trigger] stats.peer_dispatch_bytes@[p]
                    == peer_dispatch_sum(workers@, p, w as int),
            forall|p: int|
                0 <= p < world_size ==> #[trigger] stats.peer_combine_bytes@[p]
                    == peer_combine_sum(workers@, p, w as int),
        decreases workers@.len() - w,
    {
        let ghost before = stats;
        let ghost worker = workers@[w as int];
        proof {
            lemma_sums_monotone(workers@, w + 1, workers@.len() as int);
            assert forall|i: int| 0 <= i < SCALARS implies #[trigger] before.scalars()[i]
                + workers@[w as int].scalars()[i] <= u64::MAX by {
                assert(scalar_sum(workers@, i, w + 1) <= scalar_sum(
                    workers@,
                    i,
                    workers@.len() as int,
                ));
            }
            assert(before.scalars()[0] == before.local_dispatch_bytes);
            assert(worker.scalars()[0] == worker.dispatch.local);
            assert(before.scalars()[1] == before.nvlink_dispatch_bytes);
            assert(worker.scalars()[1] == worker.dispatch.nvlink);
            assert(before.scalars()[2] == before.network_dispatch_bytes);
            assert(worker.scalars()[2] == worker.dispatch.network);
            assert(before.scalars()[3] == before.local_combine_bytes);
            assert(worker.scalars()[3] == worker.combine.local);
            assert(before.scalars()[4] == before.nvlink_combine_bytes);
            assert(worker.scalars()[4] == worker.combine.nvlink);
            assert(before.scalars()[5] == before.network_combine_bytes);
            assert(worker.scalars()[5] == worker.combine.network);
            assert(before.scalars()[6] == before.wait_dispatch_route_ns);
            assert(worker.scalars()[6] == worker.times.wait_dispatch_route_ns);
            assert(before.scalars()[7] == before.route_exchange_ns);
            assert(worker.scalars()[7] == worker.times.route_exchange_ns);
            assert(before.scalars()[8] == before.process_routing_ns);
            assert(worker.scalars()[8] == worker.times.process_routing_ns);
            assert(before.scalars()[9] == before.wait_dispatch_send_ns);
            assert(worker.scalars()[9] == worker.times.wait_dispatch_send_ns);
            assert(before.scalars()[10] == before.dispatch_transfer_wait_ns);
            assert(worker.scalars()[10] == worker.times.dispatch_transfer_wait_ns);
            assert(before.scalars()[11] == before.wait_dispatch_recv_ns);
            assert(worker.scalars()[11] == worker.times.wait_dispatch_recv_ns);
            assert(before.scalars()[12] == before.dispatch_barrier_ns);
            assert(worker.scalars()[12] == worker.times.dispatch_barrier_ns);
            assert(before.scalars()[13] == before.wait_combine_send_ns);
            assert(worker.scalars()[13] == worker.times.wait_combine_send_ns);
            assert(before.scalars()[14] == before.combine_transfer_wait_ns);
            assert(worker.scalars()[14] == worker.times.combine_transfer_wait_ns);
            assert(before.scalars()[15] == before.wait_combine_recv_ns);
            assert(worker.scalars()[15] == worker.times.wait_combine_recv_ns);
            assert(before.scalars()[16] == before.combine_barrier_ns);
            assert(worker.scalars()[16] == worker.times.combine_barrier_ns);
            assert forall|p: int| 0 <= p < world_size implies #[trigger]
                before.peer_dispatch_bytes@[p] + entry(workers@[w as int].dispatch.peer@, p)
                <= u64::MAX by {
                assert(peer_dispatch_sum(workers@, p, w + 1) <= peer_dispatch_sum(
                    workers@,
                    p,
                    workers@.len() as int,
                ));
            }
            assert forall|p: int| 0 <= p < world_size implies #[trigger]
                before.peer_combine_bytes@[p] + entry(workers@[w as int].combine.peer@, p)
                <= u64::MAX by {
                assert(peer_combine_sum(workers@, p, w + 1) <= peer_combine_sum(
                    workers@,
                    p,
                    workers@.len() as int,
                ));
            }
        }
        stats.local_dispatch_bytes = stats.local_dispatch_bytes + workers[w].dispatch.local;
        stats.nvlink_dispatch_bytes = stats.nvlink_dispatch_bytes + workers[w].dispatch.nvlink;
        stats.network_dispatch_bytes = stats.network_dispatch_bytes + workers[w].dispatch.network;
        stats.local_combine_bytes = stats.local_combine_bytes + workers[w].combine.local;
        stats.nvlink_combine_bytes = stats.nvlink_combine_bytes + workers[w].combine.nvlink;
        stats.network_combine_bytes = stats.network_combine_bytes + workers[w].combine.network;
        let times: WaitTimes = workers[w].times;
        stats.wait_dispatch_route_ns += times.wait_dispatch_route_ns;
        stats.route_exchange_ns += times.route_exchange_ns;
        stats.process_routing_ns += times.process_routing_ns;
        stats.wait_dispatch_send_ns += times.wait_dispatch_send_ns;
        stats.dispatch_transfer_wait_ns += times.dispatch_transfer_wait_ns;
        stats.wait_dispatch_recv_ns += times.wait_dispatch_recv_ns;
        stats.dispatch_barrier_ns += times.dispatch_barrier_ns;
        stats.wait_combine_send_ns += times.wait_combine_send_ns;
        stats.combine_transfer_wait_ns += times.combine_transfer_wait_ns;
        stats.wait_combine_recv_ns += times.wait_combine_recv_ns;
        stats.combine_barrier_ns += times.combine_barrier_ns;
        add_entries(&mut stats.peer_dispatch_bytes, &workers[w].dispatch.peer);
        add_entries(&mut stats.peer_combine_bytes, &workers[w].combine.peer);
        w = w + 1;
        proof {
            assert forall|i: int| 0 <= i < SCALARS implies #[trigger] stats.scalars()[i]
                == scalar_sum(workers@, i, w as int) by {
                assert(stats.scalars()[i] == before.scalars()[i] + workers@[w - 1].scalars()[i]);
            }
        }
    }
    stats
}

/// Checks that the sums over all workers fit 64 bits.
pub fn check_sums(workers: &Vec<WorkerCounters>, world_size: usize) -> (fit: bool)
    ensures
        fit == sums_fit(workers@, world_size as int),
{
    let ghost n = workers@.len() as int;
    let mut i: usize = 0;
    while i < SCALARS
        invariant
            n == workers@.len(),
            i <= SCALARS,
            forall|j: int| 0 <= j < i ==> #[trigger] scalar_sum(workers@, j, n) <= u64::MAX,
        decreases SCALARS - i,
    {
        let mut sum: u64 = 0;
        let mut w: usize = 0;
        while w < workers.len()
            invariant
                n == workers@.len(),
                i < SCALARS,
                w <= workers@.len(),
                sum == scalar_sum(workers@, i as int, w as int),
            decreases workers@.len() - w,
        {
            match sum.checked_add(workers[w].scalar(i)) {
                Some(more) => {
                    sum = more;
                },
                None => {
                    proof {
                        lemma_sums_monotone(workers@, w + 1, n);
                        assert(scalar_sum(workers@, i as int, w + 1) > u64::MAX);
                    }
                    return false;
                },
            }
            w = w + 1;
        }
        i = i + 1;
    }
    let mut p: usize = 0;
    while p < world_size
        invariant
            n == workers@.len(),
            p <= world_size,
            forall|q: int| 0 <= q < p ==> #[trigger] peer_dispatch_sum(workers@, q, n) <= u64::MAX,
            forall|q: int| 0 <= q < p ==> #[trigger] peer_combine_sum(workers@, q, n) <= u64::MAX,
        decreases world_size - p,
    {
        let mut dispatch: u64 = 0;
        let mut combine: u64 = 0;
        let mut w: usize = 0;
        while w < workers.len()
            invariant
                n == workers@.len(),
                p < world_size,
                w <= workers@.len(),
                dispatch == peer_dispatch_sum(workers@, p as int, w as int),
                combine == peer_combine_sum(workers@, p as int, w as int),
            decreases workers@.len() - w,
        {
            let more_dispatch: Option<u64> = add_entry(dispatch, &workers[w].dispatch.peer, p);
            let more_combine: Option<u64> = add_entry(combine, &workers[w].combine.peer, p);
            if more_dispatch.is_none() || more_combine.is_none() {
                proof {
                    lemma_sums_monotone(workers@, w + 1, n);
                    assert(peer_dispatch_sum(workers@, p as int, w + 1) > u64::MAX
                        || peer_combine_sum(workers@, p as int, w + 1) > u64::MAX);
                }
                return false;
            }
            dispatch = more_dispatch.unwrap();
            combine = more_combine.unwrap();
            w = w + 1;
        }
        p = p + 1;
    }
    true
}

/// Adds the entry for a peer to a sum, if it fits.
fn add_entry(sum: u64, counters: &Vec<u64>, peer: usize) -> (more: Option<u64>)
    ensures
        match more {
            Some(more) => more == sum + entry(counters@, peer as int),
            None => sum + entry(counters@, peer as int) > u64::MAX,
        },
{
    if peer < counters.len() {
        sum.checked_add(counters[peer])
    } else {
        Some(sum)
    }
}

} // verus!
