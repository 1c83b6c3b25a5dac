//! Tests of what a round needs of its sizes and of its route counts: whether every byte range and
//! message count fits its integer type.

use vstd::prelude::*;
use crate::arith::{align_up_spec, ceil_div, lemma_ceil_div, min_usize};
use crate::cluster::Cluster;
use crate::config::{lemma_has_groups, ContextConfig, TOKEN_ALIGNMENT};
use crate::limits::{block_total, check_placed, check_plan, row_total, wide_product};
use crate::ranges::{combine_range_fits, initial_ranges_fit, overflow_range_fits, range_fits};
use crate::routing::{ascending, covers, lemma_visited_sum_nonneg, table, RouteTable};
use crate::step::Round;
use crate::traffic::{
    count_group_traffic, group_totals_match, lemma_valid_sizes, rank_totals_match, GroupTraffic,
};
use crate::transfer_plan::{
    compute_initial_dispatch_transfer_plans, initial_transfer, lemma_placed_sizes,
    list_remote_peers, RemoteTransferPlan,
};
use crate::worker::{route_table, WorkerState};

verus! {

/// The size of a part of a token, aligned, if both sizes fit.
fn aligned_size(elements: usize, element_size: usize) -> (size: Option<usize>)
    ensures
        match size {
            Some(size) => {
                &&& elements * element_size <= usize::MAX
                &&& size == align_up_spec(
                    elements * element_size,
                    TOKEN_ALIGNMENT as int,
                )
            },
            None => elements * element_size > usize::MAX || align_up_spec(
                elements * element_size,
                TOKEN_ALIGNMENT as int,
            ) > usize::MAX,
        },
{
    let bytes: u128 = wide_product(elements as u64, element_size as u64);
    if bytes > usize::MAX as u128 {
        return None;
    }
    let blocks: usize = ceil_div(bytes as usize, TOKEN_ALIGNMENT);
    let aligned: u128 = wide_product(blocks as u64, TOKEN_ALIGNMENT as u64);
    if aligned > usize::MAX as u128 {
        return None;
    }
    Some(aligned as usize)
}

/// The size of a token on its way to an expert, if it fits.
fn checked_dispatch_dim(config: &ContextConfig) -> (dim: Option<usize>)
    ensures
        match dim {
            Some(dim) => config.dims_fit() && dim == config.dispatch_token_dim(),
            None => !config.dims_fit(),
        },
{
    proof {
        lemma_aligned_nonneg(config.hidden_dim, config.in_elemsize);
        lemma_aligned_nonneg(config.hidden_dim_scale, config.scale_elemsize);
    }
    let token: Option<usize> = aligned_size(config.hidden_dim, config.in_elemsize);
    let scale: Option<usize> = aligned_size(config.hidden_dim_scale, config.scale_elemsize);
    match (token, scale) {
        (Some(token), Some(scale)) => {
            let total: u128 = token as u128 + scale as u128 + TOKEN_ALIGNMENT as u128;
            if total <= usize::MAX as u128 {
                Some(total as usize)
            } else {
                None
            }
        },
        _ => None,
    }
}

proof fn lemma_aligned_nonneg(elements: usize, element_size: usize)
    ensures
        0 <= elements * element_size,
        0 <= align_up_spec(elements * element_size, TOKEN_ALIGNMENT as int),
{
    assert(0 <= elements * element_size) by (nonlinear_arith);
    lemma_ceil_div(elements * element_size, TOKEN_ALIGNMENT as int);
}

/// Checks that the product of two numbers fits 64 bits.
fn product_fits(a: u64, b: u64) -> (fits: bool)
    ensures
        fits == (a * b <= u64::MAX),
{
    wide_product(a, b) <= u64::MAX as u128
}

impl ContextConfig {
    /// Checks that the first dispatch writes of a round can be computed.
    pub fn check_initial(&self, num_routed: &Vec<Vec<u32>>) -> (fit: bool)
        requires
            self.has_groups(),
            covers(table(num_routed), self.cluster()),
        ensures
            fit == self.initial_routable(table(num_routed)),
    {
        let ghost t = table(num_routed);
        proof {
            lemma_has_groups(*self);
        }
        let c: Cluster = self.get_cluster();
        if !check_placed(&c) {
            return false;
        }
        proof {
            lemma_placed_sizes(c);
            assert(t[c.dp_group as int] == num_routed@[c.dp_group as int]@);
        }
        let dim: usize = match checked_dispatch_dim(self) {
            Some(dim) => dim,
            None => {
                return false;
            },
        };
        match row_total(num_routed, c.dp_group, 0, c.num_experts) {
            Some(sent) => {
                if sent as u128 > usize::MAX as u128 {
                    return false;
                }
            },
            None => {
                return false;
            },
        }
        let peers: Vec<usize> = list_remote_peers(c);
        proof {
            assert(peers@.map_values(|p: usize| p as int).len() == peers@.len());
        }
        if peers.len() > 0 && wide_product(c.dp_group as u64, self.max_private_tokens as u64)
            > usize::MAX as u128 {
            return false;
        }
        let transfers: Vec<RemoteTransferPlan> = compute_initial_dispatch_transfer_plans(
            c.dp_group,
            c.dp_rank,
            c.dp_size,
            c.node_size,
            c.world_size,
            c.num_experts,
            self.max_private_tokens,
            num_routed,
        );
        check_transfers(&transfers, dim as u64, Ghost(*self), Ghost(t))
    }
}

/// Checks that the byte ranges of the first writes fit.
fn check_transfers(
    transfers: &Vec<RemoteTransferPlan>,
    token_dim: u64,
    Ghost(config): Ghost<ContextConfig>,
    Ghost(t): Ghost<RouteTable>,
) -> (fit: bool)
    requires
        transfers@.len() == config.cluster().remote_peers().len(),
        forall|i: int|
            0 <= i < transfers@.len() ==> #[trigger] transfers@[i] == initial_transfer(
                config.cluster(),
                t,
                config.max_private_tokens as int,
                config.cluster().remote_peers()[i],
            ),
    ensures
        fit == initial_ranges_fit(
            config.cluster(),
            t,
            config.max_private_tokens as int,
            token_dim as int,
        ),
{
    let ghost peers = config.cluster().remote_peers();
    let mut i: usize = 0;
    while i < transfers.len()
        invariant
            i <= transfers@.len(),
            peers == config.cluster().remote_peers(),
            transfers@.len() == peers.len(),
            forall|j: int|
                0 <= j < transfers@.len() ==> #[trigger] transfers@[j] == initial_transfer(
                    config.cluster(),
                    t,
                    config.max_private_tokens as int,
                    peers[j],
                ),
            forall|j: int|
                0 <= j < i ==> range_fits(#[trigger] transfers@[j], token_dim as int),
        decreases transfers@.len() - i,
    {
        let transfer: &RemoteTransferPlan = &transfers[i];
        if !product_fits(transfer.length_tokens as u64, token_dim) || !product_fits(
            transfer.src_token_offset,
            token_dim,
        ) || !product_fits(transfer.dst_token_offset, token_dim) {
            proof {
                assert(!range_fits(transfers@[i as int], token_dim as int));
                assert(transfers@[i as int] == initial_transfer(
                    config.cluster(),
                    t,
                    config.max_private_tokens as int,
                    peers[i as int],
                ));
            }
            return false;
        }
        i = i + 1;
    }
    proof {
        assert forall|j: int|
            #![trigger peers[j]]
            0 <= j < peers.len() implies range_fits(
            initial_transfer(config.cluster(), t, config.max_private_tokens as int, peers[j]),
            token_dim as int,
        ) by {
            assert(range_fits(transfers@[j], token_dim as int));
        }
    }
    true
}

/// Where the tokens for a rank that its private buffer does not hold go: the offset in its
/// buffer, if it fits 64 bits.
fn overflow_place(c: &Cluster, num_routed: &Vec<Vec<u32>>, max_private_tokens: usize, rank: usize)
    -> (place: Option<u64>)
    requires
        c.valid(),
        covers(table(num_routed), *c),
        rank < c.world_size,
    ensures
        ({
            let offset = max_private_tokens * c.groups() + c.from_lower_groups_to(
                table(num_routed),
                rank as int,
            );
            match place {
                Some(place) => place == offset,
                None => offset > u64::MAX,
            }
        }),
{
    let ghost t = table(num_routed);
    let groups: usize = c.world_size / c.dp_size;
    let group: usize = rank / c.dp_size;
    proof {
        lemma_valid_sizes(*c);
        lemma_rank_block(*c, rank as int);
        assert(c.dp_group <= num_routed@.len());
        assert forall|g: int| 0 <= g < c.dp_group implies c.num_experts <= (
        #[trigger] num_routed@[g])@.len() by {
            assert(t[g] == num_routed@[g]@);
        }
        lemma_visited_sum_nonneg(
            t,
            ascending(c.dp_group as int),
            c.first_expert(group as int),
            c.last_expert(group as int),
            c.dp_group as int,
        );
        assert(0 <= max_private_tokens * c.groups()) by (nonlinear_arith)
            requires
                0 <= c.groups(),
        ;
    }
    let epr: usize = ceil_div(c.num_experts, groups);
    let first: usize = group * epr;
    let last: usize = min_usize(first + epr, c.num_experts);
    match block_total(num_routed, c.dp_group, first, last) {
        Some(below) => {
            let place: u128 = wide_product(max_private_tokens as u64, groups as u64)
                + below as u128;
            if place <= u64::MAX as u128 {
                Some(place as u64)
            } else {
                None
            }
        },
        None => None,
    }
}

/// The expert block of a rank's group lies within the range of sizes.
proof fn lemma_rank_block(c: Cluster, rank: int)
    requires
        c.valid(),
        0 <= rank < c.world_size,
    ensures
        0 <= c.first_expert(rank / c.dp_size as int),
        c.first_expert(rank / c.dp_size as int) + c.experts_per_rank() <= usize::MAX,
{
    lemma_valid_sizes(c);
    let dp = c.dp_size as int;
    let epr = c.experts_per_rank();
    let h = rank / dp;
    vstd::arithmetic::div_mod::lemma_fundamental_div_mod(rank, dp);
    vstd::arithmetic::div_mod::lemma_fundamental_div_mod(c.world_size as int, dp);
    assert(0 <= h <= c.groups()) by (nonlinear_arith)
        requires
            rank == dp * h + rank % dp,
            0 <= rank % dp < dp,
            0 <= rank < c.world_size,
            c.world_size == dp * c.groups() + c.world_size as int % dp,
            0 <= c.world_size as int % dp < dp,
    ;
    assert(0 <= h * epr <= c.groups() * epr) by (nonlinear_arith)
        requires
            0 <= h <= c.groups(),
            0 <= epr,
    ;
}

impl ContextConfig {
    /// Whether what this rank's group sends to a rank has a place there, and its bytes fit.
    spec fn sent_fits(self, t: RouteTable, p: int) -> bool {
        let c = self.cluster();
        let private = self.max_private_tokens as int;
        &&& c.to_rank(t, p) > private ==> private * c.groups() + c.from_lower_groups_to(t, p)
            <= u64::MAX
        &&& c.to_rank(t, p) * self.dispatch_token_dim() <= u64::MAX
    }

    /// Checks what this rank's group sends to each rank.
    fn check_sent(
        &self,
        c: &Cluster,
        num_routed: &Vec<Vec<u32>>,
        traffic: &GroupTraffic,
        dim: usize,
    ) -> (fit: bool)
        requires
            *c == self.cluster(),
            c.valid(),
            covers(table(num_routed), *c),
            rank_totals_match(
                *c,
                table(num_routed),
                traffic.tokens_to_rank@,
                traffic.dispatch_src_offset@,
            ),
            dim == self.dispatch_token_dim(),
        ensures
            fit == forall|p: int|
                0 <= p < c.world_size ==> #[trigger] self.sent_fits(table(num_routed), p),
    {
        let ghost t = table(num_routed);
        let mut p: usize = 0;
        while p < c.world_size
            invariant
                t == table(num_routed),
                *c == self.cluster(),
                c.valid(),
                covers(t, *c),
                rank_totals_match(
                    *c,
                    t,
                    traffic.tokens_to_rank@,
                    traffic.dispatch_src_offset@,
                ),
                dim == self.dispatch_token_dim(),
                p <= c.world_size,
                forall|q: int| 0 <= q < p ==> #[trigger] self.sent_fits(t, q),
            decreases c.world_size - p,
        {
            let tokens: u32 = traffic.tokens_to_rank[p];
            proof {
                assert(tokens == c.to_rank(t, p as int));
            }
            if tokens as u64 > self.max_private_tokens as u64 && overflow_place(
                c,
                num_routed,
                self.max_private_tokens,
                p,
            ).is_none() {
                proof {
                    assert(!self.sent_fits(t, p as int));
                }
                return false;
            }
            if !product_fits(tokens as u64, dim as u64) {
                proof {
                    assert(!self.sent_fits(t, p as int));
                }
                return false;
            }
            p = p + 1;
        }
        true
    }

    /// Checks the byte ranges of what overflows the private buffers of the remote peers.
    fn check_overflows(
        &self,
        c: &Cluster,
        num_routed: &Vec<Vec<u32>>,
        traffic: &GroupTraffic,
        dim: usize,
    ) -> (fit: bool)
        requires
            *c == self.cluster(),
            c.valid(),
            covers(table(num_routed), *c),
            rank_totals_match(
                *c,
                table(num_routed),
                traffic.tokens_to_rank@,
                traffic.dispatch_src_offset@,
            ),
            dim == self.dispatch_token_dim(),
            0 < dim,
        ensures
            fit == forall|i: int|
                #![trigger c.remote_peers()[i]]
                0 <= i < c.remote_peers().len() ==> overflow_range_fits(
                    *c,
                    table(num_routed),
                    self.max_private_tokens as int,
                    dim as int,
                    c.remote_peers()[i],
                ),
    {
        let ghost t = table(num_routed);
        let ghost private = self.max_private_tokens as int;
        proof {
            lemma_valid_sizes(*c);
        }
        let peers: Vec<usize> = list_remote_peers(*c);
        let ghost listed = peers@.map_values(|p: usize| p as int);
        let mut i: usize = 0;
        while i < peers.len()
            invariant
                t == table(num_routed),
                private == self.max_private_tokens,
                *c == self.cluster(),
                c.valid(),
                covers(t, *c),
                rank_totals_match(
                    *c,
                    t,
                    traffic.tokens_to_rank@,
                    traffic.dispatch_src_offset@,
                ),
                0 < dim,
                listed == peers@.map_values(|p: usize| p as int),
                listed == c.remote_peers(),
                forall|j: int| 0 <= j < peers@.len() ==> #[trigger] peers@[j] < c.world_size,
                i <= peers@.len(),
                forall|j: int|
                    #![trigger c.remote_peers()[j]]
                    0 <= j < i ==> overflow_range_fits(
                        *c,
                        t,
                        private,
                        dim as int,
                        c.remote_peers()[j],
                    ),
            decreases peers@.len() - i,
        {
            let p: usize = peers[i];
            proof {
                assert(listed[i as int] == p);
                assert(c.remote_peers()[i as int] == p);
            }
            if !self.check_overflow(c, num_routed, traffic, dim, p) {
                return false;
            }
            i = i + 1;
        }
        true
    }

    /// Checks the byte range of what overflows the private buffer at a rank.
    fn check_overflow(
        &self,
        c: &Cluster,
        num_routed: &Vec<Vec<u32>>,
        traffic: &GroupTraffic,
        dim: usize,
        p: usize,
    ) -> (fit: bool)
        requires
            *c == self.cluster(),
            c.valid(),
            covers(table(num_routed), *c),
            rank_totals_match(
                *c,
                table(num_routed),
                traffic.tokens_to_rank@,
                traffic.dispatch_src_offset@,
            ),
            0 < dim,
            p < c.world_size,
        ensures
            fit == overflow_range_fits(
                *c,
                table(num_routed),
                self.max_private_tokens as int,
                dim as int,
                p as int,
            ),
    {
        let ghost t = table(num_routed);
        let tokens: u64 = traffic.tokens_to_rank[p] as u64;
        let private: u64 = self.max_private_tokens as u64;
        proof {
            assert(traffic.tokens_to_rank@[p as int] == c.to_rank(t, p as int));
            assert(traffic.dispatch_src_offset@[p as int] == c.to_rank_start(t, p as int));
        }
        if tokens <= private {
            return true;
        }
        // The private tokens are fewer than the tokens here, so the sum fits.
        let start: u64 = private + traffic.dispatch_src_offset[p] as u64;
        if !product_fits(tokens - private, dim as u64) || !product_fits(start, dim as u64) {
            return false;
        }
        match overflow_place(c, num_routed, self.max_private_tokens, p) {
            Some(place) => product_fits(place, dim as u64),
            None => {
                proof {
                    let offset = private * c.groups() + c.from_lower_groups_to(t, p as int);
                    assert(offset * dim >= offset) by (nonlinear_arith)
                        requires
                            0 < dim,
                            0 <= offset,
                    ;
                }
                false
            },
        }
    }

    /// Checks the bytes that go back to each group.
    fn check_returned(
        &self,
        c: &Cluster,
        traffic: &GroupTraffic,
        dim: usize,
        Ghost(t): Ghost<RouteTable>,
    ) -> (fit: bool)
        requires
            0 < c.dp_size,
            group_totals_match(
                *c,
                t,
                traffic.tokens_from_group@,
                traffic.src_group_offset@,
                traffic.dst_group_offset@,
            ),
        ensures
            fit == forall|g: int|
                0 <= g < c.groups() ==> #[trigger] c.from_group(t, g) * dim <= u64::MAX,
    {
        let groups: usize = c.world_size / c.dp_size;
        let mut g: usize = 0;
        while g < groups
            invariant
                groups == c.groups(),
                group_totals_match(
                    *c,
                    t,
                    traffic.tokens_from_group@,
                    traffic.src_group_offset@,
                    traffic.dst_group_offset@,
                ),
                g <= groups,
                forall|h: int| 0 <= h < g ==> #[trigger] c.from_group(t, h) * dim <= u64::MAX,
            decreases groups - g,
        {
            proof {
                assert(traffic.tokens_from_group@[g as int] == c.from_group(t, g as int));
            }
            if !product_fits(traffic.tokens_from_group[g] as u64, dim as u64) {
                return false;
            }
            g = g + 1;
        }
        true
    }

    /// Checks the byte ranges of what goes back to other nodes.
    fn check_combines(
        &self,
        c: &Cluster,
        traffic: &GroupTraffic,
        dim: usize,
        Ghost(t): Ghost<RouteTable>,
    ) -> (fit: bool)
        requires
            c.placed(),
            group_totals_match(
                *c,
                t,
                traffic.tokens_from_group@,
                traffic.src_group_offset@,
                traffic.dst_group_offset@,
            ),
        ensures
            fit == forall|i: int|
                #![trigger c.remote_groups()[i]]
                0 <= i < c.remote_groups().len() ==> combine_range_fits(
                    *c,
                    t,
                    dim as int,
                    c.remote_groups()[i],
                ),
    {
        let ghost order = c.remote_groups();
        proof {
            lemma_placed_sizes(*c);
            lemma_remote_groups_listable(*c);
            assert(0 <= c.dp_group * c.dp_size) by (nonlinear_arith);
        }
        let rank: usize = c.dp_group * c.dp_size + c.dp_rank;
        let rank_node: usize = rank / c.node_size;
        let groups: usize = c.world_size / c.dp_size;
        let per_node: usize = c.node_size / c.dp_size;
        let nodes: usize = c.world_size / c.node_size;
        if nodes == 0 || per_node == 0 {
            return true;
        }
        let total: usize = (nodes - 1) * per_node;
        let mut i: usize = 0;
        while i < total
            invariant
                c.placed(),
                order == c.remote_groups(),
                order.len() == total,
                total == c.other_nodes() * c.groups_per_node(),
                rank_node == c.rank_node(),
                groups == c.groups(),
                1 <= groups,
                per_node == c.groups_per_node(),
                0 < per_node,
                group_totals_match(
                    *c,
                    t,
                    traffic.tokens_from_group@,
                    traffic.src_group_offset@,
                    traffic.dst_group_offset@,
                ),
                i <= total,
                forall|j: int|
                    #![trigger order[j]]
                    0 <= j < i ==> combine_range_fits(*c, t, dim as int, order[j]),
            decreases total - i,
        {
            proof {
                lemma_remote_group_place(*c, i as int);
            }
            let g: usize = ((rank_node + 1 + i / per_node) * per_node + i % per_node) % groups;
            proof {
                assert(order[i as int] == g);
                assert(traffic.tokens_from_group@[g as int] == c.from_group(t, g as int));
                assert(traffic.src_group_offset@[g as int] == c.from_groups_below(t, g as int)
                    as u32);
                assert(traffic.dst_group_offset@[g as int] == c.from_group_to_lower(t, g as int));
            }
            if !product_fits(traffic.tokens_from_group[g] as u64, dim as u64) || !product_fits(
                traffic.src_group_offset[g] as u64,
                dim as u64,
            ) || !product_fits(traffic.dst_group_offset[g] as u64, dim as u64) {
                proof {
                    assert(!combine_range_fits(*c, t, dim as int, order[i as int]));
                }
                return false;
            }
            i = i + 1;
        }
        true
    }

    /// Checks that the routing of a round can be processed.
    pub fn check_routing(&self, num_routed: &Vec<Vec<u32>>, nets_per_gpu: u32) -> (fit: bool)
        requires
            self.has_groups(),
        ensures
            fit == self.routable(table(num_routed), nets_per_gpu as int),
    {
        let ghost t = table(num_routed);
        if !check_plan(self, num_routed, nets_per_gpu) {
            return false;
        }
        proof {
            lemma_has_groups(*self);
            lemma_aligned_nonneg(self.hidden_dim, self.in_elemsize);
            lemma_aligned_nonneg(self.hidden_dim_scale, self.scale_elemsize);
        }
        let c: Cluster = self.get_cluster();
        let dispatch_dim: usize = match checked_dispatch_dim(self) {
            Some(dim) => dim,
            None => {
                return false;
            },
        };
        let combine_dim: usize = match aligned_size(self.hidden_dim, self.out_elemsize) {
            Some(dim) => dim,
            None => {
                return false;
            },
        };
        proof {
            lemma_valid_sizes(c);
        }
        let traffic: GroupTraffic = count_group_traffic(
            c,
            num_routed,
            self.max_private_tokens,
            nets_per_gpu,
        );
        let fit: bool = self.check_sent(&c, num_routed, &traffic, dispatch_dim)
            && self.check_overflows(&c, num_routed, &traffic, dispatch_dim)
            && self.check_combines(&c, &traffic, combine_dim, Ghost(t))
            && self.check_returned(&c, &traffic, combine_dim, Ghost(t));
        proof {
            self.lemma_sent(t);
        }
        fit
    }

    /// What is sent to each rank fits where its places and its bytes do.
    proof fn lemma_sent(self, t: RouteTable)
        ensures
            (forall|p: int| 0 <= p < self.world_size ==> #[trigger] self.sent_fits(t, p)) == ({
                let c = self.cluster();
                let private = self.max_private_tokens as int;
                &&& forall|p: int|
                    0 <= p < c.world_size && #[trigger] c.to_rank(t, p) > private ==> private
                        * c.groups() + c.from_lower_groups_to(t, p) <= u64::MAX
                &&& forall|p: int|
                    0 <= p < c.world_size ==> #[trigger] c.to_rank(t, p)
                        * self.dispatch_token_dim() <= u64::MAX
            }),
    {
        let c = self.cluster();
        if forall|p: int| 0 <= p < self.world_size ==> #[trigger] self.sent_fits(t, p) {
            assert forall|p: int|
                0 <= p < c.world_size && #[trigger] c.to_rank(t, p)
                    > self.max_private_tokens implies self.max_private_tokens * c.groups()
                + c.from_lower_groups_to(t, p) <= u64::MAX by {
                assert(self.sent_fits(t, p));
            }
            assert forall|p: int| 0 <= p < c.world_size implies #[trigger] c.to_rank(t, p)
                * self.dispatch_token_dim() <= u64::MAX by {
                assert(self.sent_fits(t, p));
            }
        }
    }
}

/// The groups on other nodes can be counted.
proof fn lemma_remote_groups_listable(c: Cluster)
    requires
        c.placed(),
    ensures
        0 <= c.other_nodes() * c.groups_per_node() <= c.world_size,
        0 <= c.groups_per_node(),
{
    lemma_placed_sizes(c);
    assert(0 <= c.other_nodes() * c.groups_per_node() <= c.other_nodes() * c.node_size)
        by (nonlinear_arith)
        requires
            0 <= c.other_nodes(),
            0 <= c.groups_per_node() <= c.node_size,
    ;
}

/// The place of a group on another node can be computed.
proof fn lemma_remote_group_place(c: Cluster, i: int)
    requires
        c.placed(),
        0 < c.groups_per_node(),
        0 <= i < c.other_nodes() * c.groups_per_node(),
    ensures
        0 <= i / c.groups_per_node(),
        c.rank_node() + 1 + i / c.groups_per_node() <= usize::MAX,
        0 <= (c.rank_node() + 1 + i / c.groups_per_node()) * c.groups_per_node(),
        (c.rank_node() + 1 + i / c.groups_per_node()) * c.groups_per_node() + i
            % c.groups_per_node() <= usize::MAX,
{
    let gpn = c.groups_per_node();
    let node = c.node_size as int;
    let others = c.other_nodes();
    lemma_placed_sizes(c);
    lemma_remote_groups_listable(c);
    vstd::arithmetic::div_mod::lemma_fundamental_div_mod(i, gpn);
    let q = i / gpn;
    let r = i % gpn;
    assert(0 <= q < others) by (nonlinear_arith)
        requires
            i == gpn * q + r,
            0 <= r < gpn,
            0 <= i < others * gpn,
    ;
    assert(0 <= (c.rank_node() + 1 + q) * gpn && (c.rank_node() + 1 + q) * gpn + r <= c.rank_node()
        * node + others * gpn + gpn) by (nonlinear_arith)
        requires
            0 <= c.rank_node(),
            0 <= q < others,
            0 < gpn <= node,
            0 <= r < gpn,
    ;
    assert(c.rank_node() * node + others * gpn + gpn <= 2 * c.world_size) by {
        assert(others * gpn + gpn <= c.nodes() * node) by (nonlinear_arith)
            requires
                others == c.nodes() - 1,
                0 < gpn <= node,
                0 < c.nodes(),
        ;
    }
}

impl WorkerState {
    /// Checks that the sizes allow for a round.
    pub fn check_ready(&self, nets_per_gpu: u32) -> (ready: bool)
        requires
            self.wf(),
        ensures
            ready == self.round_ready(nets_per_gpu as int),
    {
        let config: &ContextConfig = &self.config;
        if config.node_size == 0 || config.node_size > config.world_size {
            return false;
        }
        let groups: usize = config.world_size / config.dp_size;
        proof {
            let node = config.node_size as int;
            let world = config.world_size as int;
            vstd::arithmetic::div_mod::lemma_fundamental_div_mod(world, node);
            assert(1 <= world / node) by (nonlinear_arith)
                requires
                    world == node * (world / node) + world % node,
                    0 <= world % node < node,
                    0 < node <= world,
            ;
        }
        if groups as u32 == 0 {
            return false;
        }
        let remote: u128 = wide_product(
            (config.world_size / config.node_size - 1) as u64,
            (config.node_size / config.dp_size) as u64,
        );
        if remote > usize::MAX as u128 {
            return false;
        }
        wide_product((remote as u32) as u64, nets_per_gpu as u64) <= u32::MAX as u128
    }

    /// The routing table of a round, if there is a count for every group and expert.
    fn checked_table(&self, counts: &Vec<u32>) -> (rows: Option<Vec<Vec<u32>>>)
        requires
            self.wf(),
        ensures
            match rows {
                Some(rows) => self.counts_cover(counts@) && table(&rows) == self.routes(counts@)
                    && covers(table(&rows), self.config.cluster()),
                None => !self.counts_cover(counts@),
            },
    {
        proof {
            lemma_has_groups(self.config);
        }
        let groups: usize = self.config.world_size / self.config.dp_size;
        if wide_product(groups as u64, self.config.num_experts as u64) > counts.len() as u128 {
            return None;
        }
        Some(route_table(groups, self.config.num_experts, counts))
    }

    /// Checks that a round can go on with its first writes, given the route counts.
    pub fn check_initial_counts(&self, counts: &Vec<u32>, nets_per_gpu: u32) -> (fit: bool)
        requires
            self.wf(),
        ensures
            fit == (self.round_ready(nets_per_gpu as int) && self.counts_cover(counts@)
                && self.config.initial_routable(self.routes(counts@))),
    {
        if !self.check_ready(nets_per_gpu) {
            return false;
        }
        match self.checked_table(counts) {
            Some(rows) => self.config.check_initial(&rows),
            None => false,
        }
    }

    /// Checks that the routing of a round can be processed, given the route counts.
    pub fn check_counts(&self, counts: &Vec<u32>, nets_per_gpu: u32) -> (fit: bool)
        requires
            self.wf(),
        ensures
            fit == (self.round_ready(nets_per_gpu as int) && self.counts_cover(counts@)
                && self.config.routable(self.routes(counts@), nets_per_gpu as int)),
    {
        if !self.check_ready(nets_per_gpu) {
            return false;
        }
        match self.checked_table(counts) {
            Some(rows) => self.config.check_routing(&rows, nets_per_gpu),
            None => false,
        }
    }
}

impl Round {
    /// Checks that the round can go on with these route counts.
    pub fn check_counts(&self, worker: &WorkerState, counts: &Vec<u32>) -> (fit: bool)
        requires
            worker.wf(),
        ensures
            fit == self.takes_counts(*worker, counts@),
    {
        if self.reads_left == 2 {
            worker.check_initial_counts(counts, self.nets_per_gpu)
        } else {
            worker.check_counts(counts, self.nets_per_gpu)
        }
    }
}

} // verus!
