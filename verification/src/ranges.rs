//! Byte ranges of the transfers between exchange buffers.

use vstd::prelude::*;
use crate::cluster::Cluster;
use crate::receive_plan::ReceiveRoutePlan;
use crate::routing::RouteTable;
use crate::transfer_plan::{
    combine_transfer, initial_transfer, overflow_transfer, overflow_transfers, RemoteTransferPlan,
};

verus! {

/// A run of bytes to write from this rank's buffer into a peer's.
#[derive(Clone, Copy, Debug, PartialEq, Eq, Structural)]
pub struct ScatterRange {
    pub peer_rank: usize,
    pub length: u64,
    pub src_offset: u64,
    pub dst_offset: u64,
}

/// The byte range of a transfer of tokens that take `token_dim` bytes each.
pub open spec fn byte_range(transfer: RemoteTransferPlan, token_dim: int) -> ScatterRange {
    ScatterRange {
        peer_rank: transfer.peer_rank,
        length: (transfer.length_tokens * token_dim) as u64,
        src_offset: (transfer.src_token_offset * token_dim) as u64,
        dst_offset: (transfer.dst_token_offset * token_dim) as u64,
    }
}

/// Whether the byte range of a transfer fits 64 bits.
pub open spec fn range_fits(transfer: RemoteTransferPlan, token_dim: int) -> bool {
    &&& transfer.length_tokens * token_dim <= u64::MAX
    &&& transfer.src_token_offset * token_dim <= u64::MAX
    &&& transfer.dst_token_offset * token_dim <= u64::MAX
}

/// The byte ranges of a list of transfers.
pub open spec fn byte_ranges(transfers: Seq<RemoteTransferPlan>, token_dim: int) -> Seq<
    ScatterRange,
> {
    Seq::new(transfers.len(), |i: int| byte_range(transfers[i], token_dim))
}

/// Whether the byte ranges of the first dispatch transfers fit 64 bits.
pub open spec fn initial_ranges_fit(
    c: Cluster,
    t: RouteTable,
    max_private_tokens: int,
    token_dim: int,
) -> bool {
    forall|i: int|
        #![trigger c.remote_peers()[i]]
        0 <= i < c.remote_peers().len() ==> range_fits(
            initial_transfer(c, t, max_private_tokens, c.remote_peers()[i]),
            token_dim,
        )
}

/// Whether the byte range of what overflows the private buffer at `peer_rank` fits 64 bits.
pub open spec fn overflow_range_fits(
    c: Cluster,
    t: RouteTable,
    max_private_tokens: int,
    token_dim: int,
    peer_rank: int,
) -> bool {
    c.to_rank(t, peer_rank) > max_private_tokens ==> {
        &&& (c.to_rank(t, peer_rank) - max_private_tokens) * token_dim <= u64::MAX
        &&& (max_private_tokens + c.to_rank_start(t, peer_rank)) * token_dim <= u64::MAX
        &&& (max_private_tokens * c.groups() + c.from_lower_groups_to(t, peer_rank)) * token_dim
            <= u64::MAX
    }
}

/// Whether the byte range of what goes back to `group` fits 64 bits.
pub open spec fn combine_range_fits(
    c: Cluster,
    t: RouteTable,
    token_dim: int,
    group: int,
) -> bool {
    &&& c.from_group(t, group) * token_dim <= u64::MAX
    &&& (c.from_groups_below(t, group) as u32) * token_dim <= u64::MAX
    &&& c.from_group_to_lower(t, group) * token_dim <= u64::MAX
}

/// Turns transfers of tokens into byte ranges.
pub fn to_byte_ranges(transfers: &Vec<RemoteTransferPlan>, token_dim: u64) -> (ranges: Vec<
    ScatterRange,
>)
    requires
        forall|i: int|
            0 <= i < transfers@.len() ==> range_fits(
                #[trigger] transfers@[i],
                token_dim as int,
            ),
    ensures
        ranges@ == byte_ranges(transfers@, token_dim as int),
{
    let mut ranges: Vec<ScatterRange> = Vec::new();
    let mut i: usize = 0;
    while i < transfers.len()
        invariant
            i <= transfers@.len(),
            forall|j: int|
                0 <= j < transfers@.len() ==> range_fits(
                    #[trigger] transfers@[j],
                    token_dim as int,
                ),
            ranges@ == byte_ranges(transfers@.take(i as int), token_dim as int),
        decreases transfers@.len() - i,
    {
        let transfer: &RemoteTransferPlan = &transfers[i];
        proof {
            assert(range_fits(transfers@[i as int], token_dim as int));
            assert(0 <= transfer.length_tokens * token_dim) by (nonlinear_arith);
            assert(0 <= transfer.src_token_offset * token_dim) by (nonlinear_arith);
            assert(0 <= transfer.dst_token_offset * token_dim) by (nonlinear_arith);
        }
        ranges.push(
            ScatterRange {
                peer_rank: transfer.peer_rank,
                length: transfer.length_tokens as u64 * token_dim,
                src_offset: transfer.src_token_offset * token_dim,
                dst_offset: transfer.dst_token_offset * token_dim,
            },
        );
        i = i + 1;
        proof {
            assert(ranges@ =~= byte_ranges(transfers@.take(i as int), token_dim as int));
        }
    }
    proof {
        assert(transfers@.take(i as int) =~= transfers@);
    }
    ranges
}

/// The overflow transfers of a plan have byte ranges where those of the routing table have.
pub proof fn lemma_overflow_ranges_fit(
    c: Cluster,
    t: RouteTable,
    plan: ReceiveRoutePlan,
    max_private_tokens: int,
    token_dim: int,
    n: int,
)
    requires
        0 <= n <= c.remote_peers().len(),
        0 < c.world_size,
        0 <= max_private_tokens,
        0 <= token_dim,
        crate::traffic::rank_totals_match(
            c,
            t,
            plan.tokens_to_rank@,
            plan.dispatch_src_offset@,
        ),
        max_private_tokens <= usize::MAX,
        forall|p: int|
            0 <= p < c.world_size && #[trigger] c.to_rank(t, p) > max_private_tokens ==> 0
                <= max_private_tokens * c.groups() + c.from_lower_groups_to(t, p) <= u64::MAX,
        forall|i: int|
            #![trigger c.remote_peers()[i]]
            0 <= i < c.remote_peers().len() ==> overflow_range_fits(
                c,
                t,
                max_private_tokens,
                token_dim,
                c.remote_peers()[i],
            ),
    ensures
        forall|i: int|
            0 <= i < overflow_transfers(c, t, plan, max_private_tokens, n).len() ==> range_fits(
                #[trigger] overflow_transfers(c, t, plan, max_private_tokens, n)[i],
                token_dim,
            ),
    decreases n,
{
    if n > 0 {
        lemma_overflow_ranges_fit(c, t, plan, max_private_tokens, token_dim, n - 1);
        let p = c.remote_peers()[n - 1];
        assert(0 <= p < c.world_size);
        assert(plan.tokens_to_rank@[p] == c.to_rank(t, p));
        assert(plan.dispatch_src_offset@[p] == c.to_rank_start(t, p));
        assert(overflow_range_fits(c, t, max_private_tokens, token_dim, p));
        if plan.tokens_to_rank@[p] > max_private_tokens {
            let before = overflow_transfers(c, t, plan, max_private_tokens, n - 1);
            let transfer = overflow_transfer(c, t, plan, max_private_tokens, p);
            assert(range_fits(transfer, token_dim));
            assert(overflow_transfers(c, t, plan, max_private_tokens, n) == before.push(transfer));
        }
    }
}

/// The transfers back of a plan have byte ranges where those of the routing table have.
pub proof fn lemma_combine_range_fits(
    c: Cluster,
    t: RouteTable,
    plan: ReceiveRoutePlan,
    token_dim: int,
    group: int,
)
    requires
        0 <= group < c.groups(),
        crate::traffic::group_totals_match(
            c,
            t,
            plan.tokens_from_group@,
            plan.src_group_offset@,
            plan.dst_group_offset@,
        ),
        combine_range_fits(c, t, token_dim, group),
    ensures
        range_fits(combine_transfer(c, plan, group), token_dim),
{
    assert(plan.tokens_from_group@[group] == c.from_group(t, group));
    assert(plan.src_group_offset@[group] == c.from_groups_below(t, group) as u32);
    assert(plan.dst_group_offset@[group] == c.from_group_to_lower(t, group));
}

} // verus!
