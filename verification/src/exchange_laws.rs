//! What holds between the two ends of an exchange: what one rank writes is what the other
//! reads, and results come back to where their tokens stood.

use vstd::prelude::*;
use crate::cluster::{
    law_source_order_remote_local_self, lemma_group_node, lemma_regular, Cluster,
};
use crate::laws::{law_remote_peers_follow_source_order, law_sent_is_received, lemma_token};
use crate::receive_plan::{ReceiveRoutePlan, PEER_SEND_BUFFER};
use crate::routing::{ascending, lemma_visited_sum_monotone, RouteTable};
use crate::traffic::{group_totals_match, lemma_group_at, rank_totals_match};
use crate::transfer_plan::{
    combine_transfer, initial_transfer, overflow_transfer, overflow_transfers,
};

verus! {

/// A planned second transfer is in the list of transfers.
pub proof fn lemma_overflow_listed(
    c: Cluster,
    t: RouteTable,
    plan: ReceiveRoutePlan,
    max_private_tokens: int,
    n: int,
    i: int,
)
    requires
        0 <= i < n,
        plan.tokens_to_rank@[c.remote_peers()[i]] > max_private_tokens,
    ensures
        overflow_transfers(c, t, plan, max_private_tokens, n).contains(
            overflow_transfer(c, t, plan, max_private_tokens, c.remote_peers()[i]),
        ),
    decreases n,
{
    let all = overflow_transfers(c, t, plan, max_private_tokens, n);
    let before = overflow_transfers(c, t, plan, max_private_tokens, n - 1);
    let wanted = overflow_transfer(c, t, plan, max_private_tokens, c.remote_peers()[i]);
    if i == n - 1 {
        assert(all[all.len() - 1] == wanted);
    } else {
        lemma_overflow_listed(c, t, plan, max_private_tokens, n - 1, i);
        let j = choose|j: int| 0 <= j < before.len() && before[j] == wanted;
        assert(all[j] == wanted);
    }
}

/// Every listed second transfer is that of a remote peer that needs one.
pub proof fn lemma_overflow_needed(
    c: Cluster,
    t: RouteTable,
    plan: ReceiveRoutePlan,
    max_private_tokens: int,
    n: int,
    j: int,
) -> (i: int)
    requires
        0 <= j < overflow_transfers(c, t, plan, max_private_tokens, n).len(),
    ensures
        0 <= i < n,
        plan.tokens_to_rank@[c.remote_peers()[i]] > max_private_tokens,
        overflow_transfers(c, t, plan, max_private_tokens, n)[j] == overflow_transfer(
            c,
            t,
            plan,
            max_private_tokens,
            c.remote_peers()[i],
        ),
    decreases n,
{
    let before = overflow_transfers(c, t, plan, max_private_tokens, n - 1);
    if j < before.len() {
        lemma_overflow_needed(c, t, plan, max_private_tokens, n - 1, j)
    } else {
        n - 1
    }
}

/// Seen from a group on another node, this rank is a remote peer.
proof fn lemma_seen_as_remote(c: Cluster, group: int) -> (i: int)
    requires
        c.regular(),
        0 <= group < c.groups(),
        !c.same_node(group),
    ensures
        c.seen_from(group).regular(),
        c.seen_from(group).dp_group == group,
        0 <= i < c.seen_from(group).remote_peers().len(),
        c.seen_from(group).remote_peers()[i] == c.rank(),
{
    lemma_regular(c);
    let s = c.seen_from(group);
    assert(c.groups() <= c.world_size) by (nonlinear_arith)
        requires
            c.world_size == c.groups() * c.dp_size,
            1 <= c.dp_size,
            0 <= c.groups(),
    ;
    law_source_order_remote_local_self(s);
    law_remote_peers_follow_source_order(s);
    assert(s.source_order().contains(c.dp_group as int));
    let i = choose|i: int| 0 <= i < s.source_order().len() && s.source_order()[i] == c.dp_group;
    assert(s.rank_of(c.dp_group as int) == c.rank());
    assert(s.rank() == c.rank_of(group));
    assert(!s.same_node(s.source_order()[i]));
    i
}

/// A token from another node is read from where its sender wrote it, and the sender wrote it
/// from where the token stood in its send buffer: the first tokens of a group by the first
/// transfer, into the group's private part of the receive buffer; the others by the second
/// transfer, into the shared part.
pub proof fn law_dispatch_write_meets_read(
    c: Cluster,
    t: RouteTable,
    max_private_tokens: int,
    sender_plan: ReceiveRoutePlan,
    p: int,
)
    requires
        c.regular(),
        c.first_local() <= c.num_experts,
        0 <= p < c.arrivals(t).len(),
        !c.same_node(c.source_group(c.arrivals(t)[p])),
        rank_totals_match(
            c.seen_from(c.source_group(c.arrivals(t)[p])),
            t,
            sender_plan.tokens_to_rank@,
            sender_plan.dispatch_src_offset@,
        ),
        0 <= max_private_tokens,
        place_fits(c, t, max_private_tokens, p),
    ensures
        ({
            let a = c.arrivals(t)[p];
            let s = c.seen_from(c.source_group(a));
            let k = c.index_in_group(t, a);
            let first = initial_transfer(s, t, max_private_tokens, c.rank());
            let second = overflow_transfer(s, t, sender_plan, max_private_tokens, c.rank());
            &&& s.remote_peers().contains(c.rank())
            &&& k < max_private_tokens ==> {
                &&& first.peer_rank == c.rank()
                &&& k < first.length_tokens
                &&& first.src_token_offset + k == c.index_at_source(t, a)
                &&& first.dst_token_offset + k == c.dispatch_offset(t, max_private_tokens, a)
            }
            &&& max_private_tokens <= k ==> {
                &&& overflow_transfers(
                    s,
                    t,
                    sender_plan,
                    max_private_tokens,
                    s.remote_peers().len() as int,
                ).contains(second)
                &&& second.peer_rank == c.rank()
                &&& k - max_private_tokens < second.length_tokens
                &&& second.src_token_offset + (k - max_private_tokens) == c.index_at_source(t, a)
                &&& second.dst_token_offset + (k - max_private_tokens) == c.dispatch_offset(
                    t,
                    max_private_tokens,
                    a,
                )
            }
        }),
{
    lemma_token(c, t, p);
    lemma_regular(c);
    let a = c.arrivals(t)[p];
    let g = c.source_group(a);
    let k = c.index_in_group(t, a);
    let s = c.seen_from(g);
    law_sent_is_received(c, t, g);
    let i = lemma_seen_as_remote(c, g);
    let n = s.remote_peers().len() as int;
    assert(s.remote_peers()[i] == c.rank());
    lemma_group_at(s, c.dp_group as int);
    assert(s.rank_of(c.dp_group as int) == c.rank());
    assert(g != c.dp_group) by {
        lemma_group_node(c, g);
    }
    assert(0 <= max_private_tokens * g && max_private_tokens * g == g * max_private_tokens
        && max_private_tokens * g + max_private_tokens <= max_private_tokens * c.groups())
        by (nonlinear_arith)
        requires
            0 <= max_private_tokens,
            0 <= g,
            g + 1 <= c.groups(),
    ;
    assert(sender_plan.tokens_to_rank@[c.rank()] == c.from_group(t, g));
    assert(sender_plan.dispatch_src_offset@[c.rank()] == c.from_group_to_lower(t, g));
    if max_private_tokens <= k {
        lemma_overflow_listed(s, t, sender_plan, max_private_tokens, n, i);
    }
}

/// The tokens that a rank reads from its receive buffer lie at different places of the buffer.
/// Left out are its own tokens and those that it reads from the send buffer of a peer on its
/// node.
pub proof fn law_receive_buffer_places_are_distinct(
    c: Cluster,
    t: RouteTable,
    max_private_tokens: int,
    p: int,
    q: int,
)
    requires
        c.regular(),
        c.first_local() <= c.num_experts,
        0 <= max_private_tokens,
        0 <= p < c.arrivals(t).len(),
        0 <= q < c.arrivals(t).len(),
        in_receive_buffer(c, t, max_private_tokens, p),
        in_receive_buffer(c, t, max_private_tokens, q),
        place_fits(c, t, max_private_tokens, p),
        place_fits(c, t, max_private_tokens, q),
    ensures
        0 <= c.dispatch_offset(t, max_private_tokens, c.arrivals(t)[p]) < max_private_tokens
            * c.groups() + c.received(t),
        p != q ==> c.dispatch_offset(t, max_private_tokens, c.arrivals(t)[p])
            != c.dispatch_offset(t, max_private_tokens, c.arrivals(t)[q]),
{
    lemma_token(c, t, p);
    lemma_token(c, t, q);
    law_source_order_remote_local_self(c);
    let a = c.arrivals(t)[p];
    let b = c.arrivals(t)[q];
    let g = c.source_group(a);
    let h = c.source_group(b);
    let maxp = max_private_tokens;
    assert forall|x: int| 0 <= x < c.groups() implies 0 <= #[trigger] (maxp * x) && maxp * x + maxp
        <= maxp * c.groups() by {
        assert(0 <= maxp * x && maxp * x + maxp <= maxp * c.groups()) by (nonlinear_arith)
            requires
                0 <= maxp,
                0 <= x,
                x + 1 <= c.groups(),
        ;
    }
    assert(maxp * g + maxp <= maxp * c.groups() && maxp * h + maxp <= maxp * c.groups());
    if g == h {
        assert(a.visit == b.visit);
    } else if g < h {
        assert(maxp * g + maxp <= maxp * h) by (nonlinear_arith)
            requires
                0 <= maxp,
                g + 1 <= h,
        ;
        lemma_visited_sum_monotone(
            t,
            ascending(c.groups()),
            c.first_local(),
            c.last_local(),
            g + 1,
            h,
        );
    } else {
        assert(maxp * h + maxp <= maxp * g) by (nonlinear_arith)
            requires
                0 <= maxp,
                h + 1 <= g,
        ;
        lemma_visited_sum_monotone(
            t,
            ascending(c.groups()),
            c.first_local(),
            c.last_local(),
            h + 1,
            g,
        );
    }
}

/// Whether the token at place `p` of the arrivals is read from the receive buffer.
pub open spec fn in_receive_buffer(
    c: Cluster,
    t: RouteTable,
    max_private_tokens: int,
    p: int,
) -> bool {
    let a = c.arrivals(t)[p];
    &&& c.source_group(a) != c.dp_group
    &&& c.index_in_group(t, a) < max_private_tokens || !c.same_node(c.source_group(a))
}

/// Whether the place in the receive buffer of the token at place `p` of the arrivals is computed
/// from numbers that fit 32 bits: where its group's private part starts, or, past that part,
/// where the shared part starts and where the tokens of its group start in it.
pub open spec fn place_fits(c: Cluster, t: RouteTable, max_private_tokens: int, p: int) -> bool {
    let a = c.arrivals(t)[p];
    if c.index_in_group(t, a) < max_private_tokens {
        max_private_tokens * c.source_group(a) <= u32::MAX
    } else {
        &&& max_private_tokens * c.groups() <= u32::MAX
        &&& c.from_groups_below(t, c.source_group(a)) <= u32::MAX
    }
}

/// A token that is not read from the receive buffer is read from the place where it stands in
/// the send buffer of its sender, which a flag marks unless the sender is the rank itself.
pub proof fn law_local_tokens_are_read_in_place(
    c: Cluster,
    t: RouteTable,
    max_private_tokens: int,
    p: int,
)
    requires
        c.regular(),
        c.first_local() <= c.num_experts,
        0 <= p < c.arrivals(t).len(),
        !in_receive_buffer(c, t, max_private_tokens, p),
        c.source_group(c.arrivals(t)[p]) != c.dp_group ==> c.index_at_source(t, c.arrivals(t)[p])
            < PEER_SEND_BUFFER,
    ensures
        ({
            let a = c.arrivals(t)[p];
            c.dispatch_offset(t, max_private_tokens, a) == if c.source_group(a) == c.dp_group {
                c.index_at_source(t, a)
            } else {
                PEER_SEND_BUFFER + c.index_at_source(t, a)
            }
        }),
{
    lemma_token(c, t, p);
    let a = c.arrivals(t)[p];
    let place = c.index_at_source(t, a) as u32;
    assert(place < 0x8000_0000u32 ==> (place | 0x8000_0000u32) == 0x8000_0000u32 + place)
        by (bit_vector);
}

/// The result for a token comes back to where the token stood in its sender's send buffer. On
/// the same node it is written there directly; for another node it is put into this rank's
/// send buffer, at a place from which the transfer back takes it there.
pub proof fn law_combine_returns_to_source(
    c: Cluster,
    t: RouteTable,
    plan: ReceiveRoutePlan,
    p: int,
)
    requires
        c.regular(),
        c.first_local() <= c.num_experts,
        0 <= p < c.arrivals(t).len(),
        group_totals_match(
            c,
            t,
            plan.tokens_from_group@,
            plan.src_group_offset@,
            plan.dst_group_offset@,
        ),
        !c.same_node(c.source_group(c.arrivals(t)[p])) ==> c.from_groups_below(
            t,
            c.source_group(c.arrivals(t)[p]),
        ) <= u32::MAX,
    ensures
        ({
            let a = c.arrivals(t)[p];
            let g = c.source_group(a);
            let back = combine_transfer(c, plan, g);
            let k = c.index_in_group(t, a);
            &&& c.same_node(g) ==> c.combine_offset(t, a) == c.index_at_source(t, a)
            &&& !c.same_node(g) ==> {
                &&& c.remote_groups().contains(g)
                &&& back.peer_rank == c.rank_of(g)
                &&& k < back.length_tokens
                &&& back.src_token_offset + k == c.combine_offset(t, a)
                &&& back.dst_token_offset + k == c.index_at_source(t, a)
            }
        }),
{
    lemma_token(c, t, p);
    lemma_regular(c);
    law_source_order_remote_local_self(c);
    law_remote_peers_follow_source_order(c);
    let a = c.arrivals(t)[p];
    let g = c.source_group(a);
    lemma_group_at(c, g);
    assert((c.groups() - 1) * c.dp_size == c.groups() * c.dp_size - c.dp_size)
        by (nonlinear_arith);
    assert(plan.tokens_from_group@[g] == c.from_group(t, g));
    assert(plan.src_group_offset@[g] == c.from_groups_below(t, g) as u32);
    assert(plan.dst_group_offset@[g] == c.from_group_to_lower(t, g));
    lemma_group_node(c, g);
    lemma_group_node(c, c.dp_group as int);
    if !c.same_node(g) {
        assert(!c.same_node(c.source_order()[a.visit]));
        assert(c.remote_groups()[a.visit] == g);
    }
}

/// A rank waits for as many completion messages from a group as the group's peer sends: none
/// within the node; else one for the first transfer, which is always made, and one per network
/// interface for the second, where there is one.
pub proof fn law_messages_awaited_are_sent(
    c: Cluster,
    t: RouteTable,
    max_private_tokens: int,
    nets_per_gpu: int,
    sender: int,
    sender_plan: ReceiveRoutePlan,
)
    requires
        c.regular(),
        c.first_local() <= c.num_experts,
        0 <= sender < c.groups(),
        rank_totals_match(
            c.seen_from(sender),
            t,
            sender_plan.tokens_to_rank@,
            sender_plan.dispatch_src_offset@,
        ),
    ensures
        ({
            let s = c.seen_from(sender);
            let second = overflow_transfers(
                s,
                t,
                sender_plan,
                max_private_tokens,
                s.remote_peers().len() as int,
            );
            c.messages_from(t, max_private_tokens, nets_per_gpu, sender) == if c.same_node(
                sender,
            ) {
                0
            } else if exists|j: int|
                0 <= j < second.len() && #[trigger] second[j].peer_rank == c.rank() {
                1 + nets_per_gpu
            } else {
                1
            }
        }),
{
    lemma_regular(c);
    let s = c.seen_from(sender);
    let n = s.remote_peers().len() as int;
    let second = overflow_transfers(s, t, sender_plan, max_private_tokens, n);
    lemma_group_node(c, sender);
    lemma_group_node(c, c.dp_group as int);
    law_sent_is_received(c, t, sender);
    if !c.same_node(sender) {
        let i = lemma_seen_as_remote(c, sender);
        lemma_group_at(s, c.dp_group as int);
        assert(s.rank_of(c.dp_group as int) == c.rank());
        assert(sender_plan.tokens_to_rank@[c.rank()] == c.from_group(t, sender));
        if c.from_group(t, sender) > max_private_tokens {
            lemma_overflow_listed(s, t, sender_plan, max_private_tokens, n, i);
            let wanted = overflow_transfer(s, t, sender_plan, max_private_tokens, c.rank());
            let j = choose|j: int| 0 <= j < second.len() && second[j] == wanted;
            assert(second[j].peer_rank == c.rank());
        } else if exists|j: int|
            0 <= j < second.len() && #[trigger] second[j].peer_rank == c.rank() {
            let j = choose|j: int|
                0 <= j < second.len() && #[trigger] second[j].peer_rank == c.rank();
            let m = lemma_overflow_needed(s, t, sender_plan, max_private_tokens, n, j);
            let peer = s.remote_peers()[m];
            vstd::arithmetic::div_mod::lemma_mod_bound(
                (s.rank_node() + 1 + m / s.peers_per_node()) * s.node_size + s.dp_rank + m
                    % s.peers_per_node() * s.dp_size,
                s.world_size as int,
            );
            assert(peer == c.rank());
        }
    }
}

/// A group sends tokens back to this rank just where it sits on another node, with one write per
/// round; the groups that do so are those that this rank itself sends back to, and there are as
/// many of them as are waited for.
pub proof fn law_combine_messages_awaited_are_sent(c: Cluster, sender: int)
    requires
        c.regular(),
        0 <= sender < c.groups(),
    ensures
        c.seen_from(sender).remote_groups().contains(c.dp_group as int) <==> !c.same_node(sender),
        c.seen_from(sender).remote_groups().no_duplicates(),
        c.remote_groups().contains(sender) <==> !c.same_node(sender),
        c.remote_groups().len() == (c.nodes() - 1) * c.groups_per_node(),
{
    let s = c.seen_from(sender);
    lemma_regular(c);
    lemma_regular(s);
    lemma_group_node(c, sender);
    lemma_group_node(c, c.dp_group as int);
    lemma_remote_groups_are_remote(c, sender);
    lemma_remote_groups_are_remote(s, c.dp_group as int);
    assert(s.rank_of(c.dp_group as int) == c.rank());
    assert(s.rank() == c.rank_of(sender));
}

/// The groups that a rank sends back to are those on other nodes.
proof fn lemma_remote_groups_are_remote(c: Cluster, group: int)
    requires
        c.regular(),
        0 <= group < c.groups(),
    ensures
        c.remote_groups().contains(group) <==> !c.same_node(group),
        c.remote_groups().no_duplicates(),
        c.remote_groups().len() == (c.nodes() - 1) * c.groups_per_node(),
{
    lemma_regular(c);
    law_source_order_remote_local_self(c);
    law_remote_peers_follow_source_order(c);
    let order = c.source_order();
    let groups = c.remote_groups();
    assert(order.contains(group));
    let i = choose|i: int| 0 <= i < order.len() && order[i] == group;
    if i < c.remote_visits() {
        assert(groups[i] == group);
    }
    if groups.contains(group) {
        let j = choose|j: int| 0 <= j < groups.len() && groups[j] == group;
        assert(order[j] == group);
    }
    assert forall|a: int, b: int|
        0 <= a < groups.len() && 0 <= b < groups.len() && a != b implies groups[a] != groups[b] by {
        assert(order[a] == groups[a] && order[b] == groups[b]);
    }
}

} // verus!
