//! What holds between the plans of different ranks, and of a plan as a whole.

use vstd::prelude::*;
use vstd::arithmetic::div_mod::{
    lemma_fundamental_div_mod, lemma_fundamental_div_mod_converse, lemma_mod_bound,
    lemma_mod_multiples_vanish, lemma_small_mod,
};
use crate::arith::{align_up_spec, ceil_div_spec, lemma_ceil_div};
use crate::cluster::{
    law_source_order_remote_local_self, lemma_group_node, lemma_regular, Cluster,
};
use crate::padding::{padded_before, padded_offset};
use crate::routing::{
    ascending, lemma_arrival_at, lemma_arrival_valid, lemma_arrivals_len, lemma_row_sum_cell,
    lemma_row_sum_nonneg,
    lemma_row_sum_split, lemma_row_sum_within, lemma_visited_all, lemma_visited_at_most_all,
    lemma_visited_sum_monotone, lemma_visited_sum_nonneg, row_sum, visited_sum, Arrival,
    RouteTable,
};
use crate::traffic::{lemma_block, lemma_group_at};

verus! {

impl Cluster {
    /// The peer of this rank in another group, as it sees the cluster.
    pub open spec fn seen_from(self, group: int) -> Cluster {
        Cluster { dp_group: group as usize, ..self }
    }
}

/// Moving along a ring of nodes and multiplying out agree: the peer list by ranks and the
/// source order by groups name the same peers.
proof fn lemma_ring_multiple(start: int, steps: int, rest: int, size: int, places: int)
    requires
        0 <= start < places,
        0 <= steps,
        0 < places,
        0 <= rest < size,
    ensures
        ((start + steps) * size + rest) % (places * size) == (start + steps) % places * size
            + rest,
{
    let sum = start + steps;
    let q = sum / places;
    let r = sum % places;
    lemma_fundamental_div_mod(sum, places);
    lemma_mod_bound(sum, places);
    assert(sum * size + rest == q * (places * size) + (r * size + rest)) by (nonlinear_arith)
        requires
            sum == places * q + r,
    ;
    assert(0 <= r * size + rest < places * size) by (nonlinear_arith)
        requires
            0 <= r < places,
            0 <= rest < size,
    ;
    lemma_fundamental_div_mod_converse(sum * size + rest, places * size, q, r * size + rest);
}

/// In a regular cluster the peers that a rank writes to are the peers of exactly the groups of
/// the other nodes, in the order in which their tokens are taken in, for both directions.
pub proof fn law_remote_peers_follow_source_order(c: Cluster)
    requires
        c.regular(),
    ensures
        c.remote_peers().len() == c.remote_visits(),
        c.remote_groups().len() == c.remote_visits(),
        forall|i: int|
            0 <= i < c.remote_visits() ==> #[trigger] c.remote_peers()[i] == c.rank_of(
                c.source_order()[i],
            ),
        forall|i: int|
            0 <= i < c.remote_visits() ==> #[trigger] c.remote_groups()[i] == c.source_order()[i],
{
    lemma_regular(c);
    let gpn = c.groups_per_node();
    let n = c.nodes();
    let dp = c.dp_size as int;
    let node = c.node_size as int;
    let rn = c.rank_node();
    assert(c.dp_rank < node) by (nonlinear_arith)
        requires
            c.dp_rank < dp,
            node == gpn * dp,
            1 <= gpn,
    ;
    assert(c.peers_per_node() == gpn) by {
        let v = node - c.dp_rank;
        let q = v / dp;
        let r = v % dp;
        lemma_fundamental_div_mod(v, dp);
        lemma_mod_bound(v, dp);
        if c.dp_rank == 0 {
            lemma_fundamental_div_mod_converse(v, dp, gpn, 0);
        } else {
            assert(v == (gpn - 1) * dp + (dp - c.dp_rank)) by (nonlinear_arith)
                requires
                    v == gpn * dp - c.dp_rank,
            ;
            lemma_fundamental_div_mod_converse(v, dp, gpn - 1, dp - c.dp_rank);
        }
    }
    assert((n - 1) * gpn == c.other_nodes() * gpn);
    assert(0 <= (n - 1) * gpn) by (nonlinear_arith)
        requires
            0 <= n - 1,
            0 < gpn,
    ;
    assert(c.world_size == n * node) by (nonlinear_arith)
        requires
            c.world_size == (n * gpn) * dp,
            node == gpn * dp,
    ;
    assert forall|i: int| 0 <= i < c.remote_visits() implies #[trigger] c.remote_groups()[i]
        == c.source_order()[i] by {
        let a = i / gpn;
        let b = i % gpn;
        lemma_mod_bound(i, gpn);
        lemma_fundamental_div_mod(i, gpn);
        assert(0 <= a) by (nonlinear_arith)
            requires
                0 <= i,
                i == gpn * a + b,
                0 <= b < gpn,
        ;
        lemma_ring_multiple(rn, 1 + a, b, gpn, n);
    }
    assert forall|i: int| 0 <= i < c.remote_visits() implies #[trigger] c.remote_peers()[i]
        == c.rank_of(c.source_order()[i]) by {
        let a = i / gpn;
        let b = i % gpn;
        lemma_mod_bound(i, gpn);
        lemma_fundamental_div_mod(i, gpn);
        assert(0 <= a) by (nonlinear_arith)
            requires
                0 <= i,
                i == gpn * a + b,
                0 <= b < gpn,
        ;
        let rest = c.dp_rank + b * dp;
        assert(0 <= rest < node) by (nonlinear_arith)
            requires
                0 <= c.dp_rank < dp,
                0 <= b < gpn,
                rest == c.dp_rank + b * dp,
                node == gpn * dp,
        ;
        lemma_ring_multiple(rn, 1 + a, rest, node, n);
        let to = (rn + 1 + a) % n;
        assert(to * node + rest == (to * gpn + b) * dp + c.dp_rank) by (nonlinear_arith)
            requires
                node == gpn * dp,
                rest == c.dp_rank + b * dp,
        ;
    }
}

/// What one rank sends to another is what the other receives from it, and both agree on where
/// those tokens stand among all that the sender's group sends.
pub proof fn law_sent_is_received(c: Cluster, t: RouteTable, sender: int)
    requires
        c.regular(),
        c.first_local() <= c.num_experts,
        0 <= sender < c.groups(),
    ensures
        c.seen_from(sender).to_rank(t, c.rank()) == c.from_group(t, sender),
        c.seen_from(sender).to_rank_start(t, c.rank()) == c.from_group_to_lower(t, sender),
        c.seen_from(sender).from_lower_groups_to(t, c.rank()) == c.from_groups_below(t, sender),
{
    lemma_regular(c);
    let s = c.seen_from(sender);
    assert(c.groups() <= c.world_size) by (nonlinear_arith)
        requires
            c.world_size == c.groups() * c.dp_size,
            1 <= c.dp_size,
            0 <= c.groups(),
    ;
    assert(s.dp_group == sender);
    lemma_group_at(s, c.dp_group as int);
    assert(s.rank_of(c.dp_group as int) == c.rank());
    lemma_group_node(c, c.dp_group as int);
    lemma_visited_prefix(
        t,
        ascending(sender),
        ascending(c.groups()),
        c.first_local(),
        c.last_local(),
        sender,
    );
}

/// A sum over visits depends on the visited groups alone.
proof fn lemma_visited_prefix(
    t: RouteTable,
    order: Seq<int>,
    other: Seq<int>,
    lo: int,
    hi: int,
    n: int,
)
    requires
        forall|i: int| 0 <= i < n ==> #[trigger] order[i] == other[i],
    ensures
        visited_sum(t, order, lo, hi, n) == visited_sum(t, other, lo, hi, n),
    decreases n,
{
    if n > 0 {
        lemma_visited_prefix(t, order, other, lo, hi, n - 1);
        assert(order[n - 1] == other[n - 1]);
    }
}

/// Facts about a token of a regular cluster.
pub proof fn lemma_token(c: Cluster, t: RouteTable, p: int)
    requires
        c.regular(),
        c.first_local() <= c.num_experts,
        0 <= p < c.arrivals(t).len(),
    ensures
        ({
            let a = c.arrivals(t)[p];
            let g = c.source_group(a);
            &&& 0 <= a.visit < c.source_order().len() == c.groups()
            &&& 0 <= a.local_expert < c.local_experts()
            &&& 0 <= a.index < t[g][c.first_local() + a.local_expert]
            &&& p == c.arrived(t, a.visit) + c.index_in_group(t, a)
            &&& 0 <= g < c.groups()
            &&& c.first_local() + a.local_expert < c.num_experts
            &&& 0 <= c.index_in_group(t, a) < c.from_group(t, g)
            &&& c.index_at_source(t, a) == c.from_group_to_lower(t, g) + c.index_in_group(t, a)
            &&& 0 <= c.index_at_source(t, a) < row_sum(t, g, 0, c.num_experts as int)
            &&& 0 <= c.index_in_expert(t, a) < c.for_expert(t, a.local_expert)
            &&& c.from_groups_below(t, g) + c.from_group(t, g) <= c.received(t)
            &&& 0 <= c.from_groups_below(t, g)
            &&& 0 <= c.from_group_to_lower(t, g)
        }),
        0 <= c.local_experts(),
        0 <= c.first_local(),
{
    lemma_regular(c);
    law_source_order_remote_local_self(c);
    lemma_ceil_div(c.num_experts as int, c.groups());
    lemma_block(c, c.dp_group as int);
    let order = c.source_order();
    lemma_arrival_valid(c, t, order.len() as int, p);
    let a = c.arrivals(t)[p];
    let g = order[a.visit];
    let first = c.first_local();
    let expert = first + a.local_expert;
    lemma_row_sum_nonneg(t, g, first, expert);
    lemma_row_sum_within(t, g, first, c.last_local(), first, expert + 1);
    lemma_row_sum_cell(t, g, expert);
    lemma_row_sum_split(t, g, 0, first, expert);
    lemma_row_sum_within(t, g, 0, c.num_experts as int, 0, expert + 1);
    lemma_row_sum_nonneg(t, g, 0, first);
    lemma_visited_sum_nonneg(t, order, expert, expert + 1, a.visit);
    lemma_visited_at_most_all(t, order, expert, expert + 1, a.visit + 1, c.groups());
    lemma_visited_sum_monotone(
        t,
        ascending(c.groups()),
        first,
        c.last_local(),
        g + 1,
        c.groups(),
    );
    lemma_visited_sum_nonneg(t, ascending(c.groups()), first, c.last_local(), g);
}

/// In a regular cluster every token that the table counts for a rank arrives there, once.
pub proof fn law_every_token_arrives_once(c: Cluster, t: RouteTable)
    requires
        c.regular(),
        c.first_local() <= c.num_experts,
    ensures
        c.arrivals(t).len() == c.received(t),
        forall|g: int, l: int, k: int|
            #![trigger arrives(c, t, g, l, k)]
            0 <= g < c.groups() && 0 <= l < c.local_experts() && 0 <= k < t[g][c.first_local() + l]
                ==> arrives(c, t, g, l, k),
        forall|p: int, q: int|
            #![trigger c.arrivals(t)[p], c.arrivals(t)[q]]
            0 <= p < q < c.arrivals(t).len() ==> {
                let a = c.arrivals(t)[p];
                let b = c.arrivals(t)[q];
                c.source_group(a) != c.source_group(b) || a.local_expert != b.local_expert
                    || a.index != b.index
            },
{
    lemma_regular(c);
    law_source_order_remote_local_self(c);
    lemma_ceil_div(c.num_experts as int, c.groups());
    let order = c.source_order();
    lemma_arrivals_len(c, t, order.len() as int);
    lemma_visited_all(t, order, c.first_local(), c.last_local(), c.groups());
    assert forall|g: int, l: int, k: int|
        #![trigger arrives(c, t, g, l, k)]
        0 <= g < c.groups() && 0 <= l < c.local_experts() && 0 <= k < t[g][c.first_local()
            + l] implies arrives(c, t, g, l, k) by {
        assert(order.contains(g));
        let visit = choose|i: int| 0 <= i < order.len() && order[i] == g;
        lemma_arrival_at(c, t, order.len() as int, visit, l, k);
        let place = c.arrived(t, visit) + row_sum(t, g, c.first_local(), c.first_local() + l) + k;
        assert(c.arrivals(t)[place] == (Arrival { visit, local_expert: l, index: k }));
    }
    assert forall|p: int, q: int|
        #![trigger c.arrivals(t)[p], c.arrivals(t)[q]]
        0 <= p < q < c.arrivals(t).len() implies {
        let a = c.arrivals(t)[p];
        let b = c.arrivals(t)[q];
        c.source_group(a) != c.source_group(b) || a.local_expert != b.local_expert || a.index
            != b.index
    } by {
        lemma_token(c, t, p);
        lemma_token(c, t, q);
        let a = c.arrivals(t)[p];
        let b = c.arrivals(t)[q];
        if c.source_group(a) == c.source_group(b) {
            assert(order[a.visit] == order[b.visit]);
            assert(a.visit == b.visit);
        }
    }
}

/// Whether token `k` of the group for the local expert is among the arrivals.
pub open spec fn arrives(c: Cluster, t: RouteTable, group: int, local_expert: int, k: int) -> bool {
    exists|p: int|
        0 <= p < c.arrivals(t).len() && {
            let a = #[trigger] c.arrivals(t)[p];
            c.source_group(a) == group && a.local_expert == local_expert && a.index == k
        }
}

/// Whether the rows of the local experts neither overlap nor wrap: with a fixed stride, the last
/// start fits 32 bits; without one, a padding is given. The rows of the last expert have no
/// others after them; every other expert gets no more tokens than the stride, or a padded count
/// that fits 32 bits.
pub open spec fn rows_fit(
    c: Cluster,
    t: RouteTable,
    expert_padding: int,
    max_tokens_per_expert: int,
) -> bool {
    if max_tokens_per_expert > 0 {
        &&& (c.local_experts() - 1) * max_tokens_per_expert <= u32::MAX
        &&& forall|l: int|
            0 <= l < c.local_experts() - 1 ==> #[trigger] c.for_expert(t, l)
                <= max_tokens_per_expert
    } else {
        &&& 0 < expert_padding
        &&& forall|l: int|
            0 <= l < c.local_experts() - 1 ==> align_up_spec(
                #[trigger] c.for_expert(t, l),
                expert_padding,
            ) <= u32::MAX
    }
}

/// Where the rows of a local expert start.
pub open spec fn expert_start(
    c: Cluster,
    t: RouteTable,
    expert_padding: int,
    max_tokens_per_expert: int,
    local_expert: int,
) -> int {
    padded_offset(
        c.expert_totals(t),
        expert_padding,
        max_tokens_per_expert,
        local_expert,
    )
}

/// The rows of an expert end before those of a later expert start.
pub proof fn law_expert_rows_do_not_overlap(
    c: Cluster,
    t: RouteTable,
    expert_padding: int,
    max_tokens_per_expert: int,
    l: int,
    m: int,
)
    requires
        0 <= c.experts_per_rank(),
        rows_fit(c, t, expert_padding, max_tokens_per_expert),
        0 <= l < m < c.local_experts(),
    ensures
        0 <= expert_start(c, t, expert_padding, max_tokens_per_expert, l),
        expert_start(c, t, expert_padding, max_tokens_per_expert, l) + c.for_expert(t, l)
            <= expert_start(c, t, expert_padding, max_tokens_per_expert, m),
    decreases m - l,
{
    lemma_visited_sum_nonneg(
        t,
        ascending(c.groups()),
        c.first_local() + l,
        c.first_local() + l + 1,
        c.groups(),
    );
    if max_tokens_per_expert > 0 {
        assert(0 <= l * max_tokens_per_expert && l * max_tokens_per_expert + max_tokens_per_expert
            <= m * max_tokens_per_expert <= (c.local_experts() - 1) * max_tokens_per_expert)
            by (nonlinear_arith)
            requires
                0 <= l,
                l + 1 <= m <= c.local_experts() - 1,
                0 < max_tokens_per_expert,
        ;
        assert(c.for_expert(t, l) <= max_tokens_per_expert);
    } else {
        assert(align_up_spec(c.for_expert(t, l), expert_padding) <= u32::MAX);
        let totals = c.expert_totals(t);
        lemma_ceil_div(c.for_expert(t, l), expert_padding);
        assert(totals[l] == c.for_expert(t, l));
        assert(padded_before(totals, expert_padding, l + 1) == padded_before(
            totals,
            expert_padding,
            l,
        ) + align_up_spec(c.for_expert(t, l), expert_padding));
        crate::padding::lemma_padded_before_monotone(totals, expert_padding, l, l + 1);
        crate::padding::lemma_padded_before_monotone(totals, expert_padding, l + 1, m);
    }
}

/// Without a fixed stride the rows of every expert start at a multiple of the padding.
pub proof fn law_compact_starts_are_padded(
    c: Cluster,
    t: RouteTable,
    expert_padding: int,
    l: int,
)
    requires
        0 <= c.experts_per_rank(),
        rows_fit(c, t, expert_padding, 0),
        0 <= l < c.local_experts(),
    ensures
        expert_start(c, t, expert_padding, 0, l) % expert_padding == 0,
    decreases l,
{
    let totals = c.expert_totals(t);
    if l == 0 {
        lemma_small_mod(0, expert_padding as nat);
    } else {
        law_compact_starts_are_padded(c, t, expert_padding, l - 1);
        let count = c.for_expert(t, l - 1);
        assert(align_up_spec(count, expert_padding) <= u32::MAX);
        lemma_visited_sum_nonneg(
            t,
            ascending(c.groups()),
            c.first_local() + l - 1,
            c.first_local() + l,
            c.groups(),
        );
        lemma_ceil_div(count, expert_padding);
        assert(totals[l - 1] == count);
        let before = padded_before(totals, expert_padding, l - 1);
        assert(padded_before(totals, expert_padding, l) == before + align_up_spec(
            count,
            expert_padding,
        ));
        let q = ceil_div_spec(count, expert_padding);
        assert(q * expert_padding == expert_padding * q) by (nonlinear_arith);
        lemma_mod_multiples_vanish(q, before, expert_padding);
    }
}

/// Every token goes to a row of its expert: the rows of an expert begin at its start and are as
/// many as its tokens.
pub proof fn law_output_row_belongs_to_its_expert(
    c: Cluster,
    t: RouteTable,
    expert_padding: int,
    max_tokens_per_expert: int,
    p: int,
)
    requires
        c.regular(),
        c.first_local() <= c.num_experts,
        0 <= p < c.arrivals(t).len(),
    ensures
        ({
            let a = c.arrivals(t)[p];
            let row = c.output_row(t, expert_padding, max_tokens_per_expert, a);
            let start = expert_start(
                c,
                t,
                expert_padding,
                max_tokens_per_expert,
                a.local_expert,
            );
            start <= row < start + c.for_expert(t, a.local_expert)
        }),
{
    lemma_token(c, t, p);
}

/// No two tokens go to the same row.
pub proof fn law_output_rows_are_distinct(
    c: Cluster,
    t: RouteTable,
    expert_padding: int,
    max_tokens_per_expert: int,
    p: int,
    q: int,
)
    requires
        c.regular(),
        c.first_local() <= c.num_experts,
        rows_fit(c, t, expert_padding, max_tokens_per_expert),
        0 <= p < c.arrivals(t).len(),
        0 <= q < c.arrivals(t).len(),
        p != q,
    ensures
        c.output_row(t, expert_padding, max_tokens_per_expert, c.arrivals(t)[p]) != c.output_row(
            t,
            expert_padding,
            max_tokens_per_expert,
            c.arrivals(t)[q],
        ),
{
    lemma_token(c, t, p);
    lemma_token(c, t, q);
    lemma_regular(c);
    lemma_ceil_div(c.num_experts as int, c.groups());
    let a = c.arrivals(t)[p];
    let b = c.arrivals(t)[q];
    let order = c.source_order();
    if a.local_expert < b.local_expert {
        law_expert_rows_do_not_overlap(
            c,
            t,
            expert_padding,
            max_tokens_per_expert,
            a.local_expert,
            b.local_expert,
        );
    } else if b.local_expert < a.local_expert {
        law_expert_rows_do_not_overlap(
            c,
            t,
            expert_padding,
            max_tokens_per_expert,
            b.local_expert,
            a.local_expert,
        );
    } else if a.visit != b.visit {
        let (u, v) = if a.visit < b.visit { (a, b) } else { (b, a) };
        let expert = c.first_local() + a.local_expert;
        lemma_visited_sum_monotone(t, order, expert, expert + 1, u.visit + 1, v.visit);
        lemma_row_sum_cell(t, order[u.visit], expert);
    }
}

/// The runs of an expert lie end to end in the source order, starting at the expert's first
/// row and holding all of its tokens; each token lies in the run of its group.
pub proof fn law_runs_tile_the_rows(
    c: Cluster,
    t: RouteTable,
    expert_padding: int,
    max_tokens_per_expert: int,
    p: int,
)
    requires
        c.regular(),
        c.first_local() <= c.num_experts,
        0 <= p < c.arrivals(t).len(),
    ensures
        ({
            let a = c.arrivals(t)[p];
            let l = a.local_expert;
            let count = t[c.source_group(a)][c.first_local() + l];
            &&& c.arrived_for_expert(t, l, 0) == 0
            &&& c.arrived_for_expert(t, l, a.visit) + count == c.arrived_for_expert(
                t,
                l,
                a.visit + 1,
            )
            &&& c.arrived_for_expert(t, l, c.groups()) == c.for_expert(t, l)
            &&& c.packed_run(t, l, a.visit) % 0x1_0000_0000 == count
            &&& c.packed_run(t, l, a.visit) / 0x1_0000_0000 == c.arrived_for_expert(t, l, a.visit)
            &&& c.output_row(t, expert_padding, max_tokens_per_expert, a) == expert_start(
                c,
                t,
                expert_padding,
                max_tokens_per_expert,
                l,
            ) + c.packed_run(t, l, a.visit) / 0x1_0000_0000 + a.index
            &&& 0 <= a.index < c.packed_run(t, l, a.visit) % 0x1_0000_0000
        }),
{
    lemma_token(c, t, p);
    law_source_order_remote_local_self(c);
    let a = c.arrivals(t)[p];
    let expert = c.first_local() + a.local_expert;
    lemma_row_sum_cell(t, c.source_group(a), expert);
    lemma_visited_all(t, c.source_order(), expert, expert + 1, c.groups());
}

/// Tokens arrive in the order of the visits: those of other nodes before those of this node,
/// and this rank's own last.
pub proof fn law_remote_tokens_come_first(c: Cluster, t: RouteTable, p: int, q: int)
    requires
        c.regular(),
        c.first_local() <= c.num_experts,
        0 <= p <= q < c.arrivals(t).len(),
    ensures
        c.arrivals(t)[p].visit <= c.arrivals(t)[q].visit,
        p < c.arrived(t, c.remote_visits()) <==> !c.same_node(c.source_group(c.arrivals(t)[p])),
        c.source_group(c.arrivals(t)[p]) == c.dp_group ==> c.source_group(c.arrivals(t)[q])
            == c.dp_group,
{
    lemma_token(c, t, p);
    lemma_token(c, t, q);
    law_source_order_remote_local_self(c);
    let order = c.source_order();
    let lo = c.first_local();
    let hi = c.last_local();
    let a = c.arrivals(t)[p];
    let b = c.arrivals(t)[q];
    if b.visit < a.visit {
        lemma_visited_sum_monotone(t, order, lo, hi, b.visit + 1, a.visit);
    }
    if a.visit < c.remote_visits() {
        lemma_visited_sum_monotone(t, order, lo, hi, a.visit + 1, c.remote_visits());
    } else {
        lemma_visited_sum_monotone(t, order, lo, hi, c.remote_visits(), a.visit);
    }
    assert(a.visit < c.remote_visits() <==> !c.same_node(order[a.visit]));
    assert(a.visit == c.groups() - 1 <==> order[a.visit] == c.dp_group);
    assert(b.visit == c.groups() - 1 <==> order[b.visit] == c.dp_group);
}

} // verus!
