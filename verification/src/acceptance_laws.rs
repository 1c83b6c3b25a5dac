//! Which exchanges are accepted: within limits that leave room in every integer type, all are.

use vstd::prelude::*;
use crate::arith::{align_up_spec, lemma_ceil_div};
use crate::cluster::Cluster;
use crate::config::{lemma_has_groups, ContextConfig, TOKEN_ALIGNMENT};
use crate::padding::{offsets_fit, padded_before, stride_start};
use crate::ranges::{combine_range_fits, initial_ranges_fit, overflow_range_fits, range_fits};
use crate::routing::{
    ascending, covers, lemma_arrival_valid, lemma_row_sum_cell, lemma_row_sum_nonneg,
    lemma_row_sum_split, lemma_row_sum_within, lemma_visited_at_most_all,
    lemma_visited_sum_monotone, lemma_visited_sum_nonneg, row_sum, visited_sum, Arrival,
    RouteTable,
};
use crate::traffic::{lemma_block, lemma_rank_of_group_at, lemma_valid_sizes};
use crate::transfer_plan::{initial_transfer, lemma_placed_sizes};
use crate::worker::{flat_table, WorkerState};

verus! {

/// The largest count, offset or token size within the limits.
pub const LIMIT: u32 = 0xffff_ffff;

impl Cluster {
    /// The tokens that this rank's group sends to any rank.
    pub open spec fn sent(self, t: RouteTable) -> int {
        row_sum(t, self.dp_group as int, 0, self.num_experts as int)
    }

    /// The tokens that `group` sends to this rank and to ranks below it.
    pub open spec fn up_to_here(self, t: RouteTable, group: int) -> int {
        row_sum(t, group, 0, self.last_local())
    }

    /// The tokens that the groups below this rank's group send to `group`.
    pub open spec fn from_lower_to_group(self, t: RouteTable, group: int) -> int {
        visited_sum(
            t,
            ascending(self.dp_group as int),
            self.first_expert(group),
            self.last_expert(group),
            self.dp_group as int,
        )
    }

    /// The tokens for an expert of this rank's block, none where the block is short.
    pub open spec fn for_block(self, t: RouteTable, l: int) -> int {
        if l < self.local_experts() {
            self.for_expert(t, l)
        } else {
            0
        }
    }

    /// The rows that the padded runs of the first `n` experts of this rank's block take up.
    pub open spec fn padded_rows(self, t: RouteTable, expert_padding: int, n: int) -> int
        decreases n,
    {
        if n <= 0 {
            0
        } else {
            self.padded_rows(t, expert_padding, n - 1) + align_up_spec(
                self.for_block(t, n - 1),
                expert_padding,
            )
        }
    }
}

impl ContextConfig {
    /// Whether the sizes that a plan depends on are within the limits.
    pub open spec fn plan_sizes_within_limits(self, nets_per_gpu: int) -> bool {
        let c = self.cluster();
        &&& self.has_groups()
        &&& c.valid()
        &&& self.world_size <= LIMIT
        &&& c.first_local() <= self.num_experts
        &&& c.groups() * (1 + nets_per_gpu) <= LIMIT
    }

    /// Whether the sizes that an exchange depends on are within the limits.
    pub open spec fn sizes_within_limits(self, nets_per_gpu: int) -> bool {
        &&& self.plan_sizes_within_limits(nets_per_gpu)
        &&& self.node_size <= self.world_size
        &&& self.hidden_dim * self.in_elemsize <= LIMIT
        &&& self.hidden_dim_scale * self.scale_elemsize <= LIMIT
        &&& self.hidden_dim * self.out_elemsize <= LIMIT
        &&& self.dispatch_token_dim() <= LIMIT
        &&& self.combine_token_dim() <= LIMIT
    }

    /// Whether the first writes of an exchange by this routing table are within the limits. They
    /// depend on the row of this rank's group alone.
    pub open spec fn initial_within_limits(self, t: RouteTable, nets_per_gpu: int) -> bool {
        &&& self.sizes_within_limits(nets_per_gpu)
        &&& self.cluster().sent(t) <= LIMIT
        &&& self.max_private_tokens * self.cluster().groups() <= LIMIT
    }

    /// Whether the rows that this rank's experts fill are within the limits.
    pub open spec fn rows_within_limits(self, t: RouteTable) -> bool {
        let c = self.cluster();
        let stride = self.max_tokens_per_expert as int;
        let padding = self.expert_padding as int;
        if stride > 0 {
            &&& c.experts_per_rank() > 0 ==> stride_start(c.experts_per_rank() - 1, stride)
                <= usize::MAX
            &&& forall|l: int|
                0 <= l < c.local_experts() ==> #[trigger] stride_start(l, stride) + c.for_expert(
                    t,
                    l,
                ) <= LIMIT
        } else {
            &&& c.experts_per_rank() > 0 ==> padding > 0
            &&& c.padded_rows(t, padding, c.experts_per_rank()) <= LIMIT
        }
    }

    /// Whether the plan of what this rank receives is within the limits: what the rank sends,
    /// what it receives and where, and the rows of its experts.
    pub open spec fn plan_within_limits(self, t: RouteTable, nets_per_gpu: int) -> bool {
        let c = self.cluster();
        &&& self.plan_sizes_within_limits(nets_per_gpu)
        &&& c.sent(t) <= LIMIT
        &&& forall|g: int| 0 <= g < c.groups() ==> #[trigger] c.up_to_here(t, g) <= LIMIT
        &&& c.received(t) + self.max_private_tokens * c.groups() <= LIMIT
        &&& self.rows_within_limits(t)
    }

    /// Whether an exchange by this routing table is within the limits: the plan is, and so is
    /// every place in a peer's buffer that tokens beyond the private ones go to.
    pub open spec fn within_limits(self, t: RouteTable, nets_per_gpu: int) -> bool {
        let c = self.cluster();
        &&& self.sizes_within_limits(nets_per_gpu)
        &&& self.plan_within_limits(t, nets_per_gpu)
        &&& forall|h: int|
            0 <= h < c.groups() && c.to_group(t, h) > self.max_private_tokens
                ==> self.max_private_tokens * c.groups() + #[trigger] c.from_lower_to_group(t, h)
                <= LIMIT
    }
}

/// Within the limits, a worker is ready for a round.
pub proof fn law_within_limits_is_ready(worker: WorkerState, nets_per_gpu: int)
    requires
        worker.wf(),
        worker.config.sizes_within_limits(nets_per_gpu),
        0 <= nets_per_gpu,
    ensures
        worker.round_ready(nets_per_gpu),
{
    let config = worker.config;
    let c = config.cluster();
    let world = c.world_size as int;
    let node = c.node_size as int;
    let dp = c.dp_size as int;
    lemma_plan_sizes(c);
    vstd::arithmetic::div_mod::lemma_fundamental_div_mod(world, node);
    vstd::arithmetic::div_mod::lemma_fundamental_div_mod(node, dp);
    vstd::arithmetic::div_mod::lemma_fundamental_div_mod(world, dp);
    let nodes = c.nodes();
    let per_node = c.groups_per_node();
    let groups = c.groups();
    assert(1 <= nodes) by (nonlinear_arith)
        requires
            world == node * nodes + world % node,
            0 <= world % node < node,
            0 < node <= world,
    ;
    // Whole nodes of whole groups hold no more groups than there are.
    assert(nodes * per_node <= groups) by (nonlinear_arith)
        requires
            world == node * nodes + world % node,
            0 <= world % node,
            node == dp * per_node + node % dp,
            0 <= node % dp,
            world == dp * groups + world % dp,
            0 <= world % dp < dp,
            0 < dp,
            1 <= nodes,
            0 <= per_node,
    ;
    assert((nodes - 1) * per_node == nodes * per_node - per_node) by (nonlinear_arith);
    assert(0 <= (nodes - 1) * per_node) by (nonlinear_arith)
        requires
            1 <= nodes,
            0 <= per_node,
    ;
    let remote = worker.remote_group_count();
    assert(remote * nets_per_gpu <= groups * (1 + nets_per_gpu)) by (nonlinear_arith)
        requires
            0 <= remote <= groups,
            0 <= nets_per_gpu,
    ;
}

/// A product of two numbers within the limits fits 64 bits.
proof fn lemma_product_fits(a: int, b: int)
    requires
        0 <= a <= LIMIT,
        0 <= b <= LIMIT,
    ensures
        0 <= a * b <= u64::MAX,
{
    assert(0 <= a * b <= 0xffff_ffff * 0xffff_ffff) by (nonlinear_arith)
        requires
            0 <= a <= 0xffff_ffff,
            0 <= b <= 0xffff_ffff,
    ;
}

/// Facts about a cluster in which a plan can be made.
proof fn lemma_plan_sizes(c: Cluster)
    requires
        c.valid(),
    ensures
        c.placed(),
        1 <= c.groups() <= c.world_size,
        1 <= c.groups_per_node(),
        c.dp_group < c.groups(),
        0 <= c.first_local(),
        c.first_local() + c.experts_per_rank() <= usize::MAX,
        0 <= c.experts_per_rank() <= c.num_experts,
        c.groups() * c.experts_per_rank() < c.num_experts + c.groups(),
        c.last_local() <= c.num_experts,
        c.local_experts() <= c.experts_per_rank(),
        c.first_local() <= c.num_experts ==> 0 <= c.local_experts(),
{
    lemma_valid_sizes(c);
}

/// The tokens of the first groups for some experts are no more than their tokens for more.
proof fn lemma_visited_within(
    t: RouteTable,
    order: Seq<int>,
    lo: int,
    hi: int,
    a: int,
    b: int,
    n: int,
)
    requires
        lo <= a,
        b <= hi,
    ensures
        0 <= visited_sum(t, order, a, b, n) <= visited_sum(t, order, lo, hi, n),
    decreases n,
{
    if n > 0 {
        lemma_visited_within(t, order, lo, hi, a, b, n - 1);
        lemma_row_sum_within(t, order[n - 1], lo, hi, a, b);
        lemma_row_sum_nonneg(t, order[n - 1], a, b);
    }
}

/// The tokens for an expert are among those that are received.
proof fn lemma_for_block(c: Cluster, t: RouteTable, l: int)
    requires
        c.valid(),
        0 <= l,
    ensures
        0 <= c.for_block(t, l),
        l < c.local_experts() ==> c.for_block(t, l) <= c.received(t),
        l >= c.local_experts() ==> c.for_block(t, l) == 0,
{
    if l < c.local_experts() {
        lemma_visited_within(
            t,
            ascending(c.groups()),
            c.first_local(),
            c.last_local(),
            c.first_local() + l,
            c.first_local() + l + 1,
            c.groups(),
        );
    }
}

/// More experts take up no fewer rows.
proof fn lemma_padded_rows_monotone(c: Cluster, t: RouteTable, expert_padding: int, m: int, n: int)
    requires
        c.valid(),
        0 < expert_padding,
        0 <= m <= n,
    ensures
        0 <= c.padded_rows(t, expert_padding, m) <= c.padded_rows(t, expert_padding, n),
    decreases n,
{
    if n > 0 {
        lemma_for_block(c, t, n - 1);
        lemma_ceil_div(c.for_block(t, n - 1), expert_padding);
        if m < n {
            lemma_padded_rows_monotone(c, t, expert_padding, m, n - 1);
        } else {
            lemma_padded_rows_monotone(c, t, expert_padding, n - 1, n - 1);
        }
    }
}

/// There are no more completion messages than every other group can send.
proof fn lemma_messages_bounded(
    c: Cluster,
    t: RouteTable,
    max_private_tokens: int,
    nets_per_gpu: int,
    n: int,
)
    requires
        0 <= n,
        0 <= nets_per_gpu,
    ensures
        0 <= c.messages_below(t, max_private_tokens, nets_per_gpu, n) <= n * (1 + nets_per_gpu),
    decreases n,
{
    if n > 0 {
        lemma_messages_bounded(c, t, max_private_tokens, nets_per_gpu, n - 1);
        assert((n - 1) * (1 + nets_per_gpu) + (1 + nets_per_gpu) == n * (1 + nets_per_gpu))
            by (nonlinear_arith);
    } else {
        assert(0 * (1 + nets_per_gpu) == 0) by (nonlinear_arith);
    }
}

/// Within the limits, padded offsets are the rows that the runs before take up.
proof fn lemma_padded_before(c: Cluster, t: RouteTable, expert_padding: int, n: int)
    requires
        c.valid(),
        0 < expert_padding,
        0 <= n <= c.experts_per_rank(),
        c.received(t) <= LIMIT,
        c.padded_rows(t, expert_padding, c.experts_per_rank()) <= LIMIT,
    ensures
        padded_before(c.expert_totals(t), expert_padding, n) == c.padded_rows(
            t,
            expert_padding,
            n,
        ),
    decreases n,
{
    if n > 0 {
        lemma_padded_before(c, t, expert_padding, n - 1);
        lemma_for_block(c, t, n - 1);
        assert(c.expert_totals(t)[n - 1] == c.for_block(t, n - 1));
        lemma_ceil_div(c.for_block(t, n - 1), expert_padding);
        lemma_padded_rows_monotone(c, t, expert_padding, n, c.experts_per_rank());
        lemma_padded_rows_monotone(c, t, expert_padding, n - 1, n);
    }
}

/// What an arriving token can reach: it is one of its group's tokens, one of those received, and
/// one of its expert's.
proof fn lemma_arrival_bounds(c: Cluster, t: RouteTable, a: Arrival)
    requires
        c.valid(),
        0 <= c.local_experts(),
        0 <= c.first_local(),
        0 <= a.visit < c.source_order().len(),
        0 <= a.local_expert < c.local_experts(),
        0 <= a.index < t[c.source_order()[a.visit]][c.first_local() + a.local_expert],
    ensures
        0 <= c.source_group(a) < c.groups(),
        0 <= c.index_in_group(t, a),
        0 <= c.from_group_to_lower(t, c.source_group(a)),
        c.from_group_to_lower(t, c.source_group(a)) + c.index_in_group(t, a) < c.up_to_here(
            t,
            c.source_group(a),
        ),
        0 <= c.from_groups_below(t, c.source_group(a)),
        c.from_groups_below(t, c.source_group(a)) + c.index_in_group(t, a) < c.received(t),
        0 <= c.index_in_expert(t, a) < c.for_expert(t, a.local_expert),
{
    let g = c.source_group(a);
    let first = c.first_local();
    let last = c.last_local();
    let at = first + a.local_expert;
    let order = c.source_order();
    let all = ascending(c.groups());
    assert(0 <= order[a.visit] < c.groups());
    // Within the group.
    lemma_row_sum_nonneg(t, g, first, at);
    lemma_row_sum_cell(t, g, at);
    lemma_row_sum_split(t, g, first, at, at + 1);
    lemma_row_sum_within(t, g, first, last, first, at + 1);
    lemma_row_sum_nonneg(t, g, 0, first);
    lemma_row_sum_split(t, g, 0, first, last);
    // Among the groups below.
    lemma_visited_sum_nonneg(t, all, first, last, g);
    assert(all[g] == g);
    lemma_visited_sum_monotone(t, all, first, last, g + 1, c.groups());
    // Within the expert.
    lemma_visited_sum_nonneg(t, order, at, at + 1, a.visit);
    lemma_visited_at_most_all(t, order, at, at + 1, a.visit + 1, c.groups());
}

impl ContextConfig {
    /// Within the limits, the sizes of tokens fit.
    proof fn lemma_dims(self, nets_per_gpu: int)
        requires
            self.sizes_within_limits(nets_per_gpu),
        ensures
            0 < self.dispatch_token_dim() <= LIMIT,
            0 <= self.combine_token_dim() <= LIMIT,
            self.dims_fit(),
            self.combine_dims_fit(),
    {
        assert(0 <= self.hidden_dim * self.in_elemsize) by (nonlinear_arith);
        assert(0 <= self.hidden_dim_scale * self.scale_elemsize) by (nonlinear_arith);
        assert(0 <= self.hidden_dim * self.out_elemsize) by (nonlinear_arith);
        lemma_ceil_div(self.hidden_dim * self.in_elemsize, TOKEN_ALIGNMENT as int);
        lemma_ceil_div(self.hidden_dim_scale * self.scale_elemsize, TOKEN_ALIGNMENT as int);
        lemma_ceil_div(self.hidden_dim * self.out_elemsize, TOKEN_ALIGNMENT as int);
    }

    /// Within the limits, the receive plan can be computed.
    pub proof fn law_within_limits_is_plannable(self, t: RouteTable, nets_per_gpu: int)
        requires
            self.plan_within_limits(t, nets_per_gpu),
            0 <= nets_per_gpu,
            covers(t, self.cluster()),
        ensures
            self.cluster().plannable(
                t,
                self.expert_padding as int,
                self.max_tokens_per_expert as int,
                self.max_private_tokens as int,
                nets_per_gpu,
            ),
    {
        let c = self.cluster();
        let private = self.max_private_tokens as int;
        let stride = self.max_tokens_per_expert as int;
        let padding = self.expert_padding as int;
        lemma_plan_sizes(c);
        assert(0 <= private * c.groups()) by (nonlinear_arith)
            requires
                0 <= private,
                0 <= c.groups(),
        ;
        lemma_visited_sum_nonneg(
            t,
            ascending(c.groups()),
            c.first_local(),
            c.last_local(),
            c.groups(),
        );
        // Totals.
        assert forall|g: int| 0 <= g < c.groups() implies #[trigger] c.from_group_to_lower(t, g)
            <= u32::MAX by {
            assert(c.up_to_here(t, g) <= LIMIT);
            lemma_row_sum_within(t, g, 0, c.last_local(), 0, c.first_local());
        }
        assert forall|g: int| 0 <= g < c.groups() implies #[trigger] c.from_group(t, g)
            <= u32::MAX by {
            assert(c.up_to_here(t, g) <= LIMIT);
            lemma_row_sum_within(t, g, 0, c.last_local(), c.first_local(), c.last_local());
        }
        assert forall|l: int| 0 <= l < c.local_experts() implies #[trigger] c.for_expert(t, l)
            <= u32::MAX by {
            lemma_for_block(c, t, l);
        }
        lemma_messages_bounded(c, t, private, nets_per_gpu, c.groups());
        assert(c.totals_fit(t, private, nets_per_gpu));
        // Offsets of the experts.
        self.lemma_offsets_fit(t, nets_per_gpu);
        assert(c.local_experts() * c.groups() <= usize::MAX) by (nonlinear_arith)
            requires
                c.local_experts() <= c.experts_per_rank(),
                c.groups() * c.experts_per_rank() < c.num_experts + c.groups(),
                c.num_experts + c.groups() <= usize::MAX,
                0 < c.groups(),
        ;
        // Offsets of the tokens.
        assert forall|p: int| 0 <= p < c.arrivals(t).len() implies ({
            &&& c.token_fits(t, private, #[trigger] c.arrivals(t)[p])
            &&& c.output_row(t, padding, stride, c.arrivals(t)[p]) <= u32::MAX
        }) by {
            lemma_arrival_valid(c, t, c.source_order().len() as int, p);
            self.lemma_arrival_fits(t, nets_per_gpu, c.arrivals(t)[p]);
        }
    }

    /// Within the limits, the offsets of the experts fit.
    proof fn lemma_offsets_fit(self, t: RouteTable, nets_per_gpu: int)
        requires
            self.plan_within_limits(t, nets_per_gpu),
        ensures
            offsets_fit(
                self.cluster().expert_totals(t),
                self.expert_padding as int,
                self.max_tokens_per_expert as int,
            ),
    {
        let c = self.cluster();
        let stride = self.max_tokens_per_expert as int;
        let padding = self.expert_padding as int;
        let totals = c.expert_totals(t);
        let epr = c.experts_per_rank();
        lemma_plan_sizes(c);
        assert(0 <= self.max_private_tokens * c.groups()) by (nonlinear_arith)
            requires
                0 <= c.groups(),
        ;
        if stride > 0 {
            assert forall|l: int| 0 <= l < totals.len() implies #[trigger] stride_start(l, stride)
                <= usize::MAX by {
                assert(l * stride <= (epr - 1) * stride) by (nonlinear_arith)
                    requires
                        l <= epr - 1,
                        0 < stride,
                ;
            }
        } else if epr > 0 {
            lemma_padded_before(c, t, padding, epr);
            assert forall|l: int|
                #![trigger totals[l]]
                0 <= l < totals.len() implies align_up_spec(totals[l] as int, padding)
                <= usize::MAX by {
                lemma_for_block(c, t, l);
                assert(totals[l] == c.for_block(t, l));
                lemma_padded_rows_monotone(c, t, padding, l + 1, epr);
                lemma_padded_rows_monotone(c, t, padding, l, l + 1);
            }
        } else {
            assert(padded_before(totals, padding, 0) == 0);
        }
    }

    /// Within the limits, the offsets of a token fit.
    proof fn lemma_arrival_fits(self, t: RouteTable, nets_per_gpu: int, a: Arrival)
        requires
            self.plan_within_limits(t, nets_per_gpu),
            0 <= a.visit < self.cluster().source_order().len(),
            0 <= a.local_expert < self.cluster().local_experts(),
            0 <= a.index < t[self.cluster().source_order()[a.visit]][self.cluster().first_local()
                + a.local_expert],
        ensures
            self.cluster().token_fits(t, self.max_private_tokens as int, a),
            self.cluster().output_row(
                t,
                self.expert_padding as int,
                self.max_tokens_per_expert as int,
                a,
            ) <= u32::MAX,
    {
        let c = self.cluster();
        let private = self.max_private_tokens as int;
        let stride = self.max_tokens_per_expert as int;
        let padding = self.expert_padding as int;
        let g = c.source_group(a);
        let l = a.local_expert;
        lemma_plan_sizes(c);
        lemma_arrival_bounds(c, t, a);
        assert(c.up_to_here(t, g) <= LIMIT);
        assert(0 <= private * g && private * g + private <= private * c.groups() && private
            <= private * c.groups()) by (nonlinear_arith)
            requires
                0 <= g,
                g + 1 <= c.groups(),
                0 <= private,
        ;
        assert(c.token_fits(t, private, a));
        if stride > 0 {
            assert(stride_start(l, stride) + c.for_expert(t, l) <= LIMIT);
            assert(0 <= l * stride) by (nonlinear_arith)
                requires
                    0 <= l,
                    0 < stride,
            ;
        } else {
            lemma_padded_before(c, t, padding, l);
            lemma_for_block(c, t, l);
            lemma_ceil_div(c.for_block(t, l), padding);
            lemma_padded_rows_monotone(c, t, padding, l + 1, c.experts_per_rank());
        }
    }

    /// Within the limits, the first writes of a round can be computed.
    pub proof fn law_within_limits_is_initial_routable(self, t: RouteTable, nets_per_gpu: int)
        requires
            self.initial_within_limits(t, nets_per_gpu),
        ensures
            self.initial_routable(t),
    {
        let c = self.cluster();
        let g = c.dp_group as int;
        let private = self.max_private_tokens as int;
        let ddim = self.dispatch_token_dim();
        lemma_plan_sizes(c);
        self.lemma_dims(nets_per_gpu);
        lemma_row_sum_nonneg(t, g, 0, c.num_experts as int);
        assert(0 <= g * private <= private * c.groups()) by (nonlinear_arith)
            requires
                0 <= g < c.groups(),
                0 <= private,
        ;
        assert forall|i: int|
            #![trigger c.remote_peers()[i]]
            0 <= i < c.remote_peers().len() implies range_fits(
            initial_transfer(c, t, private, c.remote_peers()[i]),
            ddim,
        ) by {
            let p = c.remote_peers()[i];
            assert(0 <= p < c.world_size);
            lemma_to_rank_bounds(c, t, p);
            let transfer = initial_transfer(c, t, private, p);
            lemma_product_fits(transfer.length_tokens as int, ddim);
            lemma_product_fits(transfer.src_token_offset as int, ddim);
            lemma_product_fits(transfer.dst_token_offset as int, ddim);
        }
        assert(initial_ranges_fit(c, t, private, ddim));
    }

    /// Within the limits, the routing of a round can be processed.
    pub proof fn law_within_limits_is_routable(self, t: RouteTable, nets_per_gpu: int)
        requires
            self.within_limits(t, nets_per_gpu),
            0 <= nets_per_gpu,
            covers(t, self.cluster()),
        ensures
            self.routable(t, nets_per_gpu),
    {
        let c = self.cluster();
        let private = self.max_private_tokens as int;
        let ddim = self.dispatch_token_dim();
        let cdim = self.combine_token_dim();
        lemma_plan_sizes(c);
        self.lemma_dims(nets_per_gpu);
        self.law_within_limits_is_plannable(t, nets_per_gpu);
        lemma_placed_sizes(c);
        assert forall|p: int|
            0 <= p < c.world_size && #[trigger] c.to_rank(t, p) > private implies private
            * c.groups() + c.from_lower_groups_to(t, p) <= LIMIT by {
            self.lemma_lower_bound(t, nets_per_gpu, p);
        }
        assert forall|i: int|
            #![trigger c.remote_peers()[i]]
            0 <= i < c.remote_peers().len() implies overflow_range_fits(
            c,
            t,
            private,
            ddim,
            c.remote_peers()[i],
        ) by {
            let p = c.remote_peers()[i];
            assert(0 <= p < c.world_size);
            lemma_to_rank_bounds(c, t, p);
            if c.to_rank(t, p) > private {
                self.lemma_lower_bound(t, nets_per_gpu, p);
                lemma_product_fits(c.to_rank(t, p) - private, ddim);
                lemma_product_fits(private + c.to_rank_start(t, p), ddim);
                lemma_product_fits(
                    private * c.groups() + c.from_lower_groups_to(t, p),
                    ddim,
                );
            }
        }
        assert forall|i: int|
            #![trigger c.remote_groups()[i]]
            0 <= i < c.remote_groups().len() implies combine_range_fits(
            c,
            t,
            cdim,
            c.remote_groups()[i],
        ) by {
            let g = c.remote_groups()[i];
            assert(0 <= g < c.groups());
            assert(c.up_to_here(t, g) <= LIMIT);
            lemma_row_sum_nonneg(t, g, c.first_local(), c.last_local());
            lemma_row_sum_nonneg(t, g, 0, c.first_local());
            lemma_row_sum_within(t, g, 0, c.last_local(), c.first_local(), c.last_local());
            lemma_row_sum_within(t, g, 0, c.last_local(), 0, c.first_local());
            lemma_product_fits(c.from_group(t, g), cdim);
            lemma_product_fits((c.from_groups_below(t, g) as u32) as int, cdim);
            lemma_product_fits(c.from_group_to_lower(t, g), cdim);
        }
        assert forall|p: int| 0 <= p < c.world_size implies #[trigger] c.to_rank(t, p) * ddim
            <= u64::MAX by {
            lemma_to_rank_bounds(c, t, p);
            lemma_product_fits(c.to_rank(t, p), ddim);
        }
        assert forall|g: int| 0 <= g < c.groups() implies #[trigger] c.from_group(t, g) * cdim
            <= u64::MAX by {
            assert(c.up_to_here(t, g) <= LIMIT);
            lemma_row_sum_nonneg(t, g, c.first_local(), c.last_local());
            lemma_row_sum_within(t, g, 0, c.last_local(), c.first_local(), c.last_local());
            lemma_product_fits(c.from_group(t, g), cdim);
        }
    }

    /// Within the limits, what overflows at a peer has a place there.
    proof fn lemma_lower_bound(self, t: RouteTable, nets_per_gpu: int, p: int)
        requires
            self.within_limits(t, nets_per_gpu),
            0 <= p < self.world_size,
            self.cluster().to_rank(t, p) > self.max_private_tokens,
        ensures
            0 <= self.cluster().from_lower_groups_to(t, p),
            0 <= self.max_private_tokens * self.cluster().groups(),
            self.max_private_tokens * self.cluster().groups() + self.cluster().from_lower_groups_to(
                t,
                p,
            ) <= LIMIT,
    {
        let c = self.cluster();
        let dp = c.dp_size as int;
        lemma_has_groups(self);
        lemma_plan_sizes(c);
        assert(c.group_at(p) >= 0);
        let h = c.group_at(p);
        lemma_rank_of_group_at(c, p);
        assert(p / dp == h) by {
            vstd::arithmetic::div_mod::lemma_fundamental_div_mod_converse(
                p,
                dp,
                h,
                c.dp_rank as int,
            );
        }
        assert(c.from_lower_to_group(t, h) == c.from_lower_groups_to(t, p));
        lemma_visited_sum_nonneg(
            t,
            ascending(c.dp_group as int),
            c.first_expert(h),
            c.last_expert(h),
            c.dp_group as int,
        );
        assert(0 <= self.max_private_tokens * c.groups()) by (nonlinear_arith)
            requires
                0 <= c.groups(),
        ;
    }
}

/// What goes to a rank, and where it starts, lies within what this rank's group sends.
proof fn lemma_to_rank_bounds(c: Cluster, t: RouteTable, p: int)
    requires
        c.valid(),
    ensures
        0 <= c.to_rank(t, p),
        0 <= c.to_rank_start(t, p),
        c.to_rank_start(t, p) + c.to_rank(t, p) <= c.sent(t),
{
    let g = c.dp_group as int;
    let experts = c.num_experts as int;
    lemma_plan_sizes(c);
    lemma_row_sum_nonneg(t, g, 0, experts);
    if c.group_at(p) >= 0 {
        let to = c.group_at(p);
        lemma_rank_of_group_at(c, p);
        lemma_block(c, to);
        let first = c.first_expert(to);
        let last = c.last_expert(to);
        let start = crate::arith::min_spec(first, experts);
        lemma_row_sum_nonneg(t, g, first, last);
        lemma_row_sum_nonneg(t, g, 0, start);
        if first <= experts {
            lemma_row_sum_split(t, g, 0, first, last);
            lemma_row_sum_within(t, g, 0, experts, 0, last);
        }
    }
}

/// Within the limits, the counts of a round are accepted at both readings.
pub proof fn law_exchanges_within_limits_are_accepted(
    worker: WorkerState,
    counts: Vec<u32>,
    nets_per_gpu: u32,
    first: bool,
    second: bool,
)
    requires
        call_ensures(WorkerState::check_initial_counts, (&worker, &counts, nets_per_gpu), first),
        call_ensures(WorkerState::check_counts, (&worker, &counts, nets_per_gpu), second),
        worker.wf(),
        worker.config.cluster().groups() * worker.config.num_experts <= counts@.len(),
        worker.config.within_limits(
            flat_table(
                counts@,
                worker.config.cluster().groups(),
                worker.config.num_experts as int,
            ),
            nets_per_gpu as int,
        ),
    ensures
        first,
        second,
{
    let config = worker.config;
    let c = config.cluster();
    let t = flat_table(counts@, c.groups(), config.num_experts as int);
    let nets = nets_per_gpu as int;
    lemma_has_groups(config);
    lemma_visited_sum_nonneg(
        t,
        ascending(c.groups()),
        c.first_local(),
        c.last_local(),
        c.groups(),
    );
    assert(t == worker.routes(counts@));
    assert(covers(t, c));
    law_within_limits_is_ready(worker, nets);
    config.law_within_limits_is_initial_routable(t, nets);
    config.law_within_limits_is_routable(t, nets);
}

} // verus!
