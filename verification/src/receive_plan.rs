//! The receive plan: where every token that arrives at a rank is read from, where it goes, and
//! where its result is sent back to.

use vstd::prelude::*;
use crate::arith::{ceil_div, min_usize};
use crate::cluster::{ordered_source_groups, Cluster};
use crate::padding::{
    compute_padded_offsets, low32, offsets_fit, pack_layout_range, padded_offset,
};
use crate::routing::{
    covers, lemma_arrival_at, lemma_arrivals_len, lemma_row_sum_cell, lemma_row_sum_nonneg,
    lemma_row_sum_split, lemma_row_sum_within, lemma_visited_at_most_all, lemma_visited_sum_nonneg,
    row_sum, table, Arrival, RouteTable,
};
use crate::traffic::{
    count_group_traffic, expert_totals_match, group_totals_match, lemma_block, lemma_group_at,
    lemma_valid_sizes, rank_totals_match,
};

verus! {

/// Everything a rank needs to take in the tokens of one exchange.
#[derive(Debug, PartialEq)]
pub struct ReceiveRoutePlan {
    /// The tokens from each group.
    pub tokens_from_group: Vec<u32>,
    /// Where the tokens of each group start among all that this rank receives.
    pub src_group_offset: Vec<u32>,
    /// Where the tokens for this rank start among all that each group sends.
    pub dst_group_offset: Vec<u32>,
    /// The tokens for each local expert.
    pub tokens_per_expert: Vec<u32>,
    /// The number of tokens received.
    pub num_recv_tokens: usize,
    /// The number of tokens received from other nodes.
    pub num_recv_efa_tokens: usize,
    /// The number of completion messages to wait for.
    pub num_recv_tx: u32,
    /// Where each token is read from.
    pub source_dispatch_offset: Vec<u32>,
    /// Where the result for each token is written to.
    pub combine_send_offset: Vec<u32>,
    /// The rank that each token comes from.
    pub source_rank: Vec<u32>,
    /// The row of the output that each token goes to.
    pub padded_index: Vec<u32>,
    /// The tokens that this rank's group sends to each rank.
    pub tokens_to_rank: Vec<u32>,
    /// Where the tokens for each rank start among all that this rank's group sends.
    pub dispatch_src_offset: Vec<u32>,
    /// For each local expert and group, the packed run of rows that the group's tokens fill.
    pub layout_range: Vec<u64>,
}

/// The flag that marks an offset into the send buffer of a peer on the same node.
pub const PEER_SEND_BUFFER: u32 = 0x8000_0000;

impl Cluster {
    /// Where an arriving token is read from: this rank's own send buffer for its own tokens;
    /// for the first tokens of another group, the group's private part of the receive buffer;
    /// past those, for a peer on this node, the peer's send buffer, which a flag marks, and for
    /// other peers the shared part of the receive buffer.
    pub open spec fn dispatch_offset(
        self,
        t: RouteTable,
        max_private_tokens: int,
        a: Arrival,
    ) -> int {
        let group = self.source_group(a);
        let k = self.index_in_group(t, a);
        if group == self.dp_group {
            self.index_at_source(t, a)
        } else if k < max_private_tokens {
            low32(max_private_tokens * group) + k
        } else if self.same_node(group) {
            ((self.from_group_to_lower(t, group) + k) as u32 | PEER_SEND_BUFFER) as int
        } else {
            low32(self.from_groups_below(t, group)) + k + (low32(
                max_private_tokens * self.groups(),
            ) - low32(max_private_tokens))
        }
    }

    /// Where the result for an arriving token is written to: on this node, the token's place
    /// among all that its group sends; for other nodes, its place in this rank's send buffer.
    pub open spec fn combine_offset(self, t: RouteTable, a: Arrival) -> int {
        let group = self.source_group(a);
        let k = self.index_in_group(t, a);
        if group == self.dp_group && self.dp_size <= 1 {
            self.index_at_source(t, a)
        } else if self.same_node(group) {
            self.from_group_to_lower(t, group) + k
        } else {
            low32(self.from_groups_below(t, group)) + k
        }
    }

    /// Whether the offsets of an arriving token fit 32 bits.
    pub open spec fn token_fits(self, t: RouteTable, max_private_tokens: int, a: Arrival) -> bool {
        let group = self.source_group(a);
        let k = self.index_in_group(t, a);
        group != self.dp_group ==> {
            &&& k < max_private_tokens ==> low32(max_private_tokens * group) + k <= u32::MAX
            &&& k >= max_private_tokens && self.same_node(group) ==> self.from_group_to_lower(
                t,
                group,
            ) + k <= u32::MAX
            &&& k >= max_private_tokens && !self.same_node(group) ==> {
                &&& low32(max_private_tokens) <= low32(max_private_tokens * self.groups())
                &&& self.dispatch_offset(t, max_private_tokens, a) <= u32::MAX
            }
            &&& self.combine_offset(t, a) <= u32::MAX
        }
    }

    /// The row of the output that an arriving token goes to.
    pub open spec fn output_row(
        self,
        t: RouteTable,
        expert_padding: int,
        max_tokens_per_expert: int,
        a: Arrival,
    ) -> int {
        padded_offset(
            self.expert_totals(t),
            expert_padding,
            max_tokens_per_expert,
            a.local_expert,
        ) + self.index_in_expert(t, a)
    }

    /// The tokens for each local expert, with zeros up to the size of a full block.
    pub open spec fn expert_totals(self, t: RouteTable) -> Seq<u32> {
        Seq::new(
            self.experts_per_rank() as nat,
            |l: int|
                if l < self.local_experts() {
                    self.for_expert(t, l) as u32
                } else {
                    0
                },
        )
    }

    /// Whether a receive plan can be computed: every count and offset fits its integer type.
    pub open spec fn plannable(
        self,
        t: RouteTable,
        expert_padding: int,
        max_tokens_per_expert: int,
        max_private_tokens: int,
        nets_per_gpu: int,
    ) -> bool {
        &&& self.valid()
        &&& covers(t, self)
        &&& self.totals_fit(t, max_private_tokens, nets_per_gpu)
        &&& offsets_fit(self.expert_totals(t), expert_padding, max_tokens_per_expert)
        &&& max_private_tokens * self.groups() <= usize::MAX
        &&& self.local_experts() * self.groups() <= usize::MAX
        &&& forall|p: int|
            0 <= p < self.arrivals(t).len() ==> {
                &&& self.token_fits(t, max_private_tokens, #[trigger] self.arrivals(t)[p])
                &&& self.output_row(
                    t,
                    expert_padding,
                    max_tokens_per_expert,
                    self.arrivals(t)[p],
                ) <= u32::MAX
            }
    }

    /// The packed run of rows that the tokens of one visit fill within their expert's part.
    pub open spec fn packed_run(self, t: RouteTable, local_expert: int, visit: int) -> int {
        self.arrived_for_expert(t, local_expert, visit) * 0x1_0000_0000
            + t[self.source_order()[visit]][self.first_local() + local_expert]
    }
}

/// Where the run of a group for a local expert stands in the list of runs.
pub open spec fn run_index(groups: int, local_expert: int, group: int) -> int {
    local_expert * groups + group
}

/// Whether `group` is among the first `visits` groups of `order`.
pub open spec fn visited(order: Seq<int>, visits: int, group: int) -> bool {
    exists|j: int| 0 <= j < visits && #[trigger] order[j] == group
}

/// The runs of the first `visits` visits are in place and the others are zero.
pub open spec fn runs_match(
    c: Cluster,
    t: RouteTable,
    layout_range: Seq<u64>,
    visits: int,
) -> bool {
    &&& layout_range.len() == c.local_experts() * c.groups()
    &&& forall|j: int, l: int|
        #![trigger run_index(c.groups(), l, c.source_order()[j])]
        0 <= j < visits && 0 <= l < c.local_experts() ==> layout_range[run_index(
            c.groups(),
            l,
            c.source_order()[j],
        )] == c.packed_run(t, l, j)
    &&& forall|g: int, l: int|
        #![trigger run_index(c.groups(), l, g)]
        0 <= g < c.groups() && 0 <= l < c.local_experts() && !visited(c.source_order(), visits, g)
            ==> layout_range[run_index(c.groups(), l, g)] == 0
}

/// The column of read offsets agrees with the arrival order up to `filled`, and is zero from
/// there on.
pub open spec fn dispatch_offsets_match(
    c: Cluster,
    t: RouteTable,
    max_private_tokens: int,
    source_dispatch_offset: Seq<u32>,
    filled: int,
) -> bool {
    &&& source_dispatch_offset.len() == c.received(t)
    &&& forall|p: int|
        0 <= p < c.received(t) ==> #[trigger] source_dispatch_offset[p] == if p < filled {
            c.dispatch_offset(t, max_private_tokens, c.arrivals(t)[p])
        } else {
            0
        }
}

/// The column of write offsets agrees with the arrival order up to `filled`, and is zero from
/// there on.
pub open spec fn combine_offsets_match(
    c: Cluster,
    t: RouteTable,
    combine_send_offset: Seq<u32>,
    filled: int,
) -> bool {
    &&& combine_send_offset.len() == c.received(t)
    &&& forall|p: int|
        0 <= p < c.received(t) ==> #[trigger] combine_send_offset[p] == if p < filled {
            c.combine_offset(t, c.arrivals(t)[p])
        } else {
            0
        }
}

/// The column of source ranks agrees with the arrival order up to `filled`, and is zero from
/// there on.
pub open spec fn source_ranks_match(
    c: Cluster,
    t: RouteTable,
    source_rank: Seq<u32>,
    filled: int,
) -> bool {
    &&& source_rank.len() == c.received(t)
    &&& forall|p: int|
        0 <= p < c.received(t) ==> #[trigger] source_rank[p] == if p < filled {
            c.rank_of(c.source_group(c.arrivals(t)[p])) as u32
        } else {
            0u32
        }
}

/// The column of output rows agrees with the arrival order up to `filled`, and is zero from
/// there on.
pub open spec fn output_rows_match(
    c: Cluster,
    t: RouteTable,
    expert_padding: int,
    max_tokens_per_expert: int,
    padded_index: Seq<u32>,
    filled: int,
) -> bool {
    &&& padded_index.len() == c.received(t)
    &&& forall|p: int|
        0 <= p < c.received(t) ==> #[trigger] padded_index[p] == if p < filled {
            c.output_row(t, expert_padding, max_tokens_per_expert, c.arrivals(t)[p])
        } else {
            0
        }
}

impl ReceiveRoutePlan {
    /// Whether this is the receive plan for the table.
    pub open spec fn matches(
        self,
        c: Cluster,
        t: RouteTable,
        expert_padding: int,
        max_tokens_per_expert: int,
        max_private_tokens: int,
        nets_per_gpu: int,
    ) -> bool {
        &&& group_totals_match(
            c,
            t,
            self.tokens_from_group@,
            self.src_group_offset@,
            self.dst_group_offset@,
        )
        &&& expert_totals_match(c, t, self.tokens_per_expert@)
        &&& rank_totals_match(c, t, self.tokens_to_rank@, self.dispatch_src_offset@)
        &&& self.num_recv_tokens == c.received(t)
        &&& self.num_recv_efa_tokens == c.arrived(t, c.remote_visits())
        &&& self.num_recv_tx == c.messages_below(t, max_private_tokens, nets_per_gpu, c.groups())
        &&& dispatch_offsets_match(
            c,
            t,
            max_private_tokens,
            self.source_dispatch_offset@,
            c.arrivals(t).len() as int,
        )
        &&& combine_offsets_match(
            c,
            t,
            self.combine_send_offset@,
            c.arrivals(t).len() as int,
        )
        &&& source_ranks_match(c, t, self.source_rank@, c.arrivals(t).len() as int)
        &&& output_rows_match(
            c,
            t,
            expert_padding,
            max_tokens_per_expert,
            self.padded_index@,
            c.arrivals(t).len() as int,
        )
        &&& runs_match(c, t, self.layout_range@, c.source_order().len() as int)
    }
}

/// What stays fixed while tokens are placed.
struct PlacementInput<'a> {
    cluster: Cluster,
    num_routed: &'a Vec<Vec<u32>>,
    src_group_offset: &'a Vec<u32>,
    dst_group_offset: &'a Vec<u32>,
    padded_offset: &'a Vec<u32>,
    expert_padding: usize,
    max_tokens_per_expert: usize,
    max_private_tokens: usize,
    nets_per_gpu: u32,
    num_dp_groups: usize,
    first_local: usize,
    last_local: usize,
    rank: usize,
    rank_node: usize,
    base_offset: u64,
}

impl<'a> PlacementInput<'a> {
    spec fn wf(self) -> bool {
        let c = self.cluster;
        let t = table(self.num_routed);
        &&& c.plannable(
            t,
            self.expert_padding as int,
            self.max_tokens_per_expert as int,
            self.max_private_tokens as int,
            self.nets_per_gpu as int,
        )
        &&& self.src_group_offset@.len() == c.groups()
        &&& forall|g: int|
            0 <= g < c.groups() ==> #[trigger] self.src_group_offset@[g] == c.from_groups_below(
                t,
                g,
            ) as u32
        &&& self.dst_group_offset@.len() == c.groups()
        &&& forall|g: int|
            0 <= g < c.groups() ==> #[trigger] self.dst_group_offset@[g]
                == c.from_group_to_lower(t, g)
        &&& self.padded_offset@.len() == c.experts_per_rank()
        &&& forall|l: int|
            0 <= l < c.experts_per_rank() ==> #[trigger] self.padded_offset@[l] == padded_offset(
                c.expert_totals(t),
                self.expert_padding as int,
                self.max_tokens_per_expert as int,
                l,
            )
        &&& self.num_dp_groups == c.groups()
        &&& self.first_local == c.first_local()
        &&& self.last_local == c.last_local()
        &&& self.first_local <= self.last_local
        &&& self.rank == c.rank()
        &&& self.rank_node == c.rank_node()
        &&& self.base_offset == self.max_private_tokens * c.groups()
    }
}

/// The columns of the plan while they are being filled, with the counters that say how far.
struct Placement {
    source_dispatch_offset: Vec<u32>,
    combine_send_offset: Vec<u32>,
    source_rank: Vec<u32>,
    padded_index: Vec<u32>,
    layout_range: Vec<u64>,
    last: usize,
    src_dispatch_count: Vec<u32>,
    src_combine_count: Vec<u32>,
    expert_count: Vec<usize>,
    source_expert_offset: Vec<u32>,
}

impl Placement {
    spec fn columns_match(self, input: PlacementInput) -> bool {
        let c = input.cluster;
        let t = table(input.num_routed);
        let filled = self.last as int;
        &&& dispatch_offsets_match(
            c,
            t,
            input.max_private_tokens as int,
            self.source_dispatch_offset@,
            filled,
        )
        &&& combine_offsets_match(c, t, self.combine_send_offset@, filled)
        &&& source_ranks_match(c, t, self.source_rank@, filled)
        &&& output_rows_match(
            c,
            t,
            input.expert_padding as int,
            input.max_tokens_per_expert as int,
            self.padded_index@,
            filled,
        )
    }

    /// The state in the middle of a visit: the tokens of the earlier visits, those of this
    /// visit for the experts below `local_expert`, and `k` tokens for that expert are placed.
    spec fn at(self, input: PlacementInput, visit: int, local_expert: int, k: int) -> bool {
        let c = input.cluster;
        let t = table(input.num_routed);
        let order = c.source_order();
        let group = order[visit];
        let first = c.first_local();
        let placed = row_sum(t, group, first, first + local_expert) + k;
        &&& self.columns_match(input)
        &&& self.last == c.arrived(t, visit) + placed
        &&& self.expert_count@.len() == c.local_experts()
        &&& forall|l: int|
            0 <= l < c.local_experts() ==> #[trigger] self.expert_count@[l]
                == c.arrived_for_expert(t, l, visit) + if l < local_expert {
                t[group][first + l] as int
            } else if l == local_expert {
                k
            } else {
                0
            }
        &&& self.src_dispatch_count@.len() == c.groups()
        &&& self.src_combine_count@.len() == c.groups()
        &&& forall|g: int|
            0 <= g < c.groups() && !visited(order, visit, g) && g != group
                ==> #[trigger] self.src_dispatch_count@[g] == 0
        &&& forall|g: int|
            0 <= g < c.groups() && !visited(order, visit, g) && g != group
                ==> #[trigger] self.src_combine_count@[g] == 0
        &&& group != c.dp_group ==> self.src_dispatch_count@[group] == placed
        &&& (group != c.dp_group || c.dp_size > 1) ==> self.src_combine_count@[group] == placed
        &&& self.source_expert_offset@.len() == c.num_experts
        &&& forall|e: int|
            first + local_expert <= e < c.num_experts || (group != c.dp_group && 0 <= e
                < c.num_experts) ==> #[trigger] self.source_expert_offset@[e] == row_sum(
                t,
                c.dp_group as int,
                0,
                e,
            ) + if group == c.dp_group && e == first + local_expert {
                k
            } else {
                0
            }
    }

    /// The runs of the earlier visits and those of this visit for the experts below
    /// `local_expert` are in place.
    spec fn runs_at(self, input: PlacementInput, visit: int, local_experts: int) -> bool {
        let c = input.cluster;
        let t = table(input.num_routed);
        let order = c.source_order();
        &&& self.layout_range@.len() == c.local_experts() * c.groups()
        &&& forall|j: int, l: int|
            #![trigger run_index(c.groups(), l, order[j])]
            0 <= j < visit && 0 <= l < c.local_experts() ==> self.layout_range@[run_index(
                c.groups(),
                l,
                order[j],
            )] == c.packed_run(t, l, j)
        &&& forall|l: int|
            #![trigger run_index(c.groups(), l, order[visit])]
            0 <= l < local_experts ==> self.layout_range@[run_index(
                c.groups(),
                l,
                order[visit],
            )] == c.packed_run(t, l, visit)
        &&& forall|g: int, l: int|
            #![trigger run_index(c.groups(), l, g)]
            0 <= g < c.groups() && 0 <= l < c.local_experts() && !visited(order, visit, g) && g
                != order[visit] ==> self.layout_range@[run_index(c.groups(), l, g)] == 0
    }

    /// The state between visits.
    spec fn between(self, input: PlacementInput, visits: int) -> bool {
        let c = input.cluster;
        let t = table(input.num_routed);
        let order = c.source_order();
        &&& self.columns_match(input)
        &&& self.last == c.arrived(t, visits)
        &&& self.expert_count@.len() == c.local_experts()
        &&& forall|l: int|
            0 <= l < c.local_experts() ==> #[trigger] self.expert_count@[l]
                == c.arrived_for_expert(t, l, visits)
        &&& self.src_dispatch_count@.len() == c.groups()
        &&& self.src_combine_count@.len() == c.groups()
        &&& forall|g: int|
            0 <= g < c.groups() && !visited(order, visits, g)
                ==> #[trigger] self.src_dispatch_count@[g] == 0
        &&& forall|g: int|
            0 <= g < c.groups() && !visited(order, visits, g)
                ==> #[trigger] self.src_combine_count@[g] == 0
        &&& self.source_expert_offset@.len() == c.num_experts
        &&& visits < order.len() ==> forall|e: int|
            0 <= e < c.num_experts ==> #[trigger] self.source_expert_offset@[e] == row_sum(
                t,
                c.dp_group as int,
                0,
                e,
            )
        &&& runs_match(c, t, self.layout_range@, visits)
    }
}

/// Runs of different groups or experts stand at different places.
proof fn lemma_run_index(groups: int, local_experts: int, l: int, g: int, m: int, h: int)
    requires
        0 <= l < local_experts,
        0 <= m < local_experts,
        0 <= g < groups,
        0 <= h < groups,
    ensures
        0 <= run_index(groups, l, g) < local_experts * groups,
        0 <= run_index(groups, m, h) < local_experts * groups,
        run_index(groups, l, g) == run_index(groups, m, h) <==> l == m && g == h,
{
    assert(0 <= l * groups && l * groups + groups <= local_experts * groups) by (nonlinear_arith)
        requires
            0 <= l,
            l + 1 <= local_experts,
            0 < groups,
    ;
    assert(0 <= m * groups && m * groups + groups <= local_experts * groups) by (nonlinear_arith)
        requires
            0 <= m,
            m + 1 <= local_experts,
            0 < groups,
    ;
    if l < m {
        assert(l * groups + groups <= m * groups) by (nonlinear_arith)
            requires
                l + 1 <= m,
                0 < groups,
        ;
    } else if m < l {
        assert(m * groups + groups <= l * groups) by (nonlinear_arith)
            requires
                m + 1 <= l,
                0 < groups,
        ;
    }
}

/// A peer is this rank only in this rank's group.
proof fn lemma_peer_is_self(c: Cluster, group: int)
    requires
        0 < c.dp_size,
    ensures
        c.rank_of(group) == c.rank() <==> group == c.dp_group,
{
    if c.rank_of(group) == c.rank() {
        assert(group == c.dp_group) by (nonlinear_arith)
            requires
                group * c.dp_size == c.dp_group * c.dp_size,
                0 < c.dp_size,
        ;
    }
}

/// Facts that hold while the token `(visit, local_expert, k)` is placed.
proof fn lemma_token_in_range(input: PlacementInput, visit: int, local_expert: int, k: int)
    requires
        input.wf(),
        0 <= visit < input.cluster.source_order().len(),
        0 <= local_expert < input.cluster.local_experts(),
        0 <= k < table(input.num_routed)[input.cluster.source_order()[visit]][input.first_local
            + local_expert],
    ensures
        ({
            let c = input.cluster;
            let t = table(input.num_routed);
            let group = c.source_order()[visit];
            let a = Arrival { visit, local_expert, index: k };
            let place = c.arrived(t, visit) + c.index_in_group(t, a);
            &&& 0 <= place < c.received(t)
            &&& place < c.arrivals(t).len()
            &&& c.arrivals(t)[place] == a
            &&& c.token_fits(t, input.max_private_tokens as int, a)
            &&& c.output_row(
                t,
                input.expert_padding as int,
                input.max_tokens_per_expert as int,
                a,
            ) <= u32::MAX
            &&& 0 <= c.index_in_group(t, a) < c.from_group(t, group) <= u32::MAX
            &&& 0 <= c.index_in_expert(t, a) < u32::MAX
            &&& group == c.dp_group ==> 0 <= c.index_at_source(t, a) < u32::MAX
            &&& c.index_at_source(t, a) == c.from_group_to_lower(t, group) + c.index_in_group(
                t,
                a,
            )
        }),
{
    let c = input.cluster;
    let t = table(input.num_routed);
    let order = c.source_order();
    let group = order[visit];
    let first = c.first_local();
    let expert = first + local_expert;
    let a = Arrival { visit, local_expert, index: k };
    lemma_valid_sizes(c);
    lemma_arrival_at(c, t, order.len() as int, visit, local_expert, k);
    lemma_arrivals_len(c, t, order.len() as int);
    assert(c.arrivals(t)[c.arrived(t, visit) + c.index_in_group(t, a)] == a);
    lemma_visited_at_most_all(t, order, first, c.last_local(), order.len() as int, c.groups());
    lemma_row_sum_nonneg(t, group, first, expert);
    lemma_row_sum_within(t, group, first, c.last_local(), first, expert + 1);
    lemma_row_sum_cell(t, group, expert);
    assert(c.from_group(t, group) <= u32::MAX);
    lemma_visited_sum_nonneg(t, order, expert, expert + 1, visit);
    lemma_visited_at_most_all(t, order, expert, expert + 1, visit + 1, c.groups());
    assert(c.for_expert(t, local_expert) <= u32::MAX);
    lemma_row_sum_split(t, group, 0, first, expert);
    if group == c.dp_group {
        lemma_row_sum_within(t, group, 0, c.num_experts as int, 0, expert + 1);
        lemma_row_sum_nonneg(t, group, 0, expert);
    }
}

/// Places the tokens of one visit for one local expert.
fn place_expert(
    input: &PlacementInput,
    placement: &mut Placement,
    visit: Ghost<int>,
    peer_group: usize,
    local_expert: usize,
    routed: u32,
)
    requires
        input.wf(),
        0 <= visit@ < input.cluster.source_order().len(),
        peer_group == input.cluster.source_order()[visit@],
        local_expert < input.cluster.local_experts(),
        routed == table(input.num_routed)[peer_group as int][input.first_local + local_expert],
        old(placement).at(*input, visit@, local_expert as int, 0),
    ensures
        final(placement).at(*input, visit@, local_expert as int, routed as int),
        final(placement).layout_range == old(placement).layout_range,
{
    let cluster = input.cluster;
    let max_private_tokens: usize = input.max_private_tokens;
    let ghost t = table(input.num_routed);
    let ghost order = cluster.source_order();
    let ghost first = cluster.first_local();
    proof {
        lemma_valid_sizes(cluster);
        lemma_group_at(cluster, peer_group as int);
        lemma_peer_is_self(cluster, peer_group as int);
        assert(0 <= peer_group * cluster.dp_size) by (nonlinear_arith);
        assert(0 <= max_private_tokens * peer_group <= max_private_tokens * cluster.groups())
            by (nonlinear_arith)
            requires
                0 <= max_private_tokens,
                0 <= peer_group <= cluster.groups(),
        ;
    }
    let expert: usize = input.first_local + local_expert;
    let private_offset: u32 = (max_private_tokens * peer_group) as u32;
    let src_offset: u32 = input.src_group_offset[peer_group];
    let dst_offset: u32 = input.dst_group_offset[peer_group];
    let peer_rank: usize = peer_group * cluster.dp_size + cluster.dp_rank;
    let mut k: u32 = 0;
    while k < routed
        invariant
            k <= routed,
            input.wf(),
            cluster == input.cluster,
            max_private_tokens == input.max_private_tokens,
            t == table(input.num_routed),
            order == cluster.source_order(),
            first == cluster.first_local(),
            0 <= visit@ < order.len(),
            peer_group == order[visit@],
            0 <= peer_group < cluster.groups(),
            local_expert < cluster.local_experts(),
            routed == t[peer_group as int][first + local_expert],
            expert == first + local_expert,
            expert < cluster.num_experts,
            cluster.local_experts() <= cluster.experts_per_rank(),
            0 < cluster.node_size,
            private_offset == (max_private_tokens * peer_group) as u32,
            src_offset == cluster.from_groups_below(t, peer_group as int) as u32,
            dst_offset == cluster.from_group_to_lower(t, peer_group as int),
            peer_rank == cluster.rank_of(peer_group as int),
            peer_rank == input.rank <==> peer_group == cluster.dp_group,
            placement.at(*input, visit@, local_expert as int, k as int),
            placement.layout_range == old(placement).layout_range,
        decreases routed - k,
    {
        let ghost a = Arrival { visit: visit@, local_expert: local_expert as int, index: k as int };
        let ghost place = cluster.arrived(t, visit@) + cluster.index_in_group(t, a);
        proof {
            lemma_token_in_range(*input, visit@, local_expert as int, k as int);
            assert(place == placement.last);
        }
        let last: usize = placement.last;
        if peer_rank == input.rank {
            let local_offset: u32 = placement.source_expert_offset[expert];
            placement.source_expert_offset.set(expert, local_offset + 1);
            placement.source_dispatch_offset.set(last, local_offset);
            placement.combine_send_offset.set(last, local_offset);
        } else {
            let index_on_rank: u32 = placement.src_dispatch_count[peer_group];
            placement.src_dispatch_count.set(peer_group, index_on_rank + 1);
            if (index_on_rank as usize) < max_private_tokens {
                placement.source_dispatch_offset.set(last, private_offset + index_on_rank);
            } else if peer_rank / cluster.node_size == input.rank_node {
                placement.source_dispatch_offset.set(
                    last,
                    (dst_offset + index_on_rank) | PEER_SEND_BUFFER,
                );
            } else {
                placement.source_dispatch_offset.set(
                    last,
                    src_offset + index_on_rank + (input.base_offset as u32
                        - max_private_tokens as u32),
                );
            }
        }
        if peer_rank != input.rank || cluster.dp_size > 1 {
            let combine_index: u32 = placement.src_combine_count[peer_group];
            placement.src_combine_count.set(peer_group, combine_index + 1);
            if peer_rank / cluster.node_size == input.rank_node {
                placement.combine_send_offset.set(last, dst_offset + combine_index);
            } else {
                placement.combine_send_offset.set(last, src_offset + combine_index);
            }
        }
        placement.source_rank.set(last, peer_rank as u32);
        let placed: usize = placement.expert_count[local_expert];
        placement.padded_index.set(last, input.padded_offset[local_expert] + placed as u32);
        placement.expert_count.set(local_expert, placed + 1);
        placement.last = last + 1;
        k = k + 1;
    }
}

/// Places the tokens of one visit, and gives their number.
fn route_group(
    input: &PlacementInput,
    placement: &mut Placement,
    visit: Ghost<int>,
    peer_group: usize,
) -> (num_routed: usize)
    requires
        input.wf(),
        0 <= visit@ < input.cluster.source_order().len(),
        peer_group == input.cluster.source_order()[visit@],
        old(placement).between(*input, visit@),
    ensures
        final(placement).between(*input, visit@ + 1),
        num_routed == input.cluster.from_group(table(input.num_routed), peer_group as int),
{
    let cluster = input.cluster;
    let ghost t = table(input.num_routed);
    let ghost order = cluster.source_order();
    let ghost first = cluster.first_local();
    let ghost groups = cluster.groups();
    let ghost locals = cluster.local_experts();
    proof {
        lemma_valid_sizes(cluster);
        assert(!visited(order, visit@, peer_group as int));
        assert(t[peer_group as int] == input.num_routed@[peer_group as int]@);
        assert(cluster.from_group(t, peer_group as int) <= u32::MAX);
    }
    let num_local_experts: usize = input.last_local - input.first_local;
    let mut num_routed: usize = 0;
    let mut local_expert: usize = 0;
    while local_expert < num_local_experts
        invariant
            local_expert <= num_local_experts,
            num_local_experts == locals,
            input.wf(),
            cluster == input.cluster,
            t == table(input.num_routed),
            order == cluster.source_order(),
            first == cluster.first_local(),
            groups == cluster.groups(),
            locals == cluster.local_experts(),
            first + locals <= cluster.num_experts,
            covers(t, cluster),
            0 <= visit@ < order.len(),
            peer_group == order[visit@],
            0 <= peer_group < groups,
            cluster.from_group(t, peer_group as int) <= u32::MAX,
            t[peer_group as int] == input.num_routed@[peer_group as int]@,
            peer_group < input.num_routed@.len(),
            num_routed == row_sum(t, peer_group as int, first, first + local_expert),
            placement.at(*input, visit@, local_expert as int, 0),
            placement.runs_at(*input, visit@, local_expert as int),
        decreases num_local_experts - local_expert,
    {
        let expert: usize = input.first_local + local_expert;
        proof {
            lemma_row_sum_within(
                t,
                peer_group as int,
                first,
                first + locals,
                first,
                first + local_expert + 1,
            );
            lemma_row_sum_cell(t, peer_group as int, expert as int);
            lemma_visited_at_most_all(
                t,
                order,
                expert as int,
                expert + 1,
                visit@ + 1,
                groups,
            );
            lemma_visited_sum_nonneg(t, order, expert as int, expert + 1, visit@);
            assert(cluster.for_expert(t, local_expert as int) <= u32::MAX);
            lemma_run_index(
                groups,
                locals,
                local_expert as int,
                peer_group as int,
                local_expert as int,
                peer_group as int,
            );
            assert(0 <= local_expert * groups) by (nonlinear_arith)
                requires
                    0 <= groups,
            ;
        }
        let routed: u32 = input.num_routed[peer_group][expert];
        num_routed = num_routed + routed as usize;
        let run: usize = local_expert * input.num_dp_groups + peer_group;
        let ghost runs_before = placement.layout_range@;
        let placed: usize = placement.expert_count[local_expert];
        placement.layout_range.set(run, pack_layout_range(routed, placed as u32));
        proof {
            assert forall|j: int, l: int|
                #![trigger run_index(groups, l, order[j])]
                0 <= j < visit@ && 0 <= l < locals implies placement.layout_range@[run_index(
                groups,
                l,
                order[j],
            )] == cluster.packed_run(t, l, j) by {
                assert(order[j] != order[visit@]);
                lemma_run_index(
                    groups,
                    locals,
                    local_expert as int,
                    peer_group as int,
                    l,
                    order[j],
                );
                assert(runs_before[run_index(groups, l, order[j])] == cluster.packed_run(t, l, j));
            }
            assert forall|l: int|
                #![trigger run_index(groups, l, order[visit@])]
                0 <= l < local_expert + 1 implies placement.layout_range@[run_index(
                groups,
                l,
                order[visit@],
            )] == cluster.packed_run(t, l, visit@) by {
                lemma_run_index(
                    groups,
                    locals,
                    local_expert as int,
                    peer_group as int,
                    l,
                    peer_group as int,
                );
            }
            assert forall|g: int, l: int|
                #![trigger run_index(groups, l, g)]
                0 <= g < groups && 0 <= l < locals && !visited(order, visit@, g) && g
                    != order[visit@] implies placement.layout_range@[run_index(groups, l, g)]
                == 0 by {
                lemma_run_index(groups, locals, local_expert as int, peer_group as int, l, g);
            }
            assert(placement.runs_at(*input, visit@, local_expert + 1));
        }
        place_expert(input, placement, visit, peer_group, local_expert, routed);
        local_expert = local_expert + 1;
    }
    proof {
        assert(first + locals == cluster.last_local());
        assert forall|l: int| 0 <= l < locals implies #[trigger] placement.expert_count@[l]
            == cluster.arrived_for_expert(t, l, visit@ + 1) by {
            lemma_row_sum_cell(t, peer_group as int, first + l);
        }
        assert forall|g: int| !visited(order, visit@ + 1, g) implies !visited(order, visit@, g) && g
            != order[visit@] by {
            if visited(order, visit@, g) {
                let j = choose|j: int| 0 <= j < visit@ && order[j] == g;
                assert(order[j] == g);
            }
        }
        assert(visit@ + 1 < order.len() ==> peer_group != cluster.dp_group);
        assert(runs_match(cluster, t, placement.layout_range@, visit@ + 1));
    }
    num_routed
}

/// In a regular cluster the visits to other nodes are among all visits.
pub proof fn lemma_remote_visits_in_range(c: Cluster)
    requires
        c.regular(),
    ensures
        0 <= c.remote_visits() <= c.source_order().len(),
{
    crate::cluster::lemma_regular(c);
    assert(0 <= (c.nodes() - 1) * c.groups_per_node()) by (nonlinear_arith)
        requires
            0 <= c.nodes() - 1,
            0 <= c.groups_per_node(),
    ;
}

/// The source order of a valid cluster can be listed.
pub proof fn lemma_order_is_listable(c: Cluster)
    requires
        c.valid(),
    ensures
        c.groups_per_node() <= c.groups(),
        c.source_order().len() <= c.groups(),
        c.rank_node() + c.nodes() <= usize::MAX,
        0 <= c.nodes() * c.groups_per_node() <= c.world_size,
        c.dp_group + c.groups_per_node() <= usize::MAX,
        0 <= c.rank_node() * c.groups_per_node(),
        c.rank_node() * c.groups_per_node() + c.groups_per_node() <= usize::MAX,
        0 <= c.remote_visits() <= c.source_order().len(),
        c.remote_visits() <= c.world_size,
{
    let order = c.source_order();
    let gpn = c.groups_per_node();
    let node = c.node_size as int;
    lemma_valid_sizes(c);
    vstd::arithmetic::div_mod::lemma_fundamental_div_mod(c.rank(), node);
    vstd::arithmetic::div_mod::lemma_fundamental_div_mod(c.world_size as int, node);
    assert(0 <= c.rank_node() * gpn <= c.rank() && c.rank_node() <= c.rank()) by (nonlinear_arith)
        requires
            c.rank() == node * c.rank_node() + c.rank() % node,
            0 <= c.rank() % node,
            1 <= gpn <= node,
            0 <= c.rank_node(),
    ;
    assert(0 <= c.nodes()) by (nonlinear_arith)
        requires
            c.nodes() == c.world_size as int / node,
            0 < node,
    ;
    assert(0 <= c.nodes() * gpn <= c.world_size && c.nodes() <= c.world_size) by (nonlinear_arith)
        requires
            c.world_size == node * c.nodes() + c.world_size as int % node,
            0 <= c.world_size as int % node,
            1 <= gpn <= node,
            0 <= c.nodes(),
    ;
    assert((c.nodes() - 1) * gpn == c.nodes() * gpn - gpn) by (nonlinear_arith);
    if c.nodes() >= 1 {
        assert(0 <= (c.nodes() - 1) * gpn) by (nonlinear_arith)
            requires
                0 <= c.nodes() - 1,
                0 <= gpn,
        ;
    }
    order.unique_seq_to_set();
    vstd::set_lib::lemma_int_range(0, c.groups());
    assert(order.to_set().subset_of(vstd::set_lib::set_int_range(0, c.groups()))) by {
        assert forall|g: int| order.to_set().contains(g) implies 0 <= g < c.groups() by {
            let j = choose|j: int| 0 <= j < order.len() && order[j] == g;
            assert(order[j] == g);
        }
    }
    vstd::set_lib::lemma_len_subset(
        order.to_set(),
        vstd::set_lib::set_int_range(0, c.groups()),
    );
}

/// Computes the receive plan of one rank from the routing table, whose cell `[group][expert]`
/// holds the number of tokens that the group sends to the expert.
pub fn compute_receive_route_plan(
    dp_group: usize,
    dp_rank: usize,
    dp_size: usize,
    node_size: usize,
    world_size: usize,
    num_experts: usize,
    expert_padding: usize,
    max_tokens_per_expert: usize,
    max_private_tokens: usize,
    nets_per_gpu: u32,
    num_routed: &Vec<Vec<u32>>,
) -> (plan: ReceiveRoutePlan)
    requires
        (Cluster { dp_group, dp_rank, dp_size, node_size, world_size, num_experts }).plannable(
            table(num_routed),
            expert_padding as int,
            max_tokens_per_expert as int,
            max_private_tokens as int,
            nets_per_gpu as int,
        ),
    ensures
        plan.matches(
            (Cluster { dp_group, dp_rank, dp_size, node_size, world_size, num_experts }),
            table(num_routed),
            expert_padding as int,
            max_tokens_per_expert as int,
            max_private_tokens as int,
            nets_per_gpu as int,
        ),
{
    let cluster = Cluster { dp_group, dp_rank, dp_size, node_size, world_size, num_experts };
    let ghost t = table(num_routed);
    let ghost order = cluster.source_order();
    proof {
        lemma_valid_sizes(cluster);
        lemma_block(cluster, dp_group as int);
        lemma_order_is_listable(cluster);
        assert(0 <= dp_group * dp_size) by (nonlinear_arith);
        assert(0 <= max_private_tokens * cluster.groups()) by (nonlinear_arith)
            requires
                0 <= cluster.groups(),
        ;
        assert(0 <= cluster.local_experts() * cluster.groups()) by (nonlinear_arith)
            requires
                0 <= cluster.groups(),
                0 <= cluster.local_experts(),
        ;
    }
    let num_dp_groups: usize = world_size / dp_size;
    let experts_per_rank: usize = ceil_div(num_experts, num_dp_groups);
    let first_local: usize = dp_group * experts_per_rank;
    let last_local: usize = min_usize(first_local + experts_per_rank, num_experts);
    let num_local_experts: usize = last_local - first_local;
    let rank: usize = dp_group * dp_size + dp_rank;
    let rank_node: usize = rank / node_size;
    let groups_per_node: usize = node_size / dp_size;
    let num_nodes: usize = world_size / node_size;

    let traffic = count_group_traffic(cluster, num_routed, max_private_tokens, nets_per_gpu);
    proof {
        assert(traffic.tokens_per_expert@ =~= cluster.expert_totals(t));
    }
    let padded_offset = compute_padded_offsets(
        traffic.tokens_per_expert.as_slice(),
        expert_padding,
        max_tokens_per_expert,
    );
    let base_offset: u64 = (max_private_tokens * num_dp_groups) as u64;
    let num_recv_tokens: usize = traffic.num_recv_tokens;
    let input = PlacementInput {
        cluster,
        num_routed,
        src_group_offset: &traffic.src_group_offset,
        dst_group_offset: &traffic.dst_group_offset,
        padded_offset: &padded_offset,
        expert_padding,
        max_tokens_per_expert,
        max_private_tokens,
        nets_per_gpu,
        num_dp_groups,
        first_local,
        last_local,
        rank,
        rank_node,
        base_offset,
    };
    let mut placement = Placement {
        source_dispatch_offset: vec![0u32; num_recv_tokens],
        combine_send_offset: vec![0u32; num_recv_tokens],
        source_rank: vec![0u32; num_recv_tokens],
        padded_index: vec![0u32; num_recv_tokens],
        layout_range: vec![0u64; num_local_experts * num_dp_groups],
        last: 0,
        src_dispatch_count: vec![0u32; num_dp_groups],
        src_combine_count: vec![0u32; num_dp_groups],
        expert_count: vec![0usize; num_local_experts],
        source_expert_offset: traffic.source_expert_offset,
    };
    proof {
        assert forall|g: int, l: int|
            #![trigger run_index(cluster.groups(), l, g)]
            0 <= g < cluster.groups() && 0 <= l
                < cluster.local_experts() implies placement.layout_range@[run_index(
            cluster.groups(),
            l,
            g,
        )] == 0 by {
            lemma_run_index(cluster.groups(), cluster.local_experts(), l, g, l, g);
        }
        assert(placement.between(input, 0));
    }
    let source_groups = ordered_source_groups(dp_group, rank_node, groups_per_node, num_nodes);
    let ghost listed = source_groups@.map_values(|g: usize| g as int);
    let remote_visits: usize = if num_nodes >= 1 { (num_nodes - 1) * groups_per_node } else { 0 };
    let mut num_recv_efa_tokens: usize = 0;
    let mut visit: usize = 0;
    while visit < source_groups.len()
        invariant
            visit <= source_groups@.len(),
            cluster == (Cluster {
                dp_group,
                dp_rank,
                dp_size,
                node_size,
                world_size,
                num_experts,
            }),
            t == table(num_routed),
            order == cluster.source_order(),
            cluster.valid(),
            cluster.received(t) <= usize::MAX,
            listed == source_groups@.map_values(|g: usize| g as int),
            listed == order,
            remote_visits == cluster.remote_visits(),
            remote_visits <= order.len(),
            input.wf(),
            input.cluster == cluster,
            input.num_routed == num_routed,
            placement.between(input, visit as int),
            num_recv_efa_tokens == cluster.arrived(
                t,
                if visit <= remote_visits { visit as int } else { remote_visits as int },
            ),
        decreases source_groups@.len() - visit,
    {
        proof {
            assert(listed[visit as int] == source_groups@[visit as int]);
            lemma_visited_at_most_all(
                t,
                order,
                cluster.first_local(),
                cluster.last_local(),
                visit + 1,
                cluster.groups(),
            );
        }
        let routed: usize = route_group(
            &input,
            &mut placement,
            Ghost(visit as int),
            source_groups[visit],
        );
        if visit < remote_visits {
            num_recv_efa_tokens = num_recv_efa_tokens + routed;
        }
        visit = visit + 1;
    }
    proof {
        lemma_arrivals_len(cluster, t, order.len() as int);
    }
    ReceiveRoutePlan {
        tokens_from_group: traffic.tokens_from_group,
        src_group_offset: traffic.src_group_offset,
        dst_group_offset: traffic.dst_group_offset,
        tokens_per_expert: traffic.tokens_per_expert,
        num_recv_tokens,
        num_recv_efa_tokens,
        num_recv_tx: traffic.num_recv_tx,
        source_dispatch_offset: placement.source_dispatch_offset,
        combine_send_offset: placement.combine_send_offset,
        source_rank: placement.source_rank,
        padded_index: placement.padded_index,
        tokens_to_rank: traffic.tokens_to_rank,
        dispatch_src_offset: traffic.dispatch_src_offset,
        layout_range: placement.layout_range,
    }
}

} // verus!
