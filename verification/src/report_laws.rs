//! What holds of the layouts that a context reports.

use vstd::prelude::*;
use crate::cluster_laws::has_shape;
use crate::context::{row_error, AllToAllContext};
use crate::handles::{ContextError, SlotGenerationState};
use crate::plan_laws::{law_reported_layout_agrees, reports_plan};
use crate::route_layout::LowLatencyRouteLayoutPlan;
use crate::routing::{table, RouteTable};
use crate::worker::flat_table;

verus! {

/// Whether a table has a row for every group, each with a count for every expert.
pub open spec fn well_formed(t: RouteTable, groups: int, num_experts: int) -> bool {
    &&& t.len() == groups
    &&& forall|g: int| 0 <= g < groups ==> (#[trigger] t[g]).len() == num_experts
}

/// Whether an error names what is wrong with the shape of a table: the number of rows, or else
/// the first row of a wrong length.
pub open spec fn names_shape(
    t: RouteTable,
    groups: int,
    num_experts: int,
    error: ContextError,
) -> bool {
    match error {
        ContextError::RouteRows { expected, got } => {
            &&& expected == groups
            &&& got == t.len()
            &&& got != expected
        },
        ContextError::ExpertCounts { expected, source_group, got } => {
            &&& t.len() == groups
            &&& source_group < groups
            &&& expected == num_experts
            &&& got == t[source_group as int].len()
            &&& got != expected
            &&& forall|g: int| 0 <= g < source_group ==> (#[trigger] t[g]).len() == num_experts
        },
        _ => false,
    }
}

/// The first row of a wrong length.
proof fn lemma_row_error(t: RouteTable, num_experts: usize, n: int)
    requires
        0 <= n <= t.len(),
        t.len() <= usize::MAX,
        forall|g: int| 0 <= g < t.len() ==> (#[trigger] t[g]).len() <= usize::MAX,
    ensures
        match row_error(t, num_experts, n) {
            None => forall|g: int| 0 <= g < n ==> (#[trigger] t[g]).len() == num_experts,
            Some(error) => error matches ContextError::ExpertCounts { expected, source_group, got }
                && source_group < n && expected == num_experts && got
                == t[source_group as int].len() && got != expected && forall|g: int|
                0 <= g < source_group ==> (#[trigger] t[g]).len() == num_experts,
        },
    decreases n,
{
    if n > 0 {
        lemma_row_error(t, num_experts, n - 1);
        assert(t[n - 1].len() <= usize::MAX);
    }
}

/// Tables that come in vectors have lengths that are sizes.
proof fn lemma_table_sizes(num_routed: &Vec<Vec<u32>>)
    ensures
        table(num_routed).len() <= usize::MAX,
        forall|g: int|
            0 <= g < table(num_routed).len() ==> (#[trigger] table(num_routed)[g]).len()
                <= usize::MAX,
{
    assert(num_routed.len() == num_routed@.len());
    assert forall|g: int| 0 <= g < table(num_routed).len() implies (
    #[trigger] table(num_routed)[g]).len() <= usize::MAX by {
        assert(num_routed@[g].len() == num_routed@[g]@.len());
    }
}

/// A layout is reported just for a table with a row for every group and a count for every expert,
/// by the parameters of the context; a refusal names what is wrong with the table.
pub proof fn law_reports_need_a_whole_table(
    context: AllToAllContext,
    num_routed: Vec<Vec<u32>>,
    groups: int,
    block: int,
    plan: Result<LowLatencyRouteLayoutPlan, ContextError>,
    p: int,
)
    requires
        call_ensures(
            AllToAllContext::debug_low_latency_route_layout_plan,
            (&context, &num_routed),
            plan,
        ),
        has_shape(context.config.cluster(), groups, block),
        context.config.dp_size <= context.config.world_size,
    ensures
        plan is Ok <==> well_formed(table(&num_routed), groups, context.config.num_experts as int),
        plan matches Err(error) ==> names_shape(
            table(&num_routed),
            groups,
            context.config.num_experts as int,
            error,
        ),
        ({
            let config = context.config;
            let c = config.cluster();
            let t = table(&num_routed);
            plan is Ok && c.regular() && c.dp_group * block <= c.num_experts && c.world_size
                <= u32::MAX ==> {
                &&& reports_plan(plan->Ok_0, c, t, groups, block)
                &&& plan->Ok_0.source_token_index@.len() == 0
                &&& 0 <= p < plan->Ok_0.num_recv_tokens ==> plan->Ok_0.final_index@[p]
                    == c.output_row(
                    t,
                    config.expert_padding as int,
                    config.max_tokens_per_expert as int,
                    c.arrivals(t)[p],
                )
            }
        }),
{
    let config = context.config;
    let c = config.cluster();
    let t = table(&num_routed);
    crate::cluster_laws::lemma_shape(c, groups, block);
    lemma_table_sizes(&num_routed);
    lemma_row_error(t, config.num_experts, t.len() as int);
    if plan is Ok && c.regular() && c.dp_group * block <= c.num_experts && c.world_size
        <= u32::MAX {
        law_reported_layout_agrees(
            plan->Ok_0,
            c,
            t,
            groups,
            block,
            config.expert_padding as int,
            config.max_tokens_per_expert as int,
            p,
        );
    }
}

/// Whether a slot is in the middle of a generation.
pub open spec fn is_under_way(state: SlotGenerationState, generation: u64) -> bool {
    match state {
        SlotGenerationState::Idle => false,
        SlotGenerationState::DispatchSent { generation: g, num_tokens: _ } => g == generation,
        SlotGenerationState::DispatchReceived { generation: g, num_tokens: _ } => g == generation,
        SlotGenerationState::CombineSent { generation: g, num_tokens: _ } => g == generation,
    }
}

/// The layout of a dispatch is reported just while it is under way: by the counts of its slot,
/// with the runs that the device holds, and for each token the index that the device recorded for
/// its row.
pub proof fn law_reports_read_the_device(
    context: AllToAllContext,
    slot: usize,
    generation: u64,
    counts: Vec<u32>,
    runs: Vec<u64>,
    indices: Vec<u32>,
    groups: int,
    block: int,
    plan: Result<LowLatencyRouteLayoutPlan, ContextError>,
)
    requires
        call_ensures(
            AllToAllContext::debug_low_latency_route_layout_plan_for_handle,
            (&context, slot, generation, &counts, &runs, &indices),
            plan,
        ),
        has_shape(context.config.cluster(), groups, block),
    ensures
        plan is Ok <==> slot < context.handles.slot_states@.len() && is_under_way(
            context.handles.slot_states@[slot as int],
            generation,
        ),
        plan matches Err(error) ==> error == if slot >= context.handles.slot_states@.len() {
            ContextError::InvalidSlot { slot }
        } else {
            ContextError::StaleLiveHandle {
                slot,
                generation,
                found: context.handles.slot_states@[slot as int],
            }
        },
        ({
            let config = context.config;
            let c = config.cluster();
            let t = flat_table(counts@, groups, config.num_experts as int);
            plan is Ok && c.regular() && c.dp_group * block <= c.num_experts && c.world_size
                <= u32::MAX ==> {
                let plan = plan->Ok_0;
                &&& reports_plan(plan, c, t, groups, block)
                &&& plan.layout_range@ == runs@.take(
                    crate::plan_laws::block_len(c, block, c.dp_group as int) * groups,
                )
                &&& plan.source_token_index@.len() == plan.num_recv_tokens
                &&& forall|p: int|
                    0 <= p < plan.num_recv_tokens ==> #[trigger] plan.source_token_index@[p]
                        == indices@[plan.final_index@[p] as int]
            }
        }),
{
    let config = context.config;
    let c = config.cluster();
    let t = flat_table(counts@, groups, config.num_experts as int);
    crate::cluster_laws::lemma_shape(c, groups, block);
    if plan is Ok && c.regular() && c.dp_group * block <= c.num_experts && c.world_size
        <= u32::MAX {
        crate::cluster::lemma_regular(c);
        crate::plan_laws::lemma_block_len(c, groups, block, c.dp_group as int);
        law_reported_layout_agrees(
            plan->Ok_0,
            c,
            t,
            groups,
            block,
            config.expert_padding as int,
            config.max_tokens_per_expert as int,
            0,
        );
    }
}

/// Where a table is found to fit, its layout can be asked for.
pub proof fn law_checked_tables_can_be_laid_out(
    context: AllToAllContext,
    num_routed: Vec<Vec<u32>>,
    fit: bool,
)
    requires
        call_ensures(AllToAllContext::check_route_layout, (&context, &num_routed), fit),
        0 < context.config.dp_size <= context.config.world_size,
    ensures
        fit ==> call_requires(
            AllToAllContext::debug_low_latency_route_layout_plan,
            (&context, &num_routed),
        ),
        plan_fits(context, num_routed) ==> fit,
{
    if plan_fits(context, num_routed) {
        context.config.law_within_limits_is_plannable(table(&num_routed), 1);
        crate::traffic::lemma_valid_sizes(context.config.cluster());
    }
}

/// Whether a table is whole, and its plan is within the limits of 32 bits.
pub open spec fn plan_fits(context: AllToAllContext, num_routed: Vec<Vec<u32>>) -> bool {
    &&& well_formed(
        table(&num_routed),
        context.config.cluster().groups(),
        context.config.num_experts as int,
    )
    &&& context.config.plan_within_limits(table(&num_routed), 1)
}

} // verus!
