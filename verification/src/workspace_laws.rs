//! What holds of the layout of the low-latency workspace.

use vstd::prelude::*;
use crate::arith::law_align_up_is_least_multiple;
use crate::cluster_laws::{lemma_block_size, lemma_groups};
use crate::context::AllToAllContext;
use crate::workspace::{
    add_workspace_tensor, checked_tensor_end, extent_product, lemma_workspace_end_nonneg,
    tensor_bytes, workspace_end, LowLatencyWorkspaceLayout, LowLatencyWorkspaceTensorSpec,
};

verus! {

/// Whether a tensor has a name, a type of elements, a shape and a size.
pub open spec fn is_tensor(
    tensor: LowLatencyWorkspaceTensorSpec,
    name: Seq<char>,
    dtype: Seq<char>,
    shape: Seq<int>,
    nbytes: int,
) -> bool {
    &&& tensor.name@ == name
    &&& tensor.dtype@ == dtype
    &&& tensor.shape@.len() == shape.len()
    &&& forall|i: int| 0 <= i < shape.len() ==> #[trigger] tensor.shape@[i] == shape[i]
    &&& tensor.nbytes == nbytes
}

/// Whether a place is the first multiple of 256 that is not below `end`.
pub open spec fn first_aligned(place: int, end: int) -> bool {
    &&& place % 256 == 0
    &&& end <= place < end + 256
}

/// Whether `block` is the number of experts per group: the smallest that leaves no expert without
/// a group, of as many groups as the ranks fill.
pub open spec fn is_block(context: AllToAllContext, groups: int, block: int) -> bool {
    let config = context.config;
    &&& 0 < config.dp_size <= config.world_size
    &&& groups * config.dp_size <= config.world_size < (groups + 1) * config.dp_size
    &&& block * groups >= config.num_experts
    &&& (block - 1) * groups < config.num_experts
}

proof fn lemma_is_block(context: AllToAllContext, groups: int, block: int)
    requires
        is_block(context, groups, block),
    ensures
        context.config.has_groups(),
        context.config.local_experts() == block,
        0 <= block <= context.config.num_experts,
{
    let config = context.config;
    lemma_groups(config.world_size as int, config.dp_size as int, groups);
    crate::config::lemma_has_groups(config);
    lemma_block_size(config.num_experts as int, groups, block);
}

/// The workspace holds, for each expert of this rank, a count and room for its tokens; for each
/// token of this rank, the experts chosen for it with a weight each, and its activations; and,
/// where there are scales, those of both.
pub proof fn law_workspace_holds_what_kernels_need(
    context: AllToAllContext,
    groups: int,
    block: int,
    layout: LowLatencyWorkspaceLayout,
)
    requires
        call_ensures(AllToAllContext::low_latency_workspace_layout, (&context,), layout),
        is_block(context, groups, block),
    ensures
        ({
            let config = context.config;
            let tokens = config.max_num_tokens as int;
            let chosen = config.num_experts_per_token as int;
            let rows = config.max_tokens_per_expert as int;
            let hidden = config.hidden_dim as int;
            let scales = config.hidden_dim_scale as int;
            let tensors = layout.tensors@;
            &&& tensors.len() == if config.scale_elemsize == 0 {
                5int
            } else {
                7
            }
            &&& is_tensor(tensors[0], "expert_num_tokens"@, "int32"@, seq![block], block * 4)
            &&& is_tensor(
                tensors[1],
                "expert_x"@,
                "activation"@,
                seq![block, rows, hidden],
                block * rows * hidden * config.in_elemsize,
            )
            &&& is_tensor(
                tensors[2],
                "indices"@,
                "uint32"@,
                seq![tokens, chosen],
                tokens * chosen * 4,
            )
            &&& is_tensor(
                tensors[3],
                "weights"@,
                "float32"@,
                seq![tokens, chosen],
                tokens * chosen * 4,
            )
            &&& is_tensor(
                tensors[4],
                "dp_x"@,
                "activation"@,
                seq![tokens, hidden],
                tokens * hidden * config.in_elemsize,
            )
            &&& config.scale_elemsize != 0 ==> is_tensor(
                tensors[5],
                "expert_x_scale"@,
                "scale"@,
                seq![block, rows, scales],
                block * rows * scales * config.scale_elemsize,
            )
            &&& config.scale_elemsize != 0 ==> is_tensor(
                tensors[6],
                "dp_x_scale"@,
                "scale"@,
                seq![tokens, scales],
                tokens * scales * config.scale_elemsize,
            )
        }),
{
    let requests = context.config.workspace_requests();
    let tensors = layout.tensors@;
    lemma_is_block(context, groups, block);
    assert forall|i: int| 0 <= i < tensors.len() implies {
        let tensor = #[trigger] tensors[i];
        &&& tensor.shape@ == requests[i].shape
        &&& tensor.nbytes == tensor_bytes(requests[i].shape, requests[i].element_size)
    } by {}
    assert forall|i: int| 0 <= i < requests.len() implies {
        let shape = (#[trigger] requests[i]).shape;
        &&& shape.len() == 1 ==> extent_product(shape, 1) == shape[0]
        &&& shape.len() == 2 ==> extent_product(shape, 2) == shape[0] * shape[1]
        &&& shape.len() == 3 ==> extent_product(shape, 3) == shape[0] * shape[1] * shape[2]
    } by {
        reveal_with_fuel(extent_product, 4);
    }
    assert(tensors[0].shape@ == requests[0].shape);
    assert(tensors[1].shape@ == requests[1].shape);
    assert(tensors[2].shape@ == requests[2].shape);
    assert(tensors[3].shape@ == requests[3].shape);
    assert(tensors[4].shape@ == requests[4].shape);
    if context.config.scale_elemsize != 0 {
        assert(tensors[5].shape@ == requests[5].shape);
        assert(tensors[6].shape@ == requests[6].shape);
    }
}

/// The tensors of the workspace lie one after another from its start, each at the first multiple
/// of 256 bytes after the one before; the workspace ends at the first such multiple after the
/// last.
pub proof fn law_workspace_is_packed(
    context: AllToAllContext,
    groups: int,
    block: int,
    layout: LowLatencyWorkspaceLayout,
    i: int,
)
    requires
        call_ensures(AllToAllContext::low_latency_workspace_layout, (&context,), layout),
        is_block(context, groups, block),
        0 < i < layout.tensors@.len(),
    ensures
        ({
            let tensors = layout.tensors@;
            let last = tensors.last();
            &&& layout.alignment == 256
            &&& tensors[0].offset_bytes == 0
            &&& first_aligned(
                tensors[i].offset_bytes as int,
                tensors[i - 1].offset_bytes + tensors[i - 1].nbytes,
            )
            &&& first_aligned(layout.total_bytes as int, last.offset_bytes + last.nbytes)
        }),
{
    let requests = context.config.workspace_requests();
    let tensors = layout.tensors@;
    let n = requests.len() as int;
    lemma_is_block(context, groups, block);
    assert(forall|k: int| 0 <= k < n ==> 0 <= (#[trigger] requests[k]).element_size);
    lemma_workspace_end_nonneg(requests, i);
    lemma_workspace_end_nonneg(requests, n);
    assert(tensors[0].offset_bytes == crate::workspace::aligned(workspace_end(requests, 0)));
    assert(tensors[i].offset_bytes == crate::workspace::aligned(workspace_end(requests, i)));
    assert(tensors[i - 1].offset_bytes == crate::workspace::aligned(
        workspace_end(requests, i - 1),
    ));
    assert(tensors[n - 1].offset_bytes == crate::workspace::aligned(
        workspace_end(requests, n - 1),
    ));
    law_align_up_is_least_multiple(workspace_end(requests, 0), 256, 0);
    law_align_up_is_least_multiple(workspace_end(requests, i), 256, 0);
    law_align_up_is_least_multiple(workspace_end(requests, n), 256, 0);
}

/// Where the layout is found to fit, it can be asked for.
pub proof fn law_checked_workspace_can_be_laid_out(context: AllToAllContext, fits: bool)
    requires
        call_ensures(AllToAllContext::check_workspace, (&context,), fits),
        0 < context.config.dp_size <= context.config.world_size,
    ensures
        fits ==> call_requires(AllToAllContext::low_latency_workspace_layout, (&context,)),
{
}

/// A tensor that is added lies at the first multiple of 256 bytes after the others, which stay as
/// they are.
pub proof fn law_added_tensor_comes_last(
    name: &'static str,
    shape: Vec<usize>,
    dtype: &'static str,
    element_size: usize,
)
    ensures
        forall|tensors: &mut Vec<LowLatencyWorkspaceTensorSpec>, total_bytes: &mut usize|
            crate::workspace::tensor_fits(shape@, element_size as int) && crate::workspace::aligned(
                *total_bytes as int,
            ) + tensor_bytes(shape@, element_size as int) <= usize::MAX && #[trigger] call_ensures(
                add_workspace_tensor,
                (tensors, total_bytes, name, shape, dtype, element_size),
                (),
            ) ==> {
                let before = (*tensors)@;
                let after = (*final(tensors))@;
                let added = after.last();
                &&& after.drop_last() == before
                &&& added.name@ == name@
                &&& added.dtype@ == dtype@
                &&& added.shape@ == shape@
                &&& first_aligned(added.offset_bytes as int, *total_bytes as int)
                &&& *final(total_bytes) == added.offset_bytes + added.nbytes
                &&& added.nbytes == elements(shape@) * element_size
            },
{
    assert forall|tensors: &mut Vec<LowLatencyWorkspaceTensorSpec>, total_bytes: &mut usize|
        crate::workspace::tensor_fits(shape@, element_size as int) && crate::workspace::aligned(
            *total_bytes as int,
        ) + tensor_bytes(shape@, element_size as int) <= usize::MAX && #[trigger] call_ensures(
            add_workspace_tensor,
            (tensors, total_bytes, name, shape, dtype, element_size),
            (),
        ) implies {
        let before = (*tensors)@;
        let after = (*final(tensors))@;
        let added = after.last();
        &&& after.drop_last() == before
        &&& added.name@ == name@
        &&& added.dtype@ == dtype@
        &&& added.shape@ == shape@
        &&& first_aligned(added.offset_bytes as int, *total_bytes as int)
        &&& *final(total_bytes) == added.offset_bytes + added.nbytes
        &&& added.nbytes == elements(shape@) * element_size
    } by {
        assert((*final(tensors))@.drop_last() =~= (*tensors)@);
        law_align_up_is_least_multiple(*total_bytes as int, 256, 0);
        lemma_elements(shape@, shape@.len() as int);
        assert(shape@.take(shape@.len() as int) =~= shape@);
        crate::workspace::lemma_extent_product_nonneg(shape@, shape@.len() as int);
        assert(0 <= elements(shape@) * element_size) by (nonlinear_arith)
            requires
                0 <= elements(shape@),
                0 <= element_size,
        ;
    }
}

/// The number of elements of a tensor: one of shape `[]` has one, and one with a further extent
/// as many times more as that extent says.
pub open spec fn elements(shape: Seq<usize>) -> int
    decreases shape.len(),
{
    if shape.len() == 0 {
        1
    } else {
        elements(shape.drop_last()) * shape.last()
    }
}

proof fn lemma_elements(shape: Seq<usize>, n: int)
    requires
        0 <= n <= shape.len(),
    ensures
        elements(shape.take(n)) == extent_product(shape, n),
    decreases n,
{
    if n > 0 {
        lemma_elements(shape, n - 1);
        assert(shape.take(n).drop_last() =~= shape.take(n - 1));
    }
}

/// Where the next tensor ends is told just where it fits: it starts at the first multiple of 256
/// bytes, and is as long as its elements.
pub proof fn law_tensor_end_is_told_where_it_fits(
    end: usize,
    shape: Vec<usize>,
    element_size: usize,
    after: Option<usize>,
    start: int,
)
    requires
        call_ensures(checked_tensor_end, (end, &shape, element_size), after),
        first_aligned(start, end as int),
    ensures
        after matches Some(after) ==> after == start + elements(shape@) * element_size,
        after is None ==> start + elements(shape@) * element_size > usize::MAX || exists|n: int|
            0 <= n <= shape@.len() && #[trigger] elements(shape@.take(n)) > usize::MAX,
{
    law_align_up_is_least_multiple(end as int, 256, 0);
    law_align_up_is_least_multiple(end as int, 256, start);
    lemma_elements(shape@, shape@.len() as int);
    assert(shape@.take(shape@.len() as int) =~= shape@);
    let aligned = crate::workspace::aligned(end as int);
    assert(aligned == start) by {
        vstd::arithmetic::div_mod::lemma_fundamental_div_mod(aligned, 256);
        vstd::arithmetic::div_mod::lemma_fundamental_div_mod(start, 256);
    }
    if after is None && start + elements(shape@) * element_size <= usize::MAX {
        assert(exists|n: int|
            0 <= n <= shape@.len() && #[trigger] extent_product(shape@, n) > usize::MAX) by {
            lemma_product_bound(shape@, element_size as int, start);
        }
        let n = choose|n: int|
            0 <= n <= shape@.len() && #[trigger] extent_product(shape@, n) > usize::MAX;
        lemma_elements(shape@, n);
        assert(elements(shape@.take(n)) > usize::MAX);
    }
}

/// A tensor that ends within the sizes has a size.
proof fn lemma_product_bound(shape: Seq<usize>, element_size: int, start: int)
    requires
        0 <= start,
        start + elements(shape) * element_size <= usize::MAX,
        elements(shape) == extent_product(shape, shape.len() as int),
    ensures
        tensor_bytes(shape, element_size) <= usize::MAX,
{
}

} // verus!
