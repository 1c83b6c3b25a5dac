//! The layout of the low-latency workspace and the sizes of the device workspace.

use vstd::prelude::*;
use crate::arith::{
    align_up, align_up_spec, ceil_div, law_align_up_is_least_multiple, lemma_ceil_div,
};

verus! {

/// The alignment of the tensors in the workspace, in bytes.
pub const LOW_LATENCY_WORKSPACE_ALIGNMENT: usize = 256;

/// The size of a 32-bit element, in bytes.
pub const WORD_BYTES: usize = 4;

/// A tensor in the workspace.
#[derive(Debug, Clone)]
pub struct LowLatencyWorkspaceTensorSpec {
    pub name: &'static str,
    pub offset_bytes: usize,
    pub nbytes: usize,
    pub shape: Vec<usize>,
    pub dtype: &'static str,
}

/// The workspace as a whole.
#[derive(Debug, Clone)]
pub struct LowLatencyWorkspaceLayout {
    pub alignment: usize,
    pub total_bytes: usize,
    pub tensors: Vec<LowLatencyWorkspaceTensorSpec>,
}

/// A tensor that the workspace has to hold.
pub ghost struct TensorRequest {
    pub name: Seq<char>,
    pub shape: Seq<usize>,
    pub dtype: Seq<char>,
    pub element_size: int,
}

/// The product of the first `n` extents of a shape.
pub open spec fn extent_product(shape: Seq<usize>, n: int) -> int
    decreases n,
{
    if n <= 0 {
        1
    } else {
        extent_product(shape, n - 1) * shape[n - 1]
    }
}

/// The size of a tensor in bytes.
pub open spec fn tensor_bytes(shape: Seq<usize>, element_size: int) -> int {
    extent_product(shape, shape.len() as int) * element_size
}

/// Whether the size of a tensor can be computed.
pub open spec fn tensor_fits(shape: Seq<usize>, element_size: int) -> bool {
    &&& forall|n: int|
        0 <= n <= shape.len() ==> #[trigger] extent_product(shape, n) <= usize::MAX
    &&& tensor_bytes(shape, element_size) <= usize::MAX
}

/// Where the first tensor at or after `end` starts.
pub open spec fn aligned(end: int) -> int {
    align_up_spec(end, LOW_LATENCY_WORKSPACE_ALIGNMENT as int)
}

/// Where the first `n` tensors end.
pub open spec fn workspace_end(requests: Seq<TensorRequest>, n: int) -> int
    decreases n,
{
    if n <= 0 {
        0
    } else {
        aligned(workspace_end(requests, n - 1)) + tensor_bytes(
            requests[n - 1].shape,
            requests[n - 1].element_size,
        )
    }
}

/// Whether the offsets and sizes of all tensors can be computed.
pub open spec fn workspace_fits(requests: Seq<TensorRequest>) -> bool {
    &&& forall|i: int|
        #![trigger requests[i]]
        0 <= i < requests.len() ==> {
            &&& 0 <= requests[i].element_size
            &&& tensor_fits(requests[i].shape, requests[i].element_size)
            &&& aligned(workspace_end(requests, i)) <= usize::MAX
            &&& workspace_end(requests, i + 1) <= usize::MAX
        }
    &&& aligned(workspace_end(requests, requests.len() as int)) <= usize::MAX
}

/// Whether the tensors are those that are asked for, one after another, each aligned.
pub open spec fn tensors_match(
    tensors: Seq<LowLatencyWorkspaceTensorSpec>,
    requests: Seq<TensorRequest>,
) -> bool {
    &&& tensors.len() == requests.len()
    &&& forall|i: int|
        0 <= i < tensors.len() ==> {
            let tensor = #[trigger] tensors[i];
            &&& tensor.name@ == requests[i].name
            &&& tensor.shape@ == requests[i].shape
            &&& tensor.dtype@ == requests[i].dtype
            &&& tensor.nbytes == tensor_bytes(requests[i].shape, requests[i].element_size)
            &&& tensor.offset_bytes == aligned(workspace_end(requests, i))
        }
}

pub proof fn lemma_extent_product_nonneg(shape: Seq<usize>, n: int)
    ensures
        0 <= extent_product(shape, n),
    decreases n,
{
    if n > 0 {
        lemma_extent_product_nonneg(shape, n - 1);
        assert(0 <= extent_product(shape, n - 1) * shape[n - 1]) by (nonlinear_arith)
            requires
                0 <= extent_product(shape, n - 1),
                0 <= shape[n - 1],
        ;
    }
}

/// The product of the extents of a shape.
fn product(shape: &Vec<usize>) -> (elements: usize)
    requires
        forall|n: int|
            0 <= n <= shape@.len() ==> #[trigger] extent_product(shape@, n) <= usize::MAX,
    ensures
        elements == extent_product(shape@, shape@.len() as int),
{
    let mut elements: usize = 1;
    let mut i: usize = 0;
    while i < shape.len()
        invariant
            i <= shape@.len(),
            forall|n: int|
                0 <= n <= shape@.len() ==> #[trigger] extent_product(shape@, n) <= usize::MAX,
            elements == extent_product(shape@, i as int),
        decreases shape@.len() - i,
    {
        proof {
            lemma_extent_product_nonneg(shape@, i + 1);
            assert(extent_product(shape@, i + 1) <= usize::MAX);
        }
        elements = elements * shape[i];
        i = i + 1;
    }
    elements
}

/// Appends a tensor at the next aligned offset.
pub fn add_workspace_tensor(
    tensors: &mut Vec<LowLatencyWorkspaceTensorSpec>,
    total_bytes: &mut usize,
    name: &'static str,
    shape: Vec<usize>,
    dtype: &'static str,
    element_size: usize,
)
    requires
        tensor_fits(shape@, element_size as int),
        aligned(*old(total_bytes) as int) + tensor_bytes(shape@, element_size as int)
            <= usize::MAX,
    ensures
        *final(total_bytes) == aligned(*old(total_bytes) as int) + tensor_bytes(
            shape@,
            element_size as int,
        ),
        final(tensors)@ == old(tensors)@.push(
            (LowLatencyWorkspaceTensorSpec {
                name,
                offset_bytes: aligned(*old(total_bytes) as int) as usize,
                nbytes: tensor_bytes(shape@, element_size as int) as usize,
                shape,
                dtype,
            }),
        ),
{
    proof {
        lemma_ceil_div(*total_bytes as int, LOW_LATENCY_WORKSPACE_ALIGNMENT as int);
        lemma_extent_product_nonneg(shape@, shape@.len() as int);
        assert(0 <= tensor_bytes(shape@, element_size as int)) by (nonlinear_arith)
            requires
                tensor_bytes(shape@, element_size as int) == extent_product(
                    shape@,
                    shape@.len() as int,
                ) * element_size,
                0 <= extent_product(shape@, shape@.len() as int),
                0 <= element_size,
        ;
    }
    *total_bytes = align_up(*total_bytes, LOW_LATENCY_WORKSPACE_ALIGNMENT);
    let nbytes: usize = product(&shape) * element_size;
    tensors.push(
        LowLatencyWorkspaceTensorSpec { name, offset_bytes: *total_bytes, nbytes, shape, dtype },
    );
    *total_bytes = *total_bytes + nbytes;
}

pub proof fn lemma_workspace_end_nonneg(requests: Seq<TensorRequest>, n: int)
    requires
        forall|i: int| 0 <= i < n ==> 0 <= (#[trigger] requests[i]).element_size,
    ensures
        0 <= workspace_end(requests, n),
        0 < n ==> aligned(workspace_end(requests, n - 1)) <= workspace_end(requests, n),
        0 < n ==> workspace_end(requests, n - 1) <= workspace_end(requests, n),
    decreases n,
{
    if n > 0 {
        lemma_workspace_end_nonneg(requests, n - 1);
        let request = requests[n - 1];
        law_align_up_is_least_multiple(
            workspace_end(requests, n - 1),
            LOW_LATENCY_WORKSPACE_ALIGNMENT as int,
            0,
        );
        lemma_extent_product_nonneg(request.shape, request.shape.len() as int);
        assert(0 <= tensor_bytes(request.shape, request.element_size)) by (nonlinear_arith)
            requires
                tensor_bytes(request.shape, request.element_size) == extent_product(
                    request.shape,
                    request.shape.len() as int,
                ) * request.element_size,
                0 <= extent_product(request.shape, request.shape.len() as int),
                0 <= request.element_size,
        ;
    }
}

/// Where tensors end grows with their number.
proof fn lemma_workspace_end_monotone(requests: Seq<TensorRequest>, m: int, n: int)
    requires
        m <= n,
        forall|i: int| 0 <= i < n ==> 0 <= (#[trigger] requests[i]).element_size,
    ensures
        workspace_end(requests, m) <= workspace_end(requests, n),
    decreases n - m,
{
    if m < n {
        lemma_workspace_end_monotone(requests, m, n - 1);
        lemma_workspace_end_nonneg(requests, n);
    }
}

/// Every tensor is aligned, tensors do not overlap, and all lie within the workspace.
pub proof fn law_workspace_tensors_are_aligned_and_disjoint(
    tensors: Seq<LowLatencyWorkspaceTensorSpec>,
    requests: Seq<TensorRequest>,
    i: int,
    j: int,
)
    requires
        tensors_match(tensors, requests),
        forall|k: int|
            0 <= k < requests.len() ==> 0 <= (#[trigger] requests[k]).element_size,
        0 <= i <= j < tensors.len(),
    ensures
        tensors[i].offset_bytes as int % LOW_LATENCY_WORKSPACE_ALIGNMENT as int == 0,
        tensors[j].offset_bytes as int % LOW_LATENCY_WORKSPACE_ALIGNMENT as int == 0,
        i < j ==> tensors[i].offset_bytes + tensors[i].nbytes <= tensors[j].offset_bytes,
        tensors[j].offset_bytes + tensors[j].nbytes <= aligned(
            workspace_end(requests, requests.len() as int),
        ),
        aligned(workspace_end(requests, requests.len() as int))
            % LOW_LATENCY_WORKSPACE_ALIGNMENT as int == 0,
{
    let n = requests.len() as int;
    let alignment = LOW_LATENCY_WORKSPACE_ALIGNMENT as int;
    assert(tensors[i].offset_bytes == aligned(workspace_end(requests, i)));
    assert(tensors[j].offset_bytes == aligned(workspace_end(requests, j)));
    lemma_workspace_end_nonneg(requests, i);
    lemma_workspace_end_nonneg(requests, j);
    lemma_workspace_end_nonneg(requests, n);
    if i < j {
        lemma_workspace_end_monotone(requests, i + 1, j);
    }
    lemma_workspace_end_monotone(requests, j + 1, n);
    law_align_up_is_least_multiple(workspace_end(requests, i), alignment, 0);
    law_align_up_is_least_multiple(workspace_end(requests, j), alignment, 0);
    law_align_up_is_least_multiple(workspace_end(requests, n), alignment, 0);
}

/// Where the next tensor ends, if its size and place fit.
pub fn checked_tensor_end(end: usize, shape: &Vec<usize>, element_size: usize) -> (after: Option<
    usize,
>)
    ensures
        match after {
            Some(after) => {
                &&& tensor_fits(shape@, element_size as int)
                &&& after == aligned(end as int) + tensor_bytes(shape@, element_size as int)
                &&& aligned(end as int) <= usize::MAX
            },
            None => {
                ||| !tensor_fits(shape@, element_size as int)
                ||| aligned(end as int) + tensor_bytes(shape@, element_size as int) > usize::MAX
            },
        },
{
    let mut elements: usize = 1;
    let mut i: usize = 0;
    while i < shape.len()
        invariant
            i <= shape@.len(),
            elements == extent_product(shape@, i as int),
            forall|n: int|
                0 <= n <= i ==> #[trigger] extent_product(shape@, n) <= usize::MAX,
        decreases shape@.len() - i,
    {
        match elements.checked_mul(shape[i]) {
            Some(product) => {
                elements = product;
            },
            None => {
                proof {
                    assert(extent_product(shape@, i + 1) > usize::MAX);
                }
                return None;
            },
        }
        i = i + 1;
    }
    let nbytes: usize = match elements.checked_mul(element_size) {
        Some(nbytes) => nbytes,
        None => {
            return None;
        },
    };
    let start: usize = match checked_align(end) {
        Some(start) => start,
        None => {
            return None;
        },
    };
    start.checked_add(nbytes)
}

/// Where the first tensor at or after `end` starts, if that fits.
pub fn checked_align(end: usize) -> (start: Option<usize>)
    ensures
        match start {
            Some(start) => start == aligned(end as int),
            None => aligned(end as int) > usize::MAX,
        },
{
    proof {
        lemma_ceil_div(end as int, LOW_LATENCY_WORKSPACE_ALIGNMENT as int);
    }
    ceil_div(end, LOW_LATENCY_WORKSPACE_ALIGNMENT).checked_mul(LOW_LATENCY_WORKSPACE_ALIGNMENT)
}

/// A device buffer: its size, and whether it is filled with zeros before its first use.
#[derive(Debug, Clone, Copy, PartialEq, Eq, Structural)]
pub struct DeviceBuffer {
    pub bytes: usize,
    pub zeroed: bool,
}

/// The device buffers of one slot, and the pointer tables that go to the device.
#[derive(Debug, Clone, PartialEq, Eq)]
pub struct DeviceWorkspace {
    /// The offset of each expert within the contiguous token buffer.
    pub expert_offsets: DeviceBuffer,
    /// The offset of each token within its expert group.
    pub token_offset: DeviceBuffer,
    /// The position of each routed token in the combine receive buffer.
    pub combine_recv_position: DeviceBuffer,
    /// The number of tokens sent during combine.
    pub token_counter: DeviceBuffer,
    /// The completion counter of dispatch-send.
    pub dispatch_send_counter: DeviceBuffer,
    /// The completion counter of dispatch-receive.
    pub dispatch_recv_counter: DeviceBuffer,
    /// The epoch that dispatch-send counts up.
    pub epoch_counter: DeviceBuffer,
    /// The epoch of the round under way.
    pub current_epoch: DeviceBuffer,
    /// The counter of barriers across NVLink.
    pub sync_counter: DeviceBuffer,
    pub sync_ptrs: Option<Vec<u64>>,
    pub send_ptrs: Option<Vec<u64>>,
    pub recv_ptrs: Option<Vec<u64>>,
}

/// A buffer of one word, zeroed.
pub open spec fn zeroed_word() -> DeviceBuffer {
    DeviceBuffer { bytes: WORD_BYTES, zeroed: true }
}

/// Whether a pointer table holds the host's pointers. Without pointers there is no table.
pub open spec fn holds_ptrs(on_device: Option<Vec<u64>>, host: Seq<u64>) -> bool {
    match on_device {
        Some(ptrs) => host.len() > 0 && ptrs@ == host,
        None => host.len() == 0,
    }
}

/// The pointer table for the host's pointers.
fn to_table(host: &[u64]) -> (on_device: Option<Vec<u64>>)
    ensures
        holds_ptrs(on_device, host@),
{
    if host.len() == 0 {
        return None;
    }
    let mut ptrs: Vec<u64> = Vec::new();
    let mut i: usize = 0;
    while i < host.len()
        invariant
            i <= host@.len(),
            ptrs@ == host@.take(i as int),
        decreases host@.len() - i,
    {
        ptrs.push(host[i]);
        i = i + 1;
        proof {
            assert(ptrs@ =~= host@.take(i as int));
        }
    }
    proof {
        assert(host@.take(i as int) =~= host@);
    }
    Some(ptrs)
}

impl DeviceWorkspace {
    /// Whether the buffers are those for a number of experts and routed tokens, the expert
    /// offsets, counters and epochs start at zero, and the tables hold the host's pointers.
    pub open spec fn made_for(
        self,
        num_experts: int,
        max_num_tokens: int,
        num_experts_per_token: int,
        host_sync_ptrs: Seq<u64>,
        host_send_ptrs: Seq<u64>,
        host_recv_ptrs: Seq<u64>,
    ) -> bool {
        &&& self.expert_offsets.bytes == num_experts * WORD_BYTES
        &&& self.expert_offsets.zeroed
        &&& self.token_offset.bytes == max_num_tokens * num_experts_per_token * WORD_BYTES
        &&& !self.token_offset.zeroed
        &&& self.combine_recv_position == self.token_offset
        &&& self.token_counter == zeroed_word()
        &&& self.dispatch_send_counter == zeroed_word()
        &&& self.dispatch_recv_counter == zeroed_word()
        &&& self.epoch_counter == zeroed_word()
        &&& self.current_epoch == zeroed_word()
        &&& self.sync_counter == zeroed_word()
        &&& holds_ptrs(self.sync_ptrs, host_sync_ptrs)
        &&& holds_ptrs(self.send_ptrs, host_send_ptrs)
        &&& holds_ptrs(self.recv_ptrs, host_recv_ptrs)
    }

    /// The buffers for a number of experts and routed tokens.
    pub fn new(
        num_experts: usize,
        max_num_tokens: usize,
        num_experts_per_token: usize,
        host_sync_ptrs: &[u64],
        host_send_ptrs: &[u64],
        host_recv_ptrs: &[u64],
    ) -> (workspace: Self)
        requires
            num_experts * WORD_BYTES <= usize::MAX,
            max_num_tokens * num_experts_per_token * WORD_BYTES <= usize::MAX,
        ensures
            workspace.made_for(
                num_experts as int,
                max_num_tokens as int,
                num_experts_per_token as int,
                host_sync_ptrs@,
                host_send_ptrs@,
                host_recv_ptrs@,
            ),
    {
        proof {
            assert(0 <= max_num_tokens * num_experts_per_token) by (nonlinear_arith);
        }
        let routed_bytes: usize = max_num_tokens * num_experts_per_token * WORD_BYTES;
        let routed = DeviceBuffer { bytes: routed_bytes, zeroed: false };
        let word = DeviceBuffer { bytes: WORD_BYTES, zeroed: true };
        DeviceWorkspace {
            expert_offsets: DeviceBuffer { bytes: num_experts * WORD_BYTES, zeroed: true },
            token_offset: routed,
            combine_recv_position: routed,
            token_counter: word,
            dispatch_send_counter: word,
            dispatch_recv_counter: word,
            epoch_counter: word,
            current_epoch: word,
            sync_counter: word,
            sync_ptrs: to_table(host_sync_ptrs),
            send_ptrs: to_table(host_send_ptrs),
            recv_ptrs: to_table(host_recv_ptrs),
        }
    }
}

} // verus!
