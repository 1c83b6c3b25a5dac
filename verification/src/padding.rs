//! Where the tokens of each local expert start in the output, and how a run of tokens is
//! packed into one word.

use vstd::prelude::*;
use crate::arith::{align_up_spec, ceil_div, lemma_ceil_div};

verus! {

/// The low 32 bits of an integer.
pub open spec fn low32(value: int) -> int {
    (value as u32) as int
}

/// A token count rounded up to the expert padding, as a 32-bit word.
pub open spec fn padded_count(count: int, expert_padding: int) -> int {
    low32(align_up_spec(count, expert_padding))
}

/// The sum of the padded counts of the first `n` experts.
pub open spec fn padded_before(tokens_per_expert: Seq<u32>, expert_padding: int, n: int) -> int
    decreases n,
{
    if n <= 0 {
        0
    } else {
        padded_before(tokens_per_expert, expert_padding, n - 1) + padded_count(
            tokens_per_expert[n - 1] as int,
            expert_padding,
        )
    }
}

/// Where the tokens of an expert start, a fixed stride apart.
pub open spec fn stride_start(local_expert: int, max_tokens_per_expert: int) -> int {
    local_expert * max_tokens_per_expert
}

/// Where the tokens of an expert start: a fixed stride apart where a stride is given, else one
/// after another with each run padded.
pub open spec fn padded_offset(
    tokens_per_expert: Seq<u32>,
    expert_padding: int,
    max_tokens_per_expert: int,
    local_expert: int,
) -> int {
    if max_tokens_per_expert > 0 {
        low32(stride_start(local_expert, max_tokens_per_expert))
    } else {
        padded_before(tokens_per_expert, expert_padding, local_expert)
    }
}

/// Whether the offsets can be computed: strides and padded counts fit their integer types, and
/// a padding is given where it is needed.
pub open spec fn offsets_fit(
    tokens_per_expert: Seq<u32>,
    expert_padding: int,
    max_tokens_per_expert: int,
) -> bool {
    if max_tokens_per_expert > 0 {
        forall|l: int|
            0 <= l < tokens_per_expert.len() ==> #[trigger] stride_start(l, max_tokens_per_expert)
                <= usize::MAX
    } else {
        &&& tokens_per_expert.len() > 0 ==> expert_padding > 0
        &&& forall|l: int|
            #![trigger tokens_per_expert[l]]
            0 <= l < tokens_per_expert.len() ==> align_up_spec(
                tokens_per_expert[l] as int,
                expert_padding,
            ) <= usize::MAX
        &&& padded_before(tokens_per_expert, expert_padding, tokens_per_expert.len() as int)
            <= u32::MAX
    }
}

pub proof fn lemma_padded_before_monotone(
    tokens_per_expert: Seq<u32>,
    expert_padding: int,
    m: int,
    n: int,
)
    requires
        m <= n,
    ensures
        0 <= padded_before(tokens_per_expert, expert_padding, m) <= padded_before(
            tokens_per_expert,
            expert_padding,
            n,
        ),
    decreases n,
{
    if n > 0 {
        if m < n {
            lemma_padded_before_monotone(tokens_per_expert, expert_padding, m, n - 1);
        } else {
            lemma_padded_before_monotone(tokens_per_expert, expert_padding, n - 1, n - 1);
        }
    }
}

/// The offset at which the tokens of each expert start.
pub fn compute_padded_offsets(
    tokens_per_expert: &[u32],
    expert_padding: usize,
    max_tokens_per_expert: usize,
) -> (padded_offset: Vec<u32>)
    requires
        offsets_fit(
            tokens_per_expert@,
            expert_padding as int,
            max_tokens_per_expert as int,
        ),
    ensures
        padded_offset@.len() == tokens_per_expert@.len(),
        forall|l: int|
            0 <= l < tokens_per_expert@.len() ==> #[trigger] padded_offset@[l]
                == crate::padding::padded_offset(
                tokens_per_expert@,
                expert_padding as int,
                max_tokens_per_expert as int,
                l,
            ),
{
    let mut padded_offset: Vec<u32> = Vec::with_capacity(tokens_per_expert.len());
    let mut base_expert_offset: u32 = 0;
    let mut local_expert: usize = 0;
    while local_expert < tokens_per_expert.len()
        invariant
            local_expert <= tokens_per_expert@.len(),
            offsets_fit(
                tokens_per_expert@,
                expert_padding as int,
                max_tokens_per_expert as int,
            ),
            padded_offset@.len() == local_expert,
            forall|l: int|
                0 <= l < local_expert ==> #[trigger] padded_offset@[l]
                    == crate::padding::padded_offset(
                    tokens_per_expert@,
                    expert_padding as int,
                    max_tokens_per_expert as int,
                    l,
                ),
            max_tokens_per_expert == 0 ==> base_expert_offset == padded_before(
                tokens_per_expert@,
                expert_padding as int,
                local_expert as int,
            ),
        decreases tokens_per_expert@.len() - local_expert,
    {
        let ghost count = tokens_per_expert@[local_expert as int];
        if max_tokens_per_expert > 0 {
            proof {
                assert(0 <= local_expert * max_tokens_per_expert) by (nonlinear_arith);
                assert(stride_start(local_expert as int, max_tokens_per_expert as int)
                    <= usize::MAX);
            }
            let stride_offset: usize = local_expert * max_tokens_per_expert;
            padded_offset.push(stride_offset as u32);
        } else {
            proof {
                lemma_ceil_div(count as int, expert_padding as int);
                lemma_padded_before_monotone(
                    tokens_per_expert@,
                    expert_padding as int,
                    local_expert + 1,
                    tokens_per_expert@.len() as int,
                );
            }
            let padded: usize = ceil_div(tokens_per_expert[local_expert] as usize, expert_padding)
                * expert_padding;
            padded_offset.push(base_expert_offset);
            base_expert_offset = base_expert_offset + padded as u32;
        }
        local_expert = local_expert + 1;
    }
    padded_offset
}

/// Packs a run of tokens into one word: the count in the low half, the offset in the high half.
pub fn pack_layout_range(count: u32, offset: u32) -> (packed: u64)
    ensures
        packed == offset * 0x1_0000_0000 + count,
{
    proof {
        assert((count as u64) | ((offset as u64) << 32u64) == (offset as u64) * 0x1_0000_0000u64
            + (count as u64)) by (bit_vector);
    }
    (count as u64) | ((offset as u64) << 32u64)
}

/// A packed run gives its count and its offset back.
pub proof fn law_packed_range_unpacks(count: u32, offset: u32, packed: u64)
    requires
        packed == offset * 0x1_0000_0000 + count,
    ensures
        packed % 0x1_0000_0000 == count,
        packed / 0x1_0000_0000 == offset,
        packed as u32 == count,
        (packed >> 32u64) as u32 == offset,
{
    assert(packed as u32 == packed % 0x1_0000_0000u64) by (bit_vector);
    assert(packed >> 32u64 == packed / 0x1_0000_0000u64) by (bit_vector);
}

} // verus!
