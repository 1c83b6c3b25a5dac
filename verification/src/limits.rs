//! Tests of what an exchange needs: whether every count and offset of a plan fits its integer
//! type.

use vstd::prelude::*;
use crate::arith::{align_up_spec, ceil_div, lemma_ceil_div, min_usize};
use crate::cluster::{ordered_source_groups, Cluster};
use crate::config::{lemma_has_groups, ContextConfig};
use crate::padding::{
    compute_padded_offsets, lemma_padded_before_monotone, low32, offsets_fit, padded_before,
    padded_offset, stride_start,
};
use crate::receive_plan::lemma_order_is_listable;
use crate::routing::{
    ascending, covers, lemma_arrival_at, lemma_arrival_valid, lemma_row_sum_cell,
    lemma_row_sum_within, lemma_visited_at_most_all, lemma_visited_sum_monotone, row_sum, table,
    visited_sum, Arrival, RouteTable,
};
use crate::traffic::{
    count_group_traffic, group_totals_match, lemma_block, lemma_group_at,
    lemma_messages_monotone, lemma_valid_sizes, GroupTraffic,
};
use crate::transfer_plan::lemma_placed_sizes;

verus! {

/// The product of two sizes.
pub fn wide_product(a: u64, b: u64) -> (product: u128)
    ensures
        product == a * b,
        product <= 0xffff_ffff_ffff_fffe_0000_0000_0000_0001,
{
    proof {
        assert(0 <= a * b <= 0xffff_ffff_ffff_ffff * 0xffff_ffff_ffff_ffff) by (nonlinear_arith)
            requires
                0 <= a <= 0xffff_ffff_ffff_ffff,
                0 <= b <= 0xffff_ffff_ffff_ffff,
        ;
    }
    a as u128 * b as u128
}

/// Whether this rank and its peers have a place among the ranks.
pub fn check_placed(c: &Cluster) -> (placed: bool)
    ensures
        placed == c.placed(),
{
    if c.dp_size == 0 || c.dp_size > c.world_size || c.node_size == 0 {
        return false;
    }
    if 2 * (c.world_size as u128) + 2 * (c.num_experts as u128) > usize::MAX as u128 {
        return false;
    }
    let groups: usize = c.world_size / c.dp_size;
    proof {
        let dp = c.dp_size as int;
        vstd::arithmetic::div_mod::lemma_fundamental_div_mod(c.world_size as int, dp);
        assert(1 <= groups) by (nonlinear_arith)
            requires
                c.world_size == dp * groups + c.world_size as int % dp,
                0 <= c.world_size as int % dp < dp,
                0 < dp <= c.world_size,
        ;
    }
    c.dp_group < groups && wide_product((groups - 1) as u64, c.dp_size as u64) + (
    c.dp_rank as u128) < c.world_size as u128
}

/// Checks that a rank has a place in the cluster, and that every group that it visits exists and
/// is visited once.
pub fn check_cluster(c: &Cluster) -> (valid: bool)
    ensures
        valid == c.valid(),
{
    if c.dp_size == 0 || c.dp_size > c.node_size {
        return false;
    }
    if !check_placed(c) {
        proof {
            if c.valid() {
                lemma_valid_sizes(*c);
            }
        }
        return false;
    }
    let ghost order = c.source_order();
    let groups: usize = c.world_size / c.dp_size;
    let groups_per_node: usize = c.node_size / c.dp_size;
    let num_nodes: usize = c.world_size / c.node_size;
    proof {
        let dp = c.dp_size as int;
        let node = c.node_size as int;
        lemma_placed_sizes(*c);
        vstd::arithmetic::div_mod::lemma_fundamental_div_mod(node, dp);
        assert(1 <= groups_per_node) by (nonlinear_arith)
            requires
                node == dp * groups_per_node + node % dp,
                0 <= node % dp < dp,
                0 < dp <= node,
        ;
    }
    if groups_per_node > groups {
        proof {
            lemma_crowded_node(*c);
        }
        return false;
    }
    proof {
        lemma_listable(*c);
    }
    let rank: usize = c.dp_group * c.dp_size + c.dp_rank;
    let rank_node: usize = rank / c.node_size;
    let source_groups: Vec<usize> = ordered_source_groups(
        c.dp_group,
        rank_node,
        groups_per_node,
        num_nodes,
    );
    proof {
        assert(source_groups@.map_values(|g: usize| g as int) == order);
        assert forall|i: int| 0 <= i < order.len() implies order[i] == #[trigger]
            source_groups@[i] by {
            assert(source_groups@.map_values(|g: usize| g as int)[i] == source_groups@[i]);
        }
    }
    let mut seen: Vec<bool> = vec![false; groups];
    let mut i: usize = 0;
    while i < source_groups.len()
        invariant
            i <= source_groups@.len(),
            order == c.source_order(),
            groups == c.groups(),
            source_groups@.len() == order.len(),
            forall|j: int| 0 <= j < order.len() ==> order[j] == #[trigger] source_groups@[j],
            seen@.len() == groups,
            forall|j: int| 0 <= j < i ==> (#[trigger] source_groups@[j]) < groups,
            forall|j: int, k: int| 0 <= j < k < i ==> source_groups@[j] != source_groups@[k],
            forall|j: int| 0 <= j < i ==> seen@[#[trigger] source_groups@[j] as int],
            forall|g: int|
                0 <= g < groups && #[trigger] seen@[g] ==> exists|j: int|
                    0 <= j < i && source_groups@[j] == g,
        decreases source_groups@.len() - i,
    {
        let group: usize = source_groups[i];
        if group >= groups {
            proof {
                assert(order[i as int] == source_groups@[i as int]);
            }
            return false;
        }
        if seen[group] {
            proof {
                let j = choose|j: int| 0 <= j < i && source_groups@[j] == group;
                assert(order[j] == source_groups@[j] && order[i as int] == source_groups@[i as int]);
            }
            return false;
        }
        let ghost before = seen@;
        seen.set(group, true);
        i = i + 1;
        proof {
            assert forall|g: int| 0 <= g < groups && #[trigger] seen@[g] implies exists|j: int|
                0 <= j < i && source_groups@[j] == g by {
                if g == group {
                    assert(source_groups@[i - 1] == g);
                } else {
                    assert(before[g]);
                    let j = choose|j: int| 0 <= j < i - 1 && source_groups@[j] == g;
                    assert(source_groups@[j] == g);
                }
            }
        }
    }
    proof {
        assert forall|a: int, b: int|
            0 <= a < order.len() && 0 <= b < order.len() && a != b implies order[a] != order[b] by {
            assert(order[a] == source_groups@[a] && order[b] == source_groups@[b]);
        }
    }
    true
}

/// A rank whose node holds more groups than there are visits one that does not exist.
proof fn lemma_crowded_node(c: Cluster)
    requires
        0 < c.node_size,
        0 <= c.dp_group < c.groups(),
        0 <= c.rank(),
        c.groups() < c.groups_per_node(),
    ensures
        !c.valid(),
{
    let gpn = c.groups_per_node();
    let order = c.source_order();
    let remote = c.remote_visits();
    assert(0 <= c.rank_node()) by (nonlinear_arith)
        requires
            c.rank_node() == c.rank() / c.node_size as int,
            0 <= c.rank(),
            0 < c.node_size,
    ;
    assert(0 <= c.rank_node() * gpn) by (nonlinear_arith)
        requires
            0 <= c.rank_node(),
            0 <= gpn,
    ;
    assert(0 <= remote) by {
        if c.nodes() >= 1 {
            assert(0 <= (c.nodes() - 1) * gpn) by (nonlinear_arith)
                requires
                    0 <= c.nodes() - 1,
                    0 <= gpn,
            ;
        }
    }
    let i = c.groups() - c.dp_group - 1;
    vstd::arithmetic::div_mod::lemma_small_mod(c.groups() as nat, gpn as nat);
    assert((c.dp_group + 1 + i) % gpn == c.groups());
    let local = crate::cluster::local_order(c.dp_group as int, c.rank_node(), gpn);
    assert(0 <= i < local.len());
    assert(order[remote + i] == local[i]);
    assert(order[remote + i] >= c.groups());
}

/// The sizes that the source order is listed from fit.
proof fn lemma_listable(c: Cluster)
    requires
        0 < c.dp_size <= c.node_size,
        c.dp_size <= c.world_size,
        c.addressable(),
        c.dp_group < c.groups(),
        c.rank_of(c.groups() - 1) < c.world_size,
        1 <= c.groups_per_node() <= c.groups() <= c.world_size,
    ensures
        0 <= c.dp_group * c.dp_size,
        0 <= c.rank() < c.world_size,
        0 <= c.rank_node(),
        c.rank_node() + c.nodes() <= usize::MAX,
        c.nodes() * c.groups_per_node() <= usize::MAX,
        c.dp_group + c.groups_per_node() <= usize::MAX,
        c.rank_node() * c.groups_per_node() + c.groups_per_node() <= usize::MAX,
{
    let dp = c.dp_size as int;
    let node = c.node_size as int;
    let gpn = c.groups_per_node();
    assert(0 <= c.dp_group * dp <= (c.groups() - 1) * dp) by (nonlinear_arith)
        requires
            0 <= c.dp_group <= c.groups() - 1,
            0 < dp,
    ;
    vstd::arithmetic::div_mod::lemma_fundamental_div_mod(c.rank(), node);
    vstd::arithmetic::div_mod::lemma_fundamental_div_mod(c.world_size as int, node);
    assert(gpn <= node) by (nonlinear_arith)
        requires
            gpn == node / dp,
            0 < dp,
            0 < node,
    ;
    assert(0 <= c.rank_node() && c.rank_node() <= c.rank()) by (nonlinear_arith)
        requires
            c.rank() == node * c.rank_node() + c.rank() % node,
            0 <= c.rank() % node < node,
            0 <= c.rank(),
            0 < node,
    ;
    assert(0 <= c.rank_node() * gpn <= c.rank()) by (nonlinear_arith)
        requires
            c.rank() == node * c.rank_node() + c.rank() % node,
            0 <= c.rank() % node,
            1 <= gpn <= node,
            0 <= c.rank_node(),
    ;
    assert(0 <= c.nodes() && c.nodes() <= c.world_size) by (nonlinear_arith)
        requires
            c.world_size == node * c.nodes() + c.world_size as int % node,
            0 <= c.world_size as int % node < node,
            0 <= c.world_size,
            0 < node,
    ;
    assert(c.nodes() * gpn <= c.world_size) by (nonlinear_arith)
        requires
            c.world_size == node * c.nodes() + c.world_size as int % node,
            0 <= c.world_size as int % node,
            1 <= gpn <= node,
            0 <= c.nodes(),
    ;
}

/// The tokens of a group for some experts, if their number fits 64 bits.
pub fn row_total(num_routed: &Vec<Vec<u32>>, group: usize, lo: usize, hi: usize) -> (sum: Option<
    u64,
>)
    requires
        group < num_routed@.len(),
        lo < hi ==> hi <= num_routed@[group as int]@.len(),
    ensures
        match sum {
            Some(sum) => sum == row_sum(table(num_routed), group as int, lo as int, hi as int),
            None => row_sum(table(num_routed), group as int, lo as int, hi as int) > u64::MAX,
        },
{
    let ghost t = table(num_routed);
    let ghost g = group as int;
    let mut sum: u64 = 0;
    let mut expert: usize = lo;
    while expert < hi
        invariant
            t == table(num_routed),
            g == group,
            group < num_routed@.len(),
            lo < hi ==> hi <= num_routed@[group as int]@.len(),
            lo <= expert,
            expert <= hi || expert == lo,
            sum == row_sum(t, g, lo as int, expert as int),
        decreases hi - expert,
    {
        proof {
            assert(t[g] == num_routed@[g]@);
            lemma_row_sum_within(t, g, lo as int, hi as int, lo as int, expert + 1);
        }
        match sum.checked_add(num_routed[group][expert] as u64) {
            Some(more) => {
                sum = more;
            },
            None => {
                return None;
            },
        }
        expert = expert + 1;
    }
    Some(sum)
}

/// The tokens of the first groups for some experts, if their number fits 64 bits.
pub fn block_total(num_routed: &Vec<Vec<u32>>, groups: usize, lo: usize, hi: usize) -> (sum: Option<
    u64,
>)
    requires
        groups <= num_routed@.len(),
        lo < hi ==> forall|g: int| 0 <= g < groups ==> hi <= (#[trigger] num_routed@[g])@.len(),
    ensures
        match sum {
            Some(sum) => sum == visited_sum(
                table(num_routed),
                ascending(groups as int),
                lo as int,
                hi as int,
                groups as int,
            ),
            None => visited_sum(
                table(num_routed),
                ascending(groups as int),
                lo as int,
                hi as int,
                groups as int,
            ) > u64::MAX,
        },
{
    let ghost t = table(num_routed);
    let ghost all = ascending(groups as int);
    let mut sum: u64 = 0;
    let mut group: usize = 0;
    while group < groups
        invariant
            t == table(num_routed),
            all == ascending(groups as int),
            group <= groups <= num_routed@.len(),
            lo < hi ==> forall|g: int|
                0 <= g < groups ==> hi <= (#[trigger] num_routed@[g])@.len(),
            sum == visited_sum(t, all, lo as int, hi as int, group as int),
        decreases groups - group,
    {
        proof {
            assert(lo < hi ==> hi <= num_routed@[group as int]@.len());
            assert(all[group as int] == group);
            lemma_visited_sum_monotone(t, all, lo as int, hi as int, group + 1, groups as int);
        }
        match row_total(num_routed, group, lo, hi) {
            Some(row) => {
                match sum.checked_add(row) {
                    Some(more) => {
                        sum = more;
                    },
                    None => {
                        return None;
                    },
                }
            },
            None => {
                return None;
            },
        }
        group = group + 1;
    }
    Some(sum)
}

/// Whether a number fits 32 bits.
fn fits_word(number: Option<u64>) -> (fits: bool)
    ensures
        fits == match number {
            Some(number) => number <= u32::MAX,
            None => false,
        },
{
    match number {
        Some(number) => number <= u32::MAX as u64,
        None => false,
    }
}

/// Checks that a table has a count for every group and expert.
fn check_covers(num_routed: &Vec<Vec<u32>>, c: &Cluster) -> (covered: bool)
    requires
        0 < c.dp_size,
    ensures
        covered == covers(table(num_routed), *c),
{
    let ghost t = table(num_routed);
    let groups: usize = c.world_size / c.dp_size;
    if num_routed.len() < groups {
        return false;
    }
    let mut g: usize = 0;
    while g < groups
        invariant
            t == table(num_routed),
            groups == c.groups(),
            groups <= num_routed@.len(),
            g <= groups,
            forall|h: int| 0 <= h < g ==> c.num_experts <= (#[trigger] t[h]).len(),
        decreases groups - g,
    {
        proof {
            assert(t[g as int] == num_routed@[g as int]@);
        }
        if num_routed[g].len() < c.num_experts {
            return false;
        }
        g = g + 1;
    }
    true
}

/// Facts that the loops over a table share.
proof fn lemma_table_shape(c: Cluster, num_routed: &Vec<Vec<u32>>)
    requires
        c.valid(),
        covers(table(num_routed), c),
    ensures
        c.groups() <= num_routed@.len(),
        forall|g: int|
            0 <= g < c.groups() ==> c.num_experts <= (#[trigger] num_routed@[g])@.len(),
        c.first_local() <= c.num_experts ==> 0 <= c.local_experts() <= c.experts_per_rank(),
        c.last_local() <= c.num_experts,
{
    lemma_valid_sizes(c);
    lemma_block(c, c.dp_group as int);
    assert forall|g: int| 0 <= g < c.groups() implies c.num_experts <= (
    #[trigger] num_routed@[g])@.len() by {
        assert(table(num_routed)[g] == num_routed@[g]@);
    }
}

/// Checks the completion messages against 32 bits.
fn check_messages(
    c: &Cluster,
    num_routed: &Vec<Vec<u32>>,
    max_private_tokens: usize,
    nets_per_gpu: u32,
) -> (fit: bool)
    requires
        c.valid(),
        covers(table(num_routed), *c),
        c.first_local() <= c.num_experts,
    ensures
        fit == (c.messages_below(
            table(num_routed),
            max_private_tokens as int,
            nets_per_gpu as int,
            c.groups(),
        ) <= u32::MAX),
{
    let ghost t = table(num_routed);
    let ghost private = max_private_tokens as int;
    let ghost nets = nets_per_gpu as int;
    proof {
        lemma_valid_sizes(*c);
        lemma_table_shape(*c, num_routed);
        lemma_block(*c, c.dp_group as int);
        assert(0 <= c.dp_group * c.dp_size) by (nonlinear_arith);
    }
    let groups: usize = c.world_size / c.dp_size;
    let epr: usize = ceil_div(c.num_experts, groups);
    let first: usize = c.dp_group * epr;
    let last: usize = min_usize(first + epr, c.num_experts);
    let rank: usize = c.dp_group * c.dp_size + c.dp_rank;
    let rank_node: usize = rank / c.node_size;
    let groups_per_node: usize = c.node_size / c.dp_size;
    let mut messages: u64 = 0;
    let mut g: usize = 0;
    while g < groups
        invariant
            t == table(num_routed),
            private == max_private_tokens,
            nets == nets_per_gpu,
            groups == c.groups(),
            groups <= num_routed@.len(),
            forall|h: int|
                0 <= h < groups ==> c.num_experts <= (#[trigger] num_routed@[h])@.len(),
            first == c.first_local(),
            last == c.last_local(),
            last <= c.num_experts,
            rank_node == c.rank_node(),
            groups_per_node == c.groups_per_node(),
            1 <= groups_per_node,
            g <= groups,
            messages == c.messages_below(t, private, nets, g as int),
            messages <= u32::MAX,
        decreases groups - g,
    {
        proof {
            assert(c.num_experts <= num_routed@[g as int]@.len());
            lemma_messages_monotone(*c, t, private, nets, g + 1, groups as int);
        }
        if g != c.dp_group && g / groups_per_node != rank_node {
            messages = messages + 1;
            let overflows: bool = match row_total(num_routed, g, first, last) {
                Some(tokens) => tokens as u128 > max_private_tokens as u128,
                None => true,
            };
            if overflows {
                messages = messages + nets_per_gpu as u64;
            }
        }
        g = g + 1;
        if messages > u32::MAX as u64 {
            return false;
        }
    }
    true
}

/// Checks the totals of a table against the integers that hold them.
fn check_totals(
    c: &Cluster,
    num_routed: &Vec<Vec<u32>>,
    max_private_tokens: usize,
    nets_per_gpu: u32,
) -> (fit: bool)
    requires
        c.valid(),
        covers(table(num_routed), *c),
    ensures
        fit == c.totals_fit(table(num_routed), max_private_tokens as int, nets_per_gpu as int),
{
    let ghost t = table(num_routed);
    proof {
        lemma_valid_sizes(*c);
        lemma_table_shape(*c, num_routed);
        lemma_block(*c, c.dp_group as int);
    }
    let groups: usize = c.world_size / c.dp_size;
    let epr: usize = ceil_div(c.num_experts, groups);
    let first: usize = c.dp_group * epr;
    let last: usize = min_usize(first + epr, c.num_experts);
    if first > c.num_experts || !fits_word(row_total(num_routed, c.dp_group, 0, c.num_experts)) {
        return false;
    }
    let local: usize = last - first;
    let mut g: usize = 0;
    while g < groups
        invariant
            t == table(num_routed),
            groups == c.groups(),
            groups <= num_routed@.len(),
            forall|h: int|
                0 <= h < groups ==> c.num_experts <= (#[trigger] num_routed@[h])@.len(),
            first == c.first_local(),
            last == c.last_local(),
            first <= c.num_experts,
            last <= c.num_experts,
            g <= groups,
            forall|h: int| 0 <= h < g ==> #[trigger] c.from_group_to_lower(t, h) <= u32::MAX,
            forall|h: int| 0 <= h < g ==> #[trigger] c.from_group(t, h) <= u32::MAX,
        decreases groups - g,
    {
        proof {
            assert(c.num_experts <= num_routed@[g as int]@.len());
        }
        if !fits_word(row_total(num_routed, g, 0, first)) {
            proof {
                assert(c.from_group_to_lower(t, g as int) > u32::MAX);
            }
            return false;
        }
        if !fits_word(row_total(num_routed, g, first, last)) {
            proof {
                assert(c.from_group(t, g as int) > u32::MAX);
            }
            return false;
        }
        g = g + 1;
    }
    let mut l: usize = 0;
    while l < local
        invariant
            t == table(num_routed),
            groups == c.groups(),
            groups <= num_routed@.len(),
            forall|h: int|
                0 <= h < groups ==> c.num_experts <= (#[trigger] num_routed@[h])@.len(),
            first == c.first_local(),
            local == c.local_experts(),
            first + local == last,
            last <= c.num_experts,
            l <= local,
            forall|k: int| 0 <= k < l ==> #[trigger] c.for_expert(t, k) <= u32::MAX,
        decreases local - l,
    {
        if !fits_word(block_total(num_routed, groups, first + l, first + l + 1)) {
            proof {
                assert(c.for_expert(t, l as int) > u32::MAX);
            }
            return false;
        }
        l = l + 1;
    }
    match block_total(num_routed, groups, first, last) {
        Some(received) => {
            if received as u128 > usize::MAX as u128 {
                return false;
            }
        },
        None => {
            return false;
        },
    }
    check_messages(c, num_routed, max_private_tokens, nets_per_gpu)
}

/// Checks that the offsets of the experts can be computed.
fn check_offsets(tokens_per_expert: &Vec<u32>, expert_padding: usize, max_tokens_per_expert: usize)
    -> (fit: bool)
    ensures
        fit == offsets_fit(
            tokens_per_expert@,
            expert_padding as int,
            max_tokens_per_expert as int,
        ),
{
    let ghost totals = tokens_per_expert@;
    let ghost padding = expert_padding as int;
    let ghost stride = max_tokens_per_expert as int;
    let len: usize = tokens_per_expert.len();
    if max_tokens_per_expert > 0 {
        if len == 0 {
            return true;
        }
        let fit: bool = wide_product((len - 1) as u64, max_tokens_per_expert as u64)
            <= usize::MAX as u128;
        proof {
            assert(stride_start(len - 1, stride) == (len - 1) * stride);
            assert forall|l: int| 0 <= l < totals.len() implies #[trigger] stride_start(l, stride)
                <= (len - 1) * stride by {
                assert(l * stride <= (len - 1) * stride) by (nonlinear_arith)
                    requires
                        l <= len - 1,
                        0 < stride,
                ;
            }
        }
        return fit;
    }
    if len == 0 {
        return true;
    }
    if expert_padding == 0 {
        return false;
    }
    let mut rows: u64 = 0;
    let mut l: usize = 0;
    while l < len
        invariant
            totals == tokens_per_expert@,
            padding == expert_padding,
            padding > 0,
            stride == max_tokens_per_expert,
            stride == 0,
            len == totals.len(),
            l <= len,
            rows == padded_before(totals, padding, l as int),
            rows <= u32::MAX,
            forall|k: int|
                #![trigger totals[k]]
                0 <= k < l ==> align_up_spec(totals[k] as int, padding) <= usize::MAX,
        decreases len - l,
    {
        proof {
            lemma_ceil_div(totals[l as int] as int, padding);
            lemma_padded_before_monotone(totals, padding, l + 1, len as int);
        }
        let runs: usize = ceil_div(tokens_per_expert[l] as usize, expert_padding);
        let padded: u128 = wide_product(runs as u64, expert_padding as u64);
        if padded > usize::MAX as u128 {
            proof {
                assert(align_up_spec(totals[l as int] as int, padding) > usize::MAX);
            }
            return false;
        }
        rows = rows + (padded as u32) as u64;
        l = l + 1;
        if rows > u32::MAX as u64 {
            return false;
        }
    }
    true
}

/// Whether the offsets and the row of a token fit 32 bits.
pub open spec fn token_fits(
    c: Cluster,
    t: RouteTable,
    expert_padding: int,
    max_tokens_per_expert: int,
    max_private_tokens: int,
    a: Arrival,
) -> bool {
    &&& c.token_fits(t, max_private_tokens, a)
    &&& c.output_row(t, expert_padding, max_tokens_per_expert, a) <= u32::MAX
}

/// Whether the tokens of one visit for one expert fit.
spec fn run_fits(
    c: Cluster,
    t: RouteTable,
    expert_padding: int,
    max_tokens_per_expert: int,
    max_private_tokens: int,
    visit: int,
    local_expert: int,
) -> bool {
    forall|k: int|
        0 <= k < t[c.source_order()[visit]][c.first_local() + local_expert] ==> token_fits(
            c,
            t,
            expert_padding,
            max_tokens_per_expert,
            max_private_tokens,
            #[trigger] arrival(visit, local_expert, k),
        )
}

/// Token `k` of a visit for an expert.
spec fn arrival(visit: int, local_expert: int, k: int) -> Arrival {
    Arrival { visit, local_expert, index: k }
}

/// Where a run of tokens lies: all that its offsets and rows depend on.
struct Run {
    /// The group that the tokens come from.
    group: usize,
    /// How many tokens of the group come before.
    before_in_group: u64,
    /// How many tokens for the expert come before.
    before_in_expert: u64,
    /// The number of tokens.
    count: u32,
    /// Where the rows of the expert start.
    start: u32,
    /// Where the tokens of the group start among all that this rank receives.
    src_offset: u32,
    /// Where the tokens for this rank start among all that the group sends.
    dst_offset: u32,
}

/// Checks the tokens of one visit for one expert: where the last of them fit, all do.
fn check_run(
    c: &Cluster,
    run: &Run,
    max_private_tokens: usize,
    Ghost(t): Ghost<RouteTable>,
    Ghost(padding): Ghost<int>,
    Ghost(stride): Ghost<int>,
    Ghost(visit): Ghost<int>,
    Ghost(l): Ghost<int>,
) -> (fit: bool)
    requires
        c.valid(),
        0 <= visit < c.source_order().len(),
        run.group == c.source_order()[visit],
        run.before_in_group == row_sum(
            t,
            run.group as int,
            c.first_local(),
            c.first_local() + l,
        ),
        run.before_in_group <= u32::MAX,
        run.before_in_expert == c.arrived_for_expert(t, l, visit),
        run.before_in_expert <= u32::MAX,
        run.count == t[run.group as int][c.first_local() + l],
        run.start == padded_offset(c.expert_totals(t), padding, stride, l),
        run.src_offset == low32(c.from_groups_below(t, run.group as int)),
        run.dst_offset == c.from_group_to_lower(t, run.group as int),
        max_private_tokens * c.groups() <= usize::MAX,
    ensures
        fit == run_fits(*c, t, padding, stride, max_private_tokens as int, visit, l),
{
    let ghost private = max_private_tokens as int;
    let ghost n = run.count as int;
    let ghost g = run.group as int;
    if run.count == 0 {
        return true;
    }
    proof {
        lemma_valid_sizes(*c);
        lemma_group_at(*c, g);
        assert(0 <= c.dp_group * c.dp_size) by (nonlinear_arith);
        assert(0 <= g * c.dp_size) by (nonlinear_arith)
            requires
                0 <= g,
        ;
        assert(0 <= private * g <= private * c.groups() && 0 <= private * c.groups())
            by (nonlinear_arith)
            requires
                0 <= private,
                0 <= g <= c.groups(),
        ;
    }
    let max: u64 = u32::MAX as u64;
    let last: u64 = run.before_in_group + (run.count - 1) as u64;
    if run.start as u64 + run.before_in_expert + (run.count - 1) as u64 > max {
        proof {
            let a = arrival(visit, l, n - 1);
            assert(c.output_row(t, padding, stride, a) > u32::MAX);
        }
        return false;
    }
    if run.group == c.dp_group {
        proof {
            assert forall|k: int| 0 <= k < n implies token_fits(
                *c,
                t,
                padding,
                stride,
                private,
                #[trigger] arrival(visit, l, k),
            ) by {
                let a = arrival(visit, l, k);
                assert(c.source_group(a) == c.dp_group);
                assert(c.output_row(t, padding, stride, a) == run.start + run.before_in_expert + k);
            }
        }
        return true;
    }
    let rank: usize = c.dp_group * c.dp_size + c.dp_rank;
    let peer: usize = run.group * c.dp_size + c.dp_rank;
    let same_node: bool = peer / c.node_size == rank / c.node_size;
    let groups: usize = c.world_size / c.dp_size;
    let private_start: u32 = (max_private_tokens * run.group) as u32;
    let shared_start: u32 = (max_private_tokens * groups) as u32;
    let skipped: u32 = max_private_tokens as u32;
    if run.before_in_group < max_private_tokens as u64 {
        let last_private: u64 = if last < max_private_tokens as u64 {
            last
        } else {
            max_private_tokens as u64 - 1
        };
        if private_start as u128 + last_private as u128 > max as u128 {
            proof {
                let a = arrival(visit, l, last_private - run.before_in_group);
                assert(c.index_in_group(t, a) == last_private);
                assert(!c.token_fits(t, private, a));
            }
            return false;
        }
    }
    let combine_start: u32 = if same_node {
        run.dst_offset
    } else {
        run.src_offset
    };
    let ghost end = arrival(visit, l, n - 1);
    proof {
        assert(c.index_in_group(t, end) == last);
        assert(c.source_group(end) == g);
        assert(same_node == c.same_node(g));
    }
    if combine_start as u64 + last > max {
        proof {
            assert(!c.token_fits(t, private, end));
        }
        return false;
    }
    if last >= max_private_tokens as u64 && !same_node {
        if skipped > shared_start || run.src_offset as u64 + last + (shared_start - skipped) as u64
            > max {
            proof {
                assert(!c.token_fits(t, private, end));
            }
            return false;
        }
    }
    proof {
        assert forall|k: int| 0 <= k < n implies token_fits(
            *c,
            t,
            padding,
            stride,
            private,
            #[trigger] arrival(visit, l, k),
        ) by {
            let a = arrival(visit, l, k);
            assert(c.source_group(a) == g);
            assert(c.index_in_group(t, a) == run.before_in_group + k);
            assert(c.output_row(t, padding, stride, a) == run.start + run.before_in_expert + k);
            assert(c.token_fits(t, private, a));
        }
    }
    true
}

/// Whether the tokens that arrive fit.
spec fn tokens_fit(
    c: Cluster,
    t: RouteTable,
    expert_padding: int,
    max_tokens_per_expert: int,
    max_private_tokens: int,
) -> bool {
    forall|p: int|
        0 <= p < c.arrivals(t).len() ==> token_fits(
            c,
            t,
            expert_padding,
            max_tokens_per_expert,
            max_private_tokens,
            #[trigger] c.arrivals(t)[p],
        )
}

/// A run that does not fit is among what arrives.
proof fn lemma_run_arrives(
    c: Cluster,
    t: RouteTable,
    expert_padding: int,
    max_tokens_per_expert: int,
    max_private_tokens: int,
    visit: int,
    l: int,
)
    requires
        0 <= visit < c.source_order().len(),
        0 <= l < c.local_experts(),
        !run_fits(c, t, expert_padding, max_tokens_per_expert, max_private_tokens, visit, l),
    ensures
        !tokens_fit(c, t, expert_padding, max_tokens_per_expert, max_private_tokens),
{
    let k = choose|k: int|
        0 <= k < t[c.source_order()[visit]][c.first_local() + l] && !token_fits(
            c,
            t,
            expert_padding,
            max_tokens_per_expert,
            max_private_tokens,
            #[trigger] arrival(visit, l, k),
        );
    lemma_arrival_at(c, t, c.source_order().len() as int, visit, l, k);
    let place = c.arrived(t, visit) + row_sum(
        t,
        c.source_order()[visit],
        c.first_local(),
        c.first_local() + l,
    ) + k;
    assert(c.arrivals(t)[place] == arrival(visit, l, k));
}

/// Checks the tokens of one visit, and counts them for their experts.
fn check_visit(
    c: &Cluster,
    num_routed: &Vec<Vec<u32>>,
    traffic: &GroupTraffic,
    starts: &Vec<u32>,
    taken: &mut Vec<u32>,
    group: usize,
    max_private_tokens: usize,
    Ghost(padding): Ghost<int>,
    Ghost(stride): Ghost<int>,
    Ghost(visit): Ghost<int>,
) -> (fit: bool)
    requires
        c.valid(),
        covers(table(num_routed), *c),
        c.first_local() <= c.num_experts,
        forall|g: int|
            0 <= g < c.groups() ==> #[trigger] c.from_group(table(num_routed), g) <= u32::MAX,
        forall|l: int|
            0 <= l < c.local_experts() ==> #[trigger] c.for_expert(table(num_routed), l)
                <= u32::MAX,
        group_totals_match(
            *c,
            table(num_routed),
            traffic.tokens_from_group@,
            traffic.src_group_offset@,
            traffic.dst_group_offset@,
        ),
        starts@.len() == c.experts_per_rank(),
        forall|l: int|
            0 <= l < starts@.len() ==> #[trigger] starts@[l] == padded_offset(
                c.expert_totals(table(num_routed)),
                padding,
                stride,
                l,
            ),
        max_private_tokens * c.groups() <= usize::MAX,
        0 <= visit < c.source_order().len(),
        group == c.source_order()[visit],
        old(taken)@.len() == c.local_experts(),
        forall|l: int|
            0 <= l < c.local_experts() ==> #[trigger] old(taken)@[l] == c.arrived_for_expert(
                table(num_routed),
                l,
                visit,
            ),
    ensures
        final(taken)@.len() == c.local_experts(),
        fit == forall|l: int|
            0 <= l < c.local_experts() ==> #[trigger] run_fits(
                *c,
                table(num_routed),
                padding,
                stride,
                max_private_tokens as int,
                visit,
                l,
            ),
        fit ==> forall|l: int|
            0 <= l < c.local_experts() ==> #[trigger] final(taken)@[l] == c.arrived_for_expert(
                table(num_routed),
                l,
                visit + 1,
            ),
{
    let ghost t = table(num_routed);
    let ghost private = max_private_tokens as int;
    let ghost g = group as int;
    let ghost order = c.source_order();
    proof {
        lemma_valid_sizes(*c);
        lemma_table_shape(*c, num_routed);
        lemma_block(*c, c.dp_group as int);
        assert(0 <= order[visit] < c.groups());
        assert(c.num_experts <= num_routed@[g]@.len());
        assert(t[g] == num_routed@[g]@);
    }
    let groups: usize = c.world_size / c.dp_size;
    let epr: usize = ceil_div(c.num_experts, groups);
    let first: usize = c.dp_group * epr;
    let last: usize = min_usize(first + epr, c.num_experts);
    let local: usize = last - first;
    let mut before: u64 = 0;
    let mut l: usize = 0;
    while l < local
        invariant
            c.valid(),
            t == table(num_routed),
            t[g] == num_routed@[g]@,
            private == max_private_tokens,
            g == group,
            order == c.source_order(),
            0 <= visit < order.len(),
            g == order[visit],
            0 <= g < c.groups(),
            g < num_routed@.len(),
            c.num_experts <= num_routed@[g]@.len(),
            first == c.first_local(),
            last == c.last_local(),
            local == c.local_experts(),
            first + local == last,
            last <= c.num_experts,
            local <= starts@.len(),
            c.from_group(t, g) <= u32::MAX,
            forall|k: int| 0 <= k < local ==> #[trigger] c.for_expert(t, k) <= u32::MAX,
            forall|k: int|
                0 <= k < starts@.len() ==> #[trigger] starts@[k] == padded_offset(
                    c.expert_totals(t),
                    padding,
                    stride,
                    k,
                ),
            group_totals_match(
                *c,
                t,
                traffic.tokens_from_group@,
                traffic.src_group_offset@,
                traffic.dst_group_offset@,
            ),
            max_private_tokens * c.groups() <= usize::MAX,
            l <= local,
            before == row_sum(t, g, first as int, first + l),
            taken@.len() == local,
            forall|k: int|
                0 <= k < l ==> #[trigger] taken@[k] == c.arrived_for_expert(t, k, visit + 1),
            forall|k: int|
                l <= k < local ==> #[trigger] taken@[k] == c.arrived_for_expert(t, k, visit),
            forall|k: int|
                0 <= k < l ==> #[trigger] run_fits(*c, t, padding, stride, private, visit, k),
        decreases local - l,
    {
        let ghost at = first + l;
        proof {
            lemma_row_sum_within(t, g, first as int, last as int, first as int, at);
            lemma_row_sum_within(t, g, first as int, last as int, first as int, at + 1);
            lemma_row_sum_cell(t, g, at);
            lemma_visited_at_most_all(t, order, at, at + 1, visit, c.groups());
            lemma_visited_at_most_all(t, order, at, at + 1, visit + 1, c.groups());
            assert(c.for_expert(t, l as int) <= u32::MAX);
            assert(traffic.src_group_offset@[g] == c.from_groups_below(t, g) as u32);
            assert(traffic.dst_group_offset@[g] == c.from_group_to_lower(t, g));
        }
        let count: u32 = num_routed[group][first + l];
        let run = Run {
            group,
            before_in_group: before,
            before_in_expert: taken[l] as u64,
            count,
            start: starts[l],
            src_offset: traffic.src_group_offset[group],
            dst_offset: traffic.dst_group_offset[group],
        };
        if !check_run(
            c,
            &run,
            max_private_tokens,
            Ghost(t),
            Ghost(padding),
            Ghost(stride),
            Ghost(visit),
            Ghost(l as int),
        ) {
            return false;
        }
        let more: u32 = taken[l] + count;
        taken.set(l, more);
        before = before + count as u64;
        l = l + 1;
    }
    true
}

/// Checks the tokens that arrive.
fn check_tokens(
    c: &Cluster,
    num_routed: &Vec<Vec<u32>>,
    traffic: &GroupTraffic,
    starts: &Vec<u32>,
    max_private_tokens: usize,
    Ghost(padding): Ghost<int>,
    Ghost(stride): Ghost<int>,
) -> (fit: bool)
    requires
        c.valid(),
        covers(table(num_routed), *c),
        c.first_local() <= c.num_experts,
        forall|g: int|
            0 <= g < c.groups() ==> #[trigger] c.from_group(table(num_routed), g) <= u32::MAX,
        forall|l: int|
            0 <= l < c.local_experts() ==> #[trigger] c.for_expert(table(num_routed), l)
                <= u32::MAX,
        group_totals_match(
            *c,
            table(num_routed),
            traffic.tokens_from_group@,
            traffic.src_group_offset@,
            traffic.dst_group_offset@,
        ),
        starts@.len() == c.experts_per_rank(),
        forall|l: int|
            0 <= l < starts@.len() ==> #[trigger] starts@[l] == padded_offset(
                c.expert_totals(table(num_routed)),
                padding,
                stride,
                l,
            ),
        max_private_tokens * c.groups() <= usize::MAX,
    ensures
        fit == tokens_fit(*c, table(num_routed), padding, stride, max_private_tokens as int),
{
    let ghost t = table(num_routed);
    let ghost private = max_private_tokens as int;
    let ghost order = c.source_order();
    proof {
        lemma_valid_sizes(*c);
        lemma_order_is_listable(*c);
        lemma_table_shape(*c, num_routed);
        lemma_block(*c, c.dp_group as int);
        assert(0 <= c.dp_group * c.dp_size) by (nonlinear_arith);
    }
    let groups: usize = c.world_size / c.dp_size;
    let epr: usize = ceil_div(c.num_experts, groups);
    let first: usize = c.dp_group * epr;
    let last: usize = min_usize(first + epr, c.num_experts);
    let rank: usize = c.dp_group * c.dp_size + c.dp_rank;
    let source_groups: Vec<usize> = ordered_source_groups(
        c.dp_group,
        rank / c.node_size,
        c.node_size / c.dp_size,
        c.world_size / c.node_size,
    );
    let ghost listed = source_groups@.map_values(|g: usize| g as int);
    let local: usize = last - first;
    let mut taken: Vec<u32> = vec![0u32; local];
    let mut visit: usize = 0;
    while visit < source_groups.len()
        invariant
            c.valid(),
            t == table(num_routed),
            private == max_private_tokens,
            order == c.source_order(),
            listed == source_groups@.map_values(|g: usize| g as int),
            listed == order,
            covers(t, *c),
            c.first_local() <= c.num_experts,
            forall|g: int| 0 <= g < c.groups() ==> #[trigger] c.from_group(t, g) <= u32::MAX,
            forall|l: int|
                0 <= l < c.local_experts() ==> #[trigger] c.for_expert(t, l) <= u32::MAX,
            group_totals_match(
                *c,
                t,
                traffic.tokens_from_group@,
                traffic.src_group_offset@,
                traffic.dst_group_offset@,
            ),
            starts@.len() == c.experts_per_rank(),
            forall|l: int|
                0 <= l < starts@.len() ==> #[trigger] starts@[l] == padded_offset(
                    c.expert_totals(t),
                    padding,
                    stride,
                    l,
                ),
            max_private_tokens * c.groups() <= usize::MAX,
            visit <= source_groups@.len(),
            taken@.len() == c.local_experts(),
            forall|l: int|
                0 <= l < c.local_experts() ==> #[trigger] taken@[l] == c.arrived_for_expert(
                    t,
                    l,
                    visit as int,
                ),
            forall|v: int, l: int|
                0 <= v < visit && 0 <= l < c.local_experts() ==> #[trigger] run_fits(
                    *c,
                    t,
                    padding,
                    stride,
                    private,
                    v,
                    l,
                ),
        decreases source_groups@.len() - visit,
    {
        proof {
            assert(listed[visit as int] == source_groups@[visit as int]);
        }
        if !check_visit(
            c,
            num_routed,
            traffic,
            starts,
            &mut taken,
            source_groups[visit],
            max_private_tokens,
            Ghost(padding),
            Ghost(stride),
            Ghost(visit as int),
        ) {
            proof {
                let l = choose|l: int|
                    0 <= l < c.local_experts() && !#[trigger] run_fits(
                        *c,
                        t,
                        padding,
                        stride,
                        private,
                        visit as int,
                        l,
                    );
                lemma_run_arrives(*c, t, padding, stride, private, visit as int, l);
            }
            return false;
        }
        visit = visit + 1;
    }
    proof {
        assert forall|p: int| 0 <= p < c.arrivals(t).len() implies token_fits(
            *c,
            t,
            padding,
            stride,
            private,
            #[trigger] c.arrivals(t)[p],
        ) by {
            lemma_arrival_valid(*c, t, order.len() as int, p);
            let a = c.arrivals(t)[p];
            assert(run_fits(*c, t, padding, stride, private, a.visit, a.local_expert));
            assert(a == arrival(a.visit, a.local_expert, a.index));
        }
    }
    true
}

/// Checks that a receive plan can be computed.
pub fn check_plan(config: &ContextConfig, num_routed: &Vec<Vec<u32>>, nets_per_gpu: u32) -> (fit:
    bool)
    requires
        config.has_groups(),
    ensures
        fit == config.cluster().plannable(
            table(num_routed),
            config.expert_padding as int,
            config.max_tokens_per_expert as int,
            config.max_private_tokens as int,
            nets_per_gpu as int,
        ),
{
    let ghost t = table(num_routed);
    let ghost padding = config.expert_padding as int;
    let ghost stride = config.max_tokens_per_expert as int;
    let private: usize = config.max_private_tokens;
    proof {
        lemma_has_groups(*config);
    }
    let c: Cluster = config.get_cluster();
    if !check_cluster(&c) || !check_covers(num_routed, &c) || !check_totals(
        &c,
        num_routed,
        private,
        nets_per_gpu,
    ) {
        return false;
    }
    let traffic: GroupTraffic = count_group_traffic(c, num_routed, private, nets_per_gpu);
    proof {
        lemma_valid_sizes(c);
        lemma_table_shape(c, num_routed);
        lemma_block(c, c.dp_group as int);
        assert(traffic.tokens_per_expert@ =~= c.expert_totals(t));
    }
    if !check_offsets(
        &traffic.tokens_per_expert,
        config.expert_padding,
        config.max_tokens_per_expert,
    ) {
        return false;
    }
    let groups: usize = c.world_size / c.dp_size;
    let epr: usize = ceil_div(c.num_experts, groups);
    let first: usize = c.dp_group * epr;
    let last: usize = min_usize(first + epr, c.num_experts);
    if wide_product(private as u64, groups as u64) > usize::MAX as u128 || wide_product(
        (last - first) as u64,
        groups as u64,
    ) > usize::MAX as u128 {
        return false;
    }
    let starts: Vec<u32> = compute_padded_offsets(
        traffic.tokens_per_expert.as_slice(),
        config.expert_padding,
        config.max_tokens_per_expert,
    );
    let fit: bool = check_tokens(
        &c,
        num_routed,
        &traffic,
        &starts,
        private,
        Ghost(padding),
        Ghost(stride),
    );
    proof {
        if fit {
            assert forall|p: int| 0 <= p < c.arrivals(t).len() implies ({
                &&& c.token_fits(t, private as int, #[trigger] c.arrivals(t)[p])
                &&& c.output_row(t, padding, stride, c.arrivals(t)[p]) <= u32::MAX
            }) by {
                assert(token_fits(c, t, padding, stride, private as int, c.arrivals(t)[p]));
            }
        } else {
            let p = choose|p: int|
                0 <= p < c.arrivals(t).len() && !token_fits(
                    c,
                    t,
                    padding,
                    stride,
                    private as int,
                    #[trigger] c.arrivals(t)[p],
                );
            assert(!(c.token_fits(t, private as int, c.arrivals(t)[p]) && c.output_row(
                t,
                padding,
                stride,
                c.arrivals(t)[p],
            ) <= u32::MAX));
        }
    }
    fit
}

} // verus!
