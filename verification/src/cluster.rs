//! The shape of a cluster as one rank sees it: data-parallel groups, nodes and expert blocks,
//! and the order in which a rank takes in the tokens of the source groups.

use vstd::prelude::*;
use vstd::arithmetic::div_mod::{
    lemma_fundamental_div_mod, lemma_fundamental_div_mod_converse, lemma_mod_bound,
};
use crate::arith::{ceil_div_spec, min_spec};

verus! {

/// One rank's place in the cluster.
///
/// Ranks are grouped into data-parallel groups of `dp_size` ranks and into nodes of `node_size`
/// ranks. Experts are dealt out to the groups in blocks of equal size, the last blocks being
/// short when the experts run out.
#[derive(Clone, Copy, Debug, PartialEq, Eq)]
pub struct Cluster {
    pub dp_group: usize,
    pub dp_rank: usize,
    pub dp_size: usize,
    pub node_size: usize,
    pub world_size: usize,
    pub num_experts: usize,
}

impl Cluster {
    /// The number of data-parallel groups.
    pub open spec fn groups(self) -> int {
        self.world_size as int / self.dp_size as int
    }

    /// The number of experts in a full block.
    pub open spec fn experts_per_rank(self) -> int {
        ceil_div_spec(self.num_experts as int, self.groups())
    }

    /// Where the expert block of a group starts.
    pub open spec fn first_expert(self, group: int) -> int {
        group * self.experts_per_rank()
    }

    /// Where the expert block of a group ends. For a group that gets no expert this may lie
    /// below its start.
    pub open spec fn last_expert(self, group: int) -> int {
        min_spec(self.first_expert(group) + self.experts_per_rank(), self.num_experts as int)
    }

    /// The first expert that this rank hosts.
    pub open spec fn first_local(self) -> int {
        self.first_expert(self.dp_group as int)
    }

    /// One past the last expert that this rank hosts.
    pub open spec fn last_local(self) -> int {
        self.last_expert(self.dp_group as int)
    }

    /// The number of experts that this rank hosts.
    pub open spec fn local_experts(self) -> int {
        self.last_local() - self.first_local()
    }

    /// The rank in `group` that exchanges tokens with this rank.
    pub open spec fn rank_of(self, group: int) -> int {
        group * self.dp_size + self.dp_rank
    }

    /// This rank.
    pub open spec fn rank(self) -> int {
        self.rank_of(self.dp_group as int)
    }

    /// The node that holds this rank.
    pub open spec fn rank_node(self) -> int {
        self.rank() / self.node_size as int
    }

    /// The number of groups per node.
    pub open spec fn groups_per_node(self) -> int {
        self.node_size as int / self.dp_size as int
    }

    /// The number of nodes.
    pub open spec fn nodes(self) -> int {
        self.world_size as int / self.node_size as int
    }

    /// Whether the peer in `group` sits on this rank's node.
    pub open spec fn same_node(self, group: int) -> bool {
        self.rank_of(group) / self.node_size as int == self.rank_node()
    }

    /// The group whose peer is `rank`, or -1 where `rank` is no group's peer.
    pub open spec fn group_at(self, rank: int) -> int {
        let distance = rank - self.dp_rank;
        if 0 <= distance && distance % self.dp_size as int == 0 && self.groups() > distance
            / self.dp_size as int {
            distance / self.dp_size as int
        } else {
            -1
        }
    }

    /// The order in which this rank takes in the source groups.
    pub open spec fn source_order(self) -> Seq<int> {
        source_order(
            self.dp_group as int,
            self.rank_node(),
            self.groups_per_node(),
            self.nodes(),
        )
    }

    /// How many of the visits in `source_order` go to other nodes.
    pub open spec fn remote_visits(self) -> int {
        remote_visits(self.groups_per_node(), self.nodes())
    }

    /// Whether the number of ranks and experts leaves room for indices in a `usize`.
    pub open spec fn addressable(self) -> bool {
        2 * self.world_size + 2 * self.num_experts <= usize::MAX
    }

    /// Whether the sizes describe a cluster in which this rank has a place and every group that
    /// the rank visits exists and is visited once.
    pub open spec fn valid(self) -> bool {
        &&& 0 < self.dp_size <= self.node_size
        &&& self.dp_size <= self.world_size
        &&& self.rank_of(self.groups() - 1) < self.world_size
        &&& self.addressable()
        &&& forall|i: int|
            #![trigger self.source_order()[i]]
            0 <= i < self.source_order().len() ==> 0 <= self.source_order()[i] < self.groups()
        &&& self.source_order().no_duplicates()
    }

    /// Whether the ranks fill whole groups and whole nodes.
    pub open spec fn regular(self) -> bool {
        &&& 0 < self.dp_size
        &&& 0 < self.node_size
        &&& 0 < self.world_size
        &&& self.node_size as int % self.dp_size as int == 0
        &&& self.world_size as int % self.node_size as int == 0
        &&& self.dp_rank < self.dp_size
        &&& self.dp_group < self.groups()
    }
}

/// How many source groups lie on other nodes.
pub open spec fn remote_visits(groups_per_node: int, num_nodes: int) -> int {
    if num_nodes >= 1 && groups_per_node >= 0 {
        (num_nodes - 1) * groups_per_node
    } else {
        0
    }
}

/// The groups of the other nodes, node after node, starting with the node after this one.
pub open spec fn remote_order(rank_node: int, groups_per_node: int, num_nodes: int) -> Seq<int> {
    Seq::new(
        remote_visits(groups_per_node, num_nodes) as nat,
        |i: int|
            (rank_node + 1 + i / groups_per_node) % num_nodes * groups_per_node + i
                % groups_per_node,
    )
}

/// The other groups of this node, starting with the group after this one.
pub open spec fn local_order(dp_group: int, rank_node: int, groups_per_node: int) -> Seq<int> {
    Seq::new(
        (if groups_per_node >= 1 { groups_per_node - 1 } else { 0 }) as nat,
        |i: int| rank_node * groups_per_node + (dp_group + 1 + i) % groups_per_node,
    )
}

/// The order in which source groups are taken in: those of the other nodes, then the other
/// groups of this node, then this group itself.
pub open spec fn source_order(
    dp_group: int,
    rank_node: int,
    groups_per_node: int,
    num_nodes: int,
) -> Seq<int> {
    remote_order(rank_node, groups_per_node, num_nodes) + local_order(
        dp_group,
        rank_node,
        groups_per_node,
    ) + seq![dp_group]
}

/// Lists the source groups in the order in which their tokens are taken in.
pub fn ordered_source_groups(
    dp_group: usize,
    rank_node: usize,
    groups_per_node: usize,
    num_nodes: usize,
) -> (source_groups: Vec<usize>)
    requires
        num_nodes > 1 ==> rank_node + num_nodes - 1 <= usize::MAX,
        num_nodes * groups_per_node <= usize::MAX,
        groups_per_node > 1 ==> dp_group + groups_per_node - 1 <= usize::MAX,
        groups_per_node > 1 ==> rank_node * groups_per_node + groups_per_node - 1 <= usize::MAX,
    ensures
        source_groups@.map_values(|g: usize| g as int) == source_order(
            dp_group as int,
            rank_node as int,
            groups_per_node as int,
            num_nodes as int,
        ),
{
    let ghost remote = remote_order(rank_node as int, groups_per_node as int, num_nodes as int);
    let ghost local = local_order(dp_group as int, rank_node as int, groups_per_node as int);
    let mut source_groups: Vec<usize> = Vec::new();
    let mut node_offset: usize = 1;
    proof {
        assert(0 * groups_per_node == 0) by (nonlinear_arith);
        assert((num_nodes - 1) * groups_per_node == num_nodes * groups_per_node - groups_per_node)
            by (nonlinear_arith);
        assert(num_nodes >= 1 ==> (num_nodes - 1) * groups_per_node >= 0) by (nonlinear_arith);
    }
    while node_offset < num_nodes
        invariant
            1 <= node_offset,
            node_offset == 1 || node_offset <= num_nodes,
            num_nodes > 1 ==> rank_node + num_nodes - 1 <= usize::MAX,
            num_nodes * groups_per_node <= usize::MAX,
            remote == remote_order(rank_node as int, groups_per_node as int, num_nodes as int),
            source_groups@.len() == (node_offset - 1) * groups_per_node,
            forall|i: int| 0 <= i < source_groups@.len() ==> source_groups@[i] == remote[i],
            num_nodes >= 1 ==> source_groups@.len() <= remote.len(),
        decreases num_nodes - node_offset,
    {
        let node: usize = (rank_node + node_offset) % num_nodes;
        let mut group_in_node: usize = 0;
        let ghost start = source_groups@.len() as int;
        proof {
            assert((node_offset - 1) * groups_per_node + groups_per_node == node_offset * groups_per_node)
                by (nonlinear_arith);
            assert(node_offset * groups_per_node <= (num_nodes - 1) * groups_per_node)
                by (nonlinear_arith)
                requires node_offset <= num_nodes - 1;
            assert(node * groups_per_node + groups_per_node <= num_nodes * groups_per_node)
                by (nonlinear_arith)
                requires node + 1 <= num_nodes;
        }
        while group_in_node < groups_per_node
            invariant
                group_in_node <= groups_per_node,
                1 <= node_offset < num_nodes,
                node == (rank_node + node_offset) % num_nodes as int,
                node * groups_per_node + groups_per_node <= num_nodes * groups_per_node <= usize::MAX,
                remote == remote_order(rank_node as int, groups_per_node as int, num_nodes as int),
                start == (node_offset - 1) * groups_per_node,
                start + groups_per_node <= remote.len(),
                source_groups@.len() == start + group_in_node,
                forall|i: int| 0 <= i < source_groups@.len() ==> source_groups@[i] == remote[i],
            decreases groups_per_node - group_in_node,
        {
            proof {
                lemma_fundamental_div_mod_converse(
                    start + group_in_node,
                    groups_per_node as int,
                    node_offset - 1,
                    group_in_node as int,
                );
                assert(0 <= node * groups_per_node) by (nonlinear_arith);
            }
            source_groups.push(node * groups_per_node + group_in_node);
            group_in_node = group_in_node + 1;
        }
        node_offset = node_offset + 1;
    }
    proof {
        assert((num_nodes >= 1 ==> node_offset == num_nodes) && (num_nodes == 0 ==> node_offset == 1));
        assert(source_groups@.len() == remote.len());
    }
    let mut local_group_offset: usize = 1;
    while local_group_offset < groups_per_node
        invariant
            1 <= local_group_offset,
            local_group_offset == 1 || local_group_offset <= groups_per_node,
            groups_per_node > 1 ==> dp_group + groups_per_node - 1 <= usize::MAX,
            groups_per_node > 1 ==> rank_node * groups_per_node + groups_per_node - 1 <= usize::MAX,
            local == local_order(dp_group as int, rank_node as int, groups_per_node as int),
            source_groups@.len() == remote.len() + local_group_offset - 1,
            forall|i: int| 0 <= i < source_groups@.len() ==> source_groups@[i] == (remote + local)[i],
        decreases groups_per_node - local_group_offset,
    {
        proof {
            assert(0 <= rank_node * groups_per_node) by (nonlinear_arith);
        }
        source_groups.push(
            rank_node * groups_per_node + (dp_group + local_group_offset) % groups_per_node,
        );
        local_group_offset = local_group_offset + 1;
    }
    source_groups.push(dp_group);
    source_groups
}

/// Stepping `1 + step` places around a ring of `size` places.
proof fn lemma_ring_step(start: int, step: int, size: int)
    requires
        0 <= start < size,
        0 <= step < size,
    ensures
        (start + 1 + step) % size == if start + 1 + step < size {
            start + 1 + step
        } else {
            start + 1 + step - size
        },
{
    if start + 1 + step < size {
        lemma_fundamental_div_mod_converse(start + 1 + step, size, 0, start + 1 + step);
    } else {
        lemma_fundamental_div_mod_converse(start + 1 + step, size, 1, start + 1 + step - size);
    }
}

/// In a regular cluster the groups fill the nodes, and this group sits on this rank's node.
pub proof fn lemma_regular(c: Cluster)
    requires
        c.regular(),
    ensures
        0 < c.groups_per_node(),
        0 < c.nodes(),
        c.groups() == c.nodes() * c.groups_per_node(),
        c.node_size == c.groups_per_node() * c.dp_size,
        c.world_size == c.groups() * c.dp_size,
        c.rank_node() == c.dp_group as int / c.groups_per_node(),
        0 <= c.rank_node() < c.nodes(),
        c.dp_group == c.rank_node() * c.groups_per_node() + c.dp_group as int
            % c.groups_per_node(),
        c.rank() < c.world_size,
{
    let gpn = c.groups_per_node();
    let n = c.nodes();
    let dp = c.dp_size as int;
    lemma_fundamental_div_mod(c.node_size as int, dp);
    lemma_fundamental_div_mod(c.world_size as int, c.node_size as int);
    assert(c.node_size == gpn * dp) by (nonlinear_arith)
        requires
            c.node_size == dp * gpn,
    ;
    assert(c.world_size == (n * gpn) * dp) by (nonlinear_arith)
        requires
            c.world_size == c.node_size * n,
            c.node_size == dp * gpn,
    ;
    lemma_fundamental_div_mod_converse(c.world_size as int, dp, n * gpn, 0);
    assert(0 < gpn) by (nonlinear_arith)
        requires
            c.node_size == gpn * dp,
            0 < c.node_size,
            0 < dp,
    ;
    assert(0 < n) by (nonlinear_arith)
        requires
            c.world_size == c.node_size * n,
            0 < c.world_size,
            0 < c.node_size,
    ;
    lemma_group_node(c, c.dp_group as int);
    let q = c.dp_group as int / gpn;
    lemma_fundamental_div_mod(c.dp_group as int, gpn);
    assert(q * gpn == gpn * q) by (nonlinear_arith);
    assert(q < n) by (nonlinear_arith)
        requires
            gpn * q <= c.dp_group < n * gpn,
            0 < gpn,
    ;
    assert(0 <= q) by (nonlinear_arith)
        requires
            0 <= c.dp_group == gpn * q + c.dp_group as int % gpn,
            c.dp_group as int % gpn < gpn,
            0 < gpn,
    ;
    assert(c.dp_group * dp + dp <= (n * gpn) * dp) by (nonlinear_arith)
        requires
            c.dp_group + 1 <= n * gpn,
            0 < dp,
    ;
}

/// In a regular cluster the peer in a group sits on the node that holds the group.
pub proof fn lemma_group_node(c: Cluster, group: int)
    requires
        0 <= group,
        0 < c.dp_size,
        0 < c.groups_per_node(),
        c.node_size == c.groups_per_node() * c.dp_size,
        c.dp_rank < c.dp_size,
    ensures
        c.rank_of(group) / c.node_size as int == group / c.groups_per_node(),
        c.rank_of(group) / c.dp_size as int == group,
        c.rank_of(group) % c.dp_size as int == c.dp_rank,
{
    let gpn = c.groups_per_node();
    let dp = c.dp_size as int;
    let q = group / gpn;
    let r = group % gpn;
    lemma_fundamental_div_mod(group, gpn);
    lemma_mod_bound(group, gpn);
    assert(group * dp + c.dp_rank == q * (gpn * dp) + (r * dp + c.dp_rank)) by (nonlinear_arith)
        requires
            group == gpn * q + r,
    ;
    assert(0 <= r * dp + c.dp_rank < gpn * dp) by (nonlinear_arith)
        requires
            0 <= r < gpn,
            0 <= c.dp_rank < dp,
    ;
    lemma_fundamental_div_mod_converse(c.rank_of(group), gpn * dp, q, r * dp + c.dp_rank);
    lemma_fundamental_div_mod_converse(c.rank_of(group), dp, group, c.dp_rank as int);
}

/// The node and the place within the node of the group at position `i` of the source order.
proof fn lemma_visit_place(c: Cluster, i: int)
    requires
        c.regular(),
        0 <= i < c.source_order().len(),
    ensures
        ({
            let gpn = c.groups_per_node();
            let group = c.source_order()[i];
            &&& 0 <= group < c.groups()
            &&& i < c.remote_visits() ==> {
                &&& 0 <= i / gpn < c.nodes() - 1
                &&& group / gpn == (c.rank_node() + 1 + i / gpn) % c.nodes()
                &&& group / gpn != c.rank_node()
                &&& group % gpn == i % gpn
            }
            &&& c.remote_visits() <= i ==> group / gpn == c.rank_node()
            &&& c.remote_visits() <= i < c.remote_visits() + gpn - 1 ==> {
                &&& group % gpn == (c.dp_group as int % gpn + 1 + (i - c.remote_visits())) % gpn
                &&& group != c.dp_group
            }
            &&& c.remote_visits() + gpn - 1 <= i ==> group == c.dp_group
        }),
        c.source_order().len() == c.groups(),
{
    lemma_regular(c);
    let gpn = c.groups_per_node();
    let n = c.nodes();
    let rn = c.rank_node();
    let dg = c.dp_group as int;
    let rv = c.remote_visits();
    assert((n - 1) * gpn == n * gpn - gpn) by (nonlinear_arith);
    assert(0 <= (n - 1) * gpn) by (nonlinear_arith)
        requires
            0 <= n - 1,
            0 < gpn,
    ;
    let group = c.source_order()[i];
    lemma_mod_bound(dg, gpn);
    if i < rv {
        let a = i / gpn;
        let b = i % gpn;
        lemma_fundamental_div_mod(i, gpn);
        lemma_mod_bound(i, gpn);
        assert(0 <= a < n - 1) by (nonlinear_arith)
            requires
                0 <= i < (n - 1) * gpn,
                i == gpn * a + b,
                0 <= b < gpn,
        ;
        lemma_ring_step(rn, a, n);
        let node = (rn + 1 + a) % n;
        lemma_fundamental_div_mod_converse(group, gpn, node, b);
        assert(node * gpn + gpn <= n * gpn) by (nonlinear_arith)
            requires
                node + 1 <= n,
                0 < gpn,
        ;
        assert(0 <= node * gpn) by (nonlinear_arith)
            requires
                0 <= node,
                0 < gpn,
        ;
    } else if i < rv + gpn - 1 {
        let j = i - rv;
        lemma_ring_step(dg % gpn, j, gpn);
        vstd::arithmetic::div_mod::lemma_add_mod_noop(dg, 1 + j, gpn);
        vstd::arithmetic::div_mod::lemma_add_mod_noop(dg % gpn, 1 + j, gpn);
        vstd::arithmetic::div_mod::lemma_mod_twice(dg, gpn);
        let w = (dg + 1 + j) % gpn;
        assert(w == (dg % gpn + 1 + j) % gpn);
        lemma_fundamental_div_mod_converse(group, gpn, rn, w);
        assert(rn * gpn + gpn <= n * gpn) by (nonlinear_arith)
            requires
                rn + 1 <= n,
                0 < gpn,
        ;
        assert(0 <= rn * gpn) by (nonlinear_arith)
            requires
                0 <= rn,
                0 < gpn,
        ;
    } else {
        assert(i == c.groups() - 1);
    }
}

/// In a regular cluster a rank takes in every source group exactly once: first the groups of
/// the other nodes, then the other groups of its own node, and its own group last.
pub proof fn law_source_order_remote_local_self(c: Cluster)
    requires
        c.regular(),
    ensures
        c.source_order().len() == c.groups(),
        c.source_order().no_duplicates(),
        forall|g: int| 0 <= g < c.groups() ==> #[trigger] c.source_order().contains(g),
        forall|i: int|
            0 <= i < c.groups() ==> 0 <= #[trigger] c.source_order()[i] < c.groups(),
        forall|i: int|
            0 <= i < c.groups() ==> (i < c.remote_visits() <==> !c.same_node(
                #[trigger] c.source_order()[i],
            )),
        forall|i: int|
            0 <= i < c.groups() ==> (i == c.groups() - 1 <==> #[trigger] c.source_order()[i]
                == c.dp_group),
{
    lemma_regular(c);
    let order = c.source_order();
    let gpn = c.groups_per_node();
    let n = c.nodes();
    let rn = c.rank_node();
    let rv = c.remote_visits();
    assert((n - 1) * gpn == n * gpn - gpn) by (nonlinear_arith);
    assert(0 <= (n - 1) * gpn) by (nonlinear_arith)
        requires
            0 <= n - 1,
            0 < gpn,
    ;
    assert(order.len() == c.groups());
    assert forall|i: int| 0 <= i < c.groups() implies 0 <= #[trigger] order[i] < c.groups() && (i
        < rv <==> !c.same_node(order[i])) && (i == c.groups() - 1 <==> order[i]
        == c.dp_group) by {
        lemma_visit_place(c, i);
        lemma_group_node(c, order[i]);
    }
    assert forall|i: int, j: int| 0 <= i < j < order.len() implies order[i] != order[j] by {
        lemma_visit_place(c, i);
        lemma_visit_place(c, j);
        if order[i] == order[j] {
            if j < rv {
                lemma_fundamental_div_mod(i, gpn);
                lemma_fundamental_div_mod(j, gpn);
                lemma_ring_step(rn, i / gpn, n);
                lemma_ring_step(rn, j / gpn, n);
                assert(i / gpn == j / gpn);
                assert(false);
            } else if rv <= i && j < rv + gpn - 1 {
                lemma_ring_step(c.dp_group as int % gpn, i - rv, gpn);
                lemma_ring_step(c.dp_group as int % gpn, j - rv, gpn);
                assert(false);
            }
        }
    }
    assert forall|g: int| 0 <= g < c.groups() implies #[trigger] order.contains(g) by {
        let node = g / gpn;
        let w = g % gpn;
        lemma_fundamental_div_mod(g, gpn);
        lemma_mod_bound(g, gpn);
        assert(0 <= node < n) by (nonlinear_arith)
            requires
                0 <= g < n * gpn,
                g == gpn * node + w,
                0 <= w < gpn,
        ;
        assert(node * gpn == gpn * node) by (nonlinear_arith);
        if node != rn {
            let a = if node > rn { node - rn - 1 } else { node + n - rn - 1 };
            lemma_ring_step(rn, a, n);
            let i = a * gpn + w;
            assert(0 <= i < (n - 1) * gpn) by (nonlinear_arith)
                requires
                    0 <= a < n - 1,
                    0 <= w < gpn,
                    i == a * gpn + w,
            ;
            lemma_fundamental_div_mod_converse(i, gpn, a, w);
            lemma_visit_place(c, i);
            assert(order[i] == g);
        } else if g != c.dp_group {
            let d = c.dp_group as int % gpn;
            lemma_mod_bound(c.dp_group as int, gpn);
            assert(w != d);
            let j = if w > d { w - d - 1 } else { w + gpn - d - 1 };
            lemma_ring_step(d, j, gpn);
            lemma_visit_place(c, rv + j);
            lemma_fundamental_div_mod(order[rv + j], gpn);
            assert(order[rv + j] == g);
        } else {
            assert(order[c.groups() - 1] == g);
        }
    }
}

/// A regular cluster whose indices fit is a valid one.
pub proof fn law_regular_is_valid(c: Cluster)
    requires
        c.regular(),
        c.addressable(),
    ensures
        c.valid(),
{
    lemma_regular(c);
    law_source_order_remote_local_self(c);
    let gpn = c.groups_per_node();
    assert(c.dp_size <= gpn * c.dp_size) by (nonlinear_arith)
        requires
            1 <= gpn,
            0 < c.dp_size,
    ;
    assert(c.dp_size <= c.groups() * c.dp_size) by (nonlinear_arith)
        requires
            1 <= c.groups(),
            0 < c.dp_size,
    ;
    assert((c.groups() - 1) * c.dp_size == c.groups() * c.dp_size - c.dp_size)
        by (nonlinear_arith);
}

} // verus!
