//! The mathematical model of a routing table: sums over its cells and the order in which the
//! tokens it counts arrive at a rank.

use vstd::prelude::*;
use crate::cluster::Cluster;

verus! {

/// A routing table: how many tokens each source group sends to each expert.
pub type RouteTable = Seq<Seq<u32>>;

/// The routing table that nested vectors hold, one row per source group.
pub open spec fn table(rows: &Vec<Vec<u32>>) -> RouteTable {
    Seq::new(rows@.len(), |g: int| rows@[g]@)
}

/// Whether the table has a cell for every group and expert of the cluster.
pub open spec fn covers(t: RouteTable, c: Cluster) -> bool {
    &&& c.groups() <= t.len()
    &&& forall|g: int| 0 <= g < c.groups() ==> c.num_experts <= (#[trigger] t[g]).len()
}

/// The tokens that `group` sends to the experts from `lo` up to, not including, `hi`.
pub open spec fn row_sum(t: RouteTable, group: int, lo: int, hi: int) -> int
    decreases hi - lo,
{
    if hi <= lo {
        0
    } else {
        row_sum(t, group, lo, hi - 1) + t[group][hi - 1]
    }
}

/// The tokens that the first `n` groups of `order` send to the experts from `lo` up to `hi`.
pub open spec fn visited_sum(t: RouteTable, order: Seq<int>, lo: int, hi: int, n: int) -> int
    decreases n,
{
    if n <= 0 {
        0
    } else {
        visited_sum(t, order, lo, hi, n - 1) + row_sum(t, order[n - 1], lo, hi)
    }
}

/// The groups in ascending order.
pub open spec fn ascending(groups: int) -> Seq<int> {
    Seq::new(groups as nat, |i: int| i)
}

/// One token on its way to this rank: it comes with visit number `visit` of the source order,
/// for the local expert `local_expert`, as number `index` of the tokens for that expert that
/// come with that visit.
pub struct Arrival {
    pub visit: int,
    pub local_expert: int,
    pub index: int,
}

impl Cluster {
    /// The tokens that `group` sends to this rank.
    pub open spec fn from_group(self, t: RouteTable, group: int) -> int {
        row_sum(t, group, self.first_local(), self.last_local())
    }

    /// The tokens that the groups below `group` send to this rank.
    pub open spec fn from_groups_below(self, t: RouteTable, group: int) -> int {
        visited_sum(t, ascending(self.groups()), self.first_local(), self.last_local(), group)
    }

    /// The tokens that all groups send to this rank.
    pub open spec fn received(self, t: RouteTable) -> int {
        self.from_groups_below(t, self.groups())
    }

    /// The tokens that `group` sends to ranks below this one.
    pub open spec fn from_group_to_lower(self, t: RouteTable, group: int) -> int {
        row_sum(t, group, 0, self.first_local())
    }

    /// The tokens that all groups send to one local expert.
    pub open spec fn for_expert(self, t: RouteTable, local_expert: int) -> int {
        visited_sum(
            t,
            ascending(self.groups()),
            self.first_local() + local_expert,
            self.first_local() + local_expert + 1,
            self.groups(),
        )
    }

    /// The tokens that arrive with the first `visits` visits.
    pub open spec fn arrived(self, t: RouteTable, visits: int) -> int {
        visited_sum(t, self.source_order(), self.first_local(), self.last_local(), visits)
    }

    /// The tokens for one local expert that arrive with the first `visits` visits.
    pub open spec fn arrived_for_expert(self, t: RouteTable, local_expert: int, visits: int) -> int {
        visited_sum(
            t,
            self.source_order(),
            self.first_local() + local_expert,
            self.first_local() + local_expert + 1,
            visits,
        )
    }

    /// The tokens that this rank's group sends to `group`.
    pub open spec fn to_group(self, t: RouteTable, group: int) -> int {
        row_sum(t, self.dp_group as int, self.first_expert(group), self.last_expert(group))
    }

    /// The tokens that this rank's group sends to the groups below `group`.
    pub open spec fn to_groups_below(self, t: RouteTable, group: int) -> int {
        row_sum(
            t,
            self.dp_group as int,
            0,
            crate::arith::min_spec(self.first_expert(group), self.num_experts as int),
        )
    }

    /// The tokens of one visit for the local experts below `local_experts`, in order.
    pub open spec fn visit_arrivals(self, t: RouteTable, visit: int, local_experts: int) -> Seq<
        Arrival,
    >
        decreases local_experts,
    {
        if local_experts <= 0 {
            Seq::empty()
        } else {
            self.visit_arrivals(t, visit, local_experts - 1) + Seq::new(
                t[self.source_order()[visit]][self.first_local() + local_experts - 1] as nat,
                |k: int| Arrival { visit, local_expert: local_experts - 1, index: k },
            )
        }
    }

    /// The tokens of the first `visits` visits, in order.
    pub open spec fn arrivals_of(self, t: RouteTable, visits: int) -> Seq<Arrival>
        decreases visits,
    {
        if visits <= 0 {
            Seq::empty()
        } else {
            self.arrivals_of(t, visits - 1) + self.visit_arrivals(
                t,
                visits - 1,
                self.local_experts(),
            )
        }
    }

    /// All tokens that arrive at this rank, in order: visit by visit, within a visit expert by
    /// expert.
    pub open spec fn arrivals(self, t: RouteTable) -> Seq<Arrival> {
        self.arrivals_of(t, self.source_order().len() as int)
    }

    /// The group that an arriving token comes from.
    pub open spec fn source_group(self, a: Arrival) -> int {
        self.source_order()[a.visit]
    }

    /// The number of an arriving token among those that its group sends to this rank.
    pub open spec fn index_in_group(self, t: RouteTable, a: Arrival) -> int {
        row_sum(
            t,
            self.source_group(a),
            self.first_local(),
            self.first_local() + a.local_expert,
        ) + a.index
    }

    /// The number of an arriving token among those for its expert.
    pub open spec fn index_in_expert(self, t: RouteTable, a: Arrival) -> int {
        self.arrived_for_expert(t, a.local_expert, a.visit) + a.index
    }

    /// The number of an arriving token among all tokens that its group sends to any rank.
    pub open spec fn index_at_source(self, t: RouteTable, a: Arrival) -> int {
        row_sum(t, self.source_group(a), 0, self.first_local() + a.local_expert) + a.index
    }
}

pub proof fn lemma_row_sum_nonneg(t: RouteTable, group: int, lo: int, hi: int)
    ensures
        0 <= row_sum(t, group, lo, hi),
    decreases hi - lo,
{
    if lo < hi {
        lemma_row_sum_nonneg(t, group, lo, hi - 1);
    }
}

pub proof fn lemma_row_sum_split(t: RouteTable, group: int, lo: int, mid: int, hi: int)
    requires
        lo <= mid <= hi,
    ensures
        row_sum(t, group, lo, hi) == row_sum(t, group, lo, mid) + row_sum(t, group, mid, hi),
    decreases hi - mid,
{
    if mid < hi {
        lemma_row_sum_split(t, group, lo, mid, hi - 1);
    }
}

/// A sum over fewer experts is not larger.
pub proof fn lemma_row_sum_within(t: RouteTable, group: int, lo: int, hi: int, a: int, b: int)
    requires
        lo <= a,
        b <= hi,
    ensures
        row_sum(t, group, a, b) <= row_sum(t, group, lo, hi),
{
    lemma_row_sum_nonneg(t, group, lo, hi);
    if a <= b {
        lemma_row_sum_split(t, group, lo, a, hi);
        lemma_row_sum_split(t, group, a, b, hi);
        lemma_row_sum_nonneg(t, group, lo, a);
        lemma_row_sum_nonneg(t, group, b, hi);
    }
}

pub proof fn lemma_row_sum_cell(t: RouteTable, group: int, expert: int)
    ensures
        row_sum(t, group, expert, expert + 1) == t[group][expert],
{
    reveal_with_fuel(row_sum, 2);
}

pub proof fn lemma_visited_sum_nonneg(t: RouteTable, order: Seq<int>, lo: int, hi: int, n: int)
    ensures
        0 <= visited_sum(t, order, lo, hi, n),
    decreases n,
{
    if n > 0 {
        lemma_visited_sum_nonneg(t, order, lo, hi, n - 1);
        lemma_row_sum_nonneg(t, order[n - 1], lo, hi);
    }
}

pub proof fn lemma_visited_sum_monotone(
    t: RouteTable,
    order: Seq<int>,
    lo: int,
    hi: int,
    m: int,
    n: int,
)
    requires
        m <= n,
    ensures
        visited_sum(t, order, lo, hi, m) <= visited_sum(t, order, lo, hi, n),
    decreases n - m,
{
    if m < n {
        lemma_visited_sum_monotone(t, order, lo, hi, m, n - 1);
        lemma_row_sum_nonneg(t, order[n - 1], lo, hi);
        lemma_visited_sum_nonneg(t, order, lo, hi, n);
    }
}

/// The tokens that those of the first `groups` groups that lie in `chosen` send to the experts
/// from `lo` up to `hi`.
pub open spec fn chosen_sum(t: RouteTable, chosen: Set<int>, lo: int, hi: int, groups: int) -> int
    decreases groups,
{
    if groups <= 0 {
        0
    } else {
        chosen_sum(t, chosen, lo, hi, groups - 1) + if chosen.contains(groups - 1) {
            row_sum(t, groups - 1, lo, hi)
        } else {
            0
        }
    }
}

proof fn lemma_chosen_sum_insert(
    t: RouteTable,
    chosen: Set<int>,
    group: int,
    lo: int,
    hi: int,
    groups: int,
)
    requires
        !chosen.contains(group),
    ensures
        chosen_sum(t, chosen.insert(group), lo, hi, groups) == chosen_sum(
            t,
            chosen,
            lo,
            hi,
            groups,
        ) + if 0 <= group < groups { row_sum(t, group, lo, hi) } else { 0 },
    decreases groups,
{
    if groups > 0 {
        lemma_chosen_sum_insert(t, chosen, group, lo, hi, groups - 1);
    }
}

proof fn lemma_chosen_sum_empty(t: RouteTable, lo: int, hi: int, groups: int)
    ensures
        chosen_sum(t, Set::empty(), lo, hi, groups) == 0,
    decreases groups,
{
    if groups > 0 {
        lemma_chosen_sum_empty(t, lo, hi, groups - 1);
    }
}

pub proof fn lemma_visited_is_chosen(
    t: RouteTable,
    order: Seq<int>,
    lo: int,
    hi: int,
    n: int,
    groups: int,
)
    requires
        order.no_duplicates(),
        forall|i: int| 0 <= i < order.len() ==> 0 <= #[trigger] order[i] < groups,
        0 <= n <= order.len(),
    ensures
        visited_sum(t, order, lo, hi, n) == chosen_sum(t, order.take(n).to_set(), lo, hi, groups),
    decreases n,
{
    if n == 0 {
        assert(order.take(0).to_set() =~= Set::empty());
        lemma_chosen_sum_empty(t, lo, hi, groups);
    } else {
        lemma_visited_is_chosen(t, order, lo, hi, n - 1, groups);
        let shorter = order.take(n - 1);
        let longer = order.take(n);
        let before = shorter.to_set();
        let group = order[n - 1];
        assert(!before.contains(group)) by {
            if before.contains(group) {
                let j = choose|j: int| 0 <= j < shorter.len() && shorter[j] == group;
                assert(order[j] == order[n - 1]);
            }
        }
        assert(longer.to_set() =~= before.insert(group)) by {
            assert forall|x: int| longer.to_set().contains(x) implies before.insert(
                group,
            ).contains(x) by {
                let j = choose|j: int| 0 <= j < longer.len() && longer[j] == x;
                if j < n - 1 {
                    assert(shorter[j] == x);
                }
            }
            assert forall|x: int| before.insert(group).contains(x) implies longer.to_set().contains(
                x,
            ) by {
                if x == group {
                    assert(longer[n - 1] == x);
                } else {
                    let j = choose|j: int| 0 <= j < shorter.len() && shorter[j] == x;
                    assert(longer[j] == x);
                }
            }
        }
        lemma_chosen_sum_insert(t, before, group, lo, hi, groups);
    }
}

proof fn lemma_chosen_sum_all(
    t: RouteTable,
    chosen: Set<int>,
    lo: int,
    hi: int,
    groups: int,
    total: int,
)
    requires
        groups <= total,
    ensures
        chosen_sum(t, chosen, lo, hi, groups) <= visited_sum(t, ascending(total), lo, hi, groups),
        (forall|g: int| 0 <= g < groups ==> chosen.contains(g)) ==> chosen_sum(
            t,
            chosen,
            lo,
            hi,
            groups,
        ) == visited_sum(t, ascending(total), lo, hi, groups),
    decreases groups,
{
    if groups > 0 {
        lemma_chosen_sum_all(t, chosen, lo, hi, groups - 1, total);
        lemma_row_sum_nonneg(t, groups - 1, lo, hi);
        if forall|g: int| 0 <= g < groups ==> chosen.contains(g) {
            assert(chosen.contains(groups - 1));
        }
    }
}

/// Groups that are visited at most once send no more than all groups together.
pub proof fn lemma_visited_at_most_all(
    t: RouteTable,
    order: Seq<int>,
    lo: int,
    hi: int,
    n: int,
    groups: int,
)
    requires
        order.no_duplicates(),
        forall|i: int| 0 <= i < order.len() ==> 0 <= #[trigger] order[i] < groups,
        0 <= n <= order.len(),
    ensures
        visited_sum(t, order, lo, hi, n) <= visited_sum(t, ascending(groups), lo, hi, groups),
{
    lemma_visited_is_chosen(t, order, lo, hi, n, groups);
    lemma_chosen_sum_all(t, order.take(n).to_set(), lo, hi, groups, groups);
}

/// Visiting every group once gives the sum over all groups.
pub proof fn lemma_visited_all(t: RouteTable, order: Seq<int>, lo: int, hi: int, groups: int)
    requires
        order.no_duplicates(),
        forall|i: int| 0 <= i < order.len() ==> 0 <= #[trigger] order[i] < groups,
        forall|g: int| 0 <= g < groups ==> #[trigger] order.contains(g),
    ensures
        visited_sum(t, order, lo, hi, order.len() as int) == visited_sum(
            t,
            ascending(groups),
            lo,
            hi,
            groups,
        ),
{
    lemma_visited_is_chosen(t, order, lo, hi, order.len() as int, groups);
    assert(order.take(order.len() as int) =~= order);
    assert forall|g: int| 0 <= g < groups implies order.to_set().contains(g) by {
        assert(order.contains(g));
    }
    lemma_chosen_sum_all(t, order.to_set(), lo, hi, groups, groups);
}

/// The number of tokens in the arrival sequences.
pub proof fn lemma_visit_arrivals_len(c: Cluster, t: RouteTable, visit: int, local_experts: int)
    requires
        0 <= local_experts,
    ensures
        c.visit_arrivals(t, visit, local_experts).len() == row_sum(
            t,
            c.source_order()[visit],
            c.first_local(),
            c.first_local() + local_experts,
        ),
    decreases local_experts,
{
    if local_experts > 0 {
        lemma_visit_arrivals_len(c, t, visit, local_experts - 1);
    }
}

/// The number of tokens that arrive with the first visits.
pub proof fn lemma_arrivals_len(c: Cluster, t: RouteTable, visits: int)
    requires
        0 <= c.local_experts(),
    ensures
        c.arrivals_of(t, visits).len() == c.arrived(t, visits),
    decreases visits,
{
    if visits > 0 {
        lemma_arrivals_len(c, t, visits - 1);
        lemma_visit_arrivals_len(c, t, visits - 1, c.local_experts());
    }
}

proof fn lemma_visit_arrival_at(
    c: Cluster,
    t: RouteTable,
    visit: int,
    local_experts: int,
    local_expert: int,
    k: int,
)
    requires
        0 <= local_expert < local_experts,
        0 <= k < t[c.source_order()[visit]][c.first_local() + local_expert],
    ensures
        ({
            let place = row_sum(
                t,
                c.source_order()[visit],
                c.first_local(),
                c.first_local() + local_expert,
            ) + k;
            &&& 0 <= place < c.visit_arrivals(t, visit, local_experts).len()
            &&& c.visit_arrivals(t, visit, local_experts)[place] == (Arrival {
                visit,
                local_expert,
                index: k,
            })
        }),
    decreases local_experts,
{
    lemma_visit_arrivals_len(c, t, visit, local_experts - 1);
    lemma_row_sum_nonneg(
        t,
        c.source_order()[visit],
        c.first_local(),
        c.first_local() + local_expert,
    );
    if local_expert < local_experts - 1 {
        lemma_visit_arrival_at(c, t, visit, local_experts - 1, local_expert, k);
    }
}

/// Where a token stands in the arrival order.
pub proof fn lemma_arrival_at(
    c: Cluster,
    t: RouteTable,
    visits: int,
    visit: int,
    local_expert: int,
    k: int,
)
    requires
        0 <= visit < visits,
        0 <= local_expert < c.local_experts(),
        0 <= k < t[c.source_order()[visit]][c.first_local() + local_expert],
    ensures
        ({
            let place = c.arrived(t, visit) + row_sum(
                t,
                c.source_order()[visit],
                c.first_local(),
                c.first_local() + local_expert,
            ) + k;
            &&& 0 <= place < c.arrivals_of(t, visits).len()
            &&& c.arrivals_of(t, visits)[place] == (Arrival { visit, local_expert, index: k })
        }),
    decreases visits,
{
    lemma_arrivals_len(c, t, visits - 1);
    lemma_visited_sum_nonneg(t, c.source_order(), c.first_local(), c.last_local(), visit);
    lemma_row_sum_nonneg(
        t,
        c.source_order()[visit],
        c.first_local(),
        c.first_local() + local_expert,
    );
    if visit < visits - 1 {
        lemma_arrival_at(c, t, visits - 1, visit, local_expert, k);
    } else {
        lemma_visit_arrival_at(c, t, visit, c.local_experts(), local_expert, k);
    }
}

proof fn lemma_visit_arrival_valid(
    c: Cluster,
    t: RouteTable,
    visit: int,
    local_experts: int,
    p: int,
)
    requires
        0 <= p < c.visit_arrivals(t, visit, local_experts).len(),
    ensures
        ({
            let a = c.visit_arrivals(t, visit, local_experts)[p];
            &&& a.visit == visit
            &&& 0 <= a.local_expert < local_experts
            &&& 0 <= a.index < t[c.source_order()[visit]][c.first_local() + a.local_expert]
            &&& p == row_sum(
                t,
                c.source_order()[visit],
                c.first_local(),
                c.first_local() + a.local_expert,
            ) + a.index
        }),
    decreases local_experts,
{
    if local_experts > 0 {
        lemma_visit_arrivals_len(c, t, visit, local_experts - 1);
        if p < c.visit_arrivals(t, visit, local_experts - 1).len() {
            lemma_visit_arrival_valid(c, t, visit, local_experts - 1, p);
        }
    }
}

/// Every place in the arrival order holds a token that the table counts.
pub proof fn lemma_arrival_valid(c: Cluster, t: RouteTable, visits: int, p: int)
    requires
        0 <= c.local_experts(),
        0 <= p < c.arrivals_of(t, visits).len(),
    ensures
        ({
            let a = c.arrivals_of(t, visits)[p];
            &&& 0 <= a.visit < visits
            &&& 0 <= a.local_expert < c.local_experts()
            &&& 0 <= a.index < t[c.source_order()[a.visit]][c.first_local() + a.local_expert]
            &&& p == c.arrived(t, a.visit) + c.index_in_group(t, a)
        }),
    decreases visits,
{
    if visits > 0 {
        lemma_arrivals_len(c, t, visits - 1);
        if p < c.arrivals_of(t, visits - 1).len() {
            lemma_arrival_valid(c, t, visits - 1, p);
        } else {
            lemma_visit_arrival_valid(
                c,
                t,
                visits - 1,
                c.local_experts(),
                p - c.arrivals_of(t, visits - 1).len(),
            );
        }
    }
}

} // verus!
