//! The region as a read-only arborescence, laid out in pre-order.

use crate::houseinfo::{Building, UsageCounters};
use vstd::prelude::*;

verus! {

/// Sum of the first `n` entries of `values`.
pub open spec fn sum_upto(values: Seq<usize>, n: int) -> int
    decreases n,
{
    if n <= 0 {
        0
    } else {
        sum_upto(values, n - 1) + values[n - 1]
    }
}

/// Sum of those of the first `n` entries of `values` whose entry in `states`
/// is `mode`.
pub open spec fn sum_in_mode(values: Seq<usize>, states: Seq<usize>, mode: usize, n: int) -> int
    decreases n,
{
    if n <= 0 {
        0
    } else {
        sum_in_mode(values, states, mode, n - 1) + if states[n - 1] == mode {
            values[n - 1] as int
        } else {
            0
        }
    }
}

/// The mode a building starts the walk in: storage (1) where it has storage
/// to give, else lodging (2).
pub open spec fn initial_mode(storage_value: usize) -> usize {
    if storage_value > 0 {
        1
    } else {
        2
    }
}

/// Number of keys a fingerprint table needs for capacities up to `bound`.
pub open spec fn table_len(bound: int) -> int {
    (bound + 1) * (bound + 1)
}

/// A region: the root at index 0 and its buildings after it, in pre-order.
///
/// `children[i]` is the key of node `i` and `parents[i]` the key of its
/// parent. The descendants of node `i` are the nodes `i + 1 .. jump_indices[i]`.
#[derive(Clone, Debug)]
pub struct RegionNodes {
    pub num_nodes: usize,
    pub root: usize,
    pub parents: Vec<usize>,
    pub children: Vec<usize>,
    pub costs: Vec<usize>,
    pub states: Vec<usize>,
    pub warehouse_counts: Vec<usize>,
    pub worker_counts: Vec<usize>,
    pub jump_indices: Vec<usize>,
    pub usage_counts: UsageCounters,
    pub max_warehouse_count: usize,
    pub max_worker_count: usize,
}

impl RegionNodes {
    /// Node `a` is a proper ancestor of node `i`.
    pub open spec fn is_ancestor(&self, a: int, i: int) -> bool {
        0 <= a < i < self.jump_indices[a]
    }

    /// The larger of the two capacity bounds.
    pub open spec fn capacity_bound(&self) -> int {
        if self.max_worker_count >= self.max_warehouse_count {
            self.max_worker_count as int
        } else {
            self.max_warehouse_count as int
        }
    }

    /// The arrays all have `num_nodes` entries, of which the first is the root.
    pub open spec fn shape_wf(&self) -> bool {
        let n = self.num_nodes as int;
        &&& n >= 1
        &&& self.parents.len() == n
        &&& self.children.len() == n
        &&& self.costs.len() == n
        &&& self.states.len() == n
        &&& self.warehouse_counts.len() == n
        &&& self.worker_counts.len() == n
        &&& self.jump_indices.len() == n
        &&& self.root == self.children[0]
        &&& self.parents[0] == 0
        &&& self.costs[0] == 0
        &&& self.states[0] == 0
        &&& self.warehouse_counts[0] == 0
        &&& self.worker_counts[0] == 0
    }

    /// The jump indices delimit nested subtrees, and every other node's
    /// parent is the nearest node before it whose subtree holds it.
    pub open spec fn tree_wf(&self) -> bool {
        let n = self.num_nodes as int;
        &&& self.jump_indices[0] == n
        &&& forall|i: int| 0 <= i < n ==> i < #[trigger] self.jump_indices[i] <= n
        &&& forall|i: int, j: int|
            0 <= i < j < n && j < #[trigger] self.jump_indices[i] ==> #[trigger] self.jump_indices[j]
                <= self.jump_indices[i]
        &&& forall|i: int, j: int|
            0 <= i < j < n && #[trigger] self.children[i] == #[trigger] self.children[j] ==> false
        &&& forall|i: int|
            1 <= i < n ==> 0 <= #[trigger] self.parent_index(i) < i && self.is_ancestor(
                self.parent_index(i),
                i,
            ) && self.children[self.parent_index(i)] == self.parents[i]
        &&& forall|i: int, q: int|
            1 <= i < n && self.parent_index(i) < q < i ==> !#[trigger] self.is_ancestor(q, i)
    }

    /// Index of the parent of node `i`: the node whose key `parents[i]` names.
    pub open spec fn parent_index(&self, i: int) -> int {
        choose|p: int| 0 <= p < self.num_nodes && self.children[p] == self.parents[i]
    }

    /// Every building starts in the mode its storage value decides, and the
    /// totals are the sums they are named after.
    pub open spec fn totals_wf(&self) -> bool {
        let n = self.num_nodes as int;
        &&& forall|i: int|
            1 <= i < n ==> #[trigger] self.states[i] == initial_mode(self.warehouse_counts[i])
        &&& self.usage_counts.cost == sum_upto(self.costs@, n)
        &&& self.usage_counts.warehouse_count == sum_in_mode(
            self.warehouse_counts@,
            self.states@,
            1,
            n,
        )
        &&& self.usage_counts.worker_count == sum_in_mode(self.worker_counts@, self.states@, 2, n)
        &&& self.max_warehouse_count == sum_upto(self.warehouse_counts@, n)
        &&& self.max_worker_count == sum_upto(self.worker_counts@, n)
        &&& self.usage_counts.cost < usize::MAX
        &&& table_len(self.capacity_bound()) * 256 <= isize::MAX
    }

    /// Number of ways to go on from node `i`: to select some of the nodes
    /// `i ..`, each with all its ancestors among them, and to put each in
    /// storage mode or, where it starts so, in lodging mode. Node `i` is either
    /// selected in one of its modes, and the choice goes on with the next
    /// node, or left out with its whole subtree.
    pub open spec fn completions(&self, i: int) -> nat
        decreases self.num_nodes - i,
    {
        if 0 <= i < self.jump_indices.len() && i < self.states.len() && i < self.jump_indices[i]
            <= self.num_nodes {
            (self.states[i] * self.completions(i + 1) + self.completions(
                self.jump_indices[i] as int,
            )) as nat
        } else {
            1
        }
    }

    /// `completions` for the region cut off behind its first `limit` nodes.
    pub open spec fn completions_within(&self, i: int, limit: int) -> nat
        decreases limit - i,
    {
        if 0 <= i < limit && i < self.jump_indices.len() && i < self.states.len() && i
            < self.jump_indices[i] {
            let jump = if self.jump_indices[i] <= limit {
                self.jump_indices[i] as int
            } else {
                limit
            };
            (self.states[i] * self.completions_within(i + 1, limit) + self.completions_within(
                jump,
                limit,
            )) as nat
        } else {
            1
        }
    }

    /// `region` is this region cut off behind its first nodes.
    pub open spec fn is_prefix_of(&self, region: &RegionNodes) -> bool {
        let n = self.num_nodes as int;
        &&& n <= region.num_nodes
        &&& self.root == region.root
        &&& self.parents@ == region.parents@.take(n)
        &&& self.children@ == region.children@.take(n)
        &&& self.costs@ == region.costs@.take(n)
        &&& self.states@ == region.states@.take(n)
        &&& self.warehouse_counts@ == region.warehouse_counts@.take(n)
        &&& self.worker_counts@ == region.worker_counts@.take(n)
        &&& self.jump_indices.len() == n
        &&& forall|i: int|
            0 <= i < n ==> #[trigger] self.jump_indices[i] == if region.jump_indices[i] <= n {
                region.jump_indices[i]
            } else {
                self.num_nodes
            }
    }

    /// The region of the first `num_nodes` nodes: what is left when every
    /// later node is cut off.
    pub fn prefix(&self, num_nodes: usize) -> (region: RegionNodes)
        requires
            self.wf(),
            1 <= num_nodes <= self.num_nodes,
        ensures
            region.wf(),
            region.num_nodes == num_nodes,
            region.is_prefix_of(self),
    {
        let mut parents: Vec<usize> = Vec::new();
        let mut children: Vec<usize> = Vec::new();
        let mut costs: Vec<usize> = Vec::new();
        let mut states: Vec<usize> = Vec::new();
        let mut warehouse_counts: Vec<usize> = Vec::new();
        let mut worker_counts: Vec<usize> = Vec::new();
        let mut jump_indices: Vec<usize> = Vec::new();
        let mut usage_counts = UsageCounters::new();
        let mut max_warehouse_count: usize = 0;
        let mut max_worker_count: usize = 0;
        let mut i: usize = 0;
        while i < num_nodes
            invariant
                self.wf(),
                i <= num_nodes <= self.num_nodes,
                parents@ == self.parents@.take(i as int),
                children@ == self.children@.take(i as int),
                costs@ == self.costs@.take(i as int),
                states@ == self.states@.take(i as int),
                warehouse_counts@ == self.warehouse_counts@.take(i as int),
                worker_counts@ == self.worker_counts@.take(i as int),
                jump_indices.len() == i,
                forall|k: int|
                    0 <= k < i ==> #[trigger] jump_indices[k] == if self.jump_indices[k]
                        <= num_nodes {
                        self.jump_indices[k]
                    } else {
                        num_nodes
                    },
                usage_counts.cost == sum_upto(self.costs@, i as int),
                usage_counts.warehouse_count == sum_in_mode(
                    self.warehouse_counts@,
                    self.states@,
                    1,
                    i as int,
                ),
                usage_counts.worker_count == sum_in_mode(
                    self.worker_counts@,
                    self.states@,
                    2,
                    i as int,
                ),
                max_warehouse_count == sum_upto(self.warehouse_counts@, i as int),
                max_worker_count == sum_upto(self.worker_counts@, i as int),
            decreases num_nodes - i,
        {
            proof {
                let n = self.num_nodes as int;
                lemma_sum_upto_monotonic(self.costs@, i + 1, n);
                lemma_sum_upto_monotonic(self.warehouse_counts@, i + 1, n);
                lemma_sum_upto_monotonic(self.worker_counts@, i + 1, n);
                lemma_sum_in_mode_monotonic(self.warehouse_counts@, self.states@, 1, i + 1, n);
                lemma_sum_in_mode_monotonic(self.worker_counts@, self.states@, 2, i + 1, n);
            }
            parents.push(self.parents[i]);
            children.push(self.children[i]);
            costs.push(self.costs[i]);
            states.push(self.states[i]);
            warehouse_counts.push(self.warehouse_counts[i]);
            worker_counts.push(self.worker_counts[i]);
            let jump = self.jump_indices[i];
            jump_indices.push(if jump <= num_nodes { jump } else { num_nodes });
            usage_counts.cost += self.costs[i];
            if self.states[i] == 1 {
                usage_counts.warehouse_count += self.warehouse_counts[i];
            }
            if self.states[i] == 2 {
                usage_counts.worker_count += self.worker_counts[i];
            }
            max_warehouse_count += self.warehouse_counts[i];
            max_worker_count += self.worker_counts[i];
            proof {
                assert(parents@ =~= self.parents@.take(i + 1));
                assert(children@ =~= self.children@.take(i + 1));
                assert(costs@ =~= self.costs@.take(i + 1));
                assert(states@ =~= self.states@.take(i + 1));
                assert(warehouse_counts@ =~= self.warehouse_counts@.take(i + 1));
                assert(worker_counts@ =~= self.worker_counts@.take(i + 1));
            }
            i += 1;
        }
        let region = RegionNodes {
            num_nodes,
            root: self.root,
            parents,
            children,
            costs,
            states,
            warehouse_counts,
            worker_counts,
            jump_indices,
            usage_counts,
            max_warehouse_count,
            max_worker_count,
        };
        proof {
            lemma_prefix_wf(&region, self);
        }
        region
    }

    /// The nodes behind the root are the buildings, one of each.
    pub open spec fn holds(&self, buildings: Map<usize, Building>) -> bool {
        &&& self.num_nodes == buildings.len() + 1
        &&& forall|i: int|
            1 <= i < self.num_nodes ==> {
                let key = #[trigger] self.children[i];
                &&& buildings.contains_key(key)
                &&& self.parents[i] == buildings[key].need_key
                &&& self.costs[i] == buildings[key].cost
                &&& self.warehouse_counts[i] == buildings[key].warehouse_count
                &&& self.worker_counts[i] == buildings[key].worker_count
            }
        &&& forall|key: usize|
            buildings.contains_key(key) ==> exists|i: int|
                1 <= i < self.num_nodes && #[trigger] self.children[i] == key
    }

    /// Of two children of one node, the first has the larger subtree, or one
    /// as large and the smaller key.
    pub open spec fn siblings_sorted(&self) -> bool {
        forall|x: int, y: int|
            1 <= x < y < self.num_nodes && #[trigger] self.parents[x] == #[trigger] self.parents[y]
                ==> self.jump_indices[x] - x > self.jump_indices[y] - y || (self.jump_indices[x]
                - x == self.jump_indices[y] - y && self.children[x] < self.children[y])
    }

    /// The region is a pre-order layout of an arborescence with its totals.
    pub open spec fn wf(&self) -> bool {
        &&& self.shape_wf()
        &&& self.tree_wf()
        &&& self.totals_wf()
    }
}

/// A sum over more entries is no smaller.
pub proof fn lemma_sum_upto_monotonic(values: Seq<usize>, m: int, n: int)
    requires
        0 <= m <= n,
    ensures
        0 <= sum_upto(values, m) <= sum_upto(values, n),
    decreases n,
{
    if m < n {
        lemma_sum_upto_monotonic(values, m, n - 1);
    } else if n > 0 {
        lemma_sum_upto_monotonic(values, m - 1, n - 1);
    }
}

/// A sum over the first entries is the same in a sequence that begins with
/// them.
pub proof fn lemma_sum_upto_take(values: Seq<usize>, n: int, m: int)
    requires
        0 <= m <= n <= values.len(),
    ensures
        sum_upto(values.take(n), m) == sum_upto(values, m),
    decreases m,
{
    if m > 0 {
        lemma_sum_upto_take(values, n, m - 1);
    }
}

/// A sum over the first entries in one mode is the same in sequences that
/// begin with them.
pub proof fn lemma_sum_in_mode_take(
    values: Seq<usize>,
    states: Seq<usize>,
    mode: usize,
    n: int,
    m: int,
)
    requires
        0 <= m <= n <= values.len(),
        n <= states.len(),
    ensures
        sum_in_mode(values.take(n), states.take(n), mode, m) == sum_in_mode(
            values,
            states,
            mode,
            m,
        ),
    decreases m,
{
    if m > 0 {
        lemma_sum_in_mode_take(values, states, mode, n, m - 1);
    }
}

/// A sum in one mode over more entries is no smaller.
pub proof fn lemma_sum_in_mode_monotonic(
    values: Seq<usize>,
    states: Seq<usize>,
    mode: usize,
    m: int,
    n: int,
)
    requires
        0 <= m <= n,
    ensures
        0 <= sum_in_mode(values, states, mode, m) <= sum_in_mode(values, states, mode, n),
    decreases n,
{
    if m < n {
        lemma_sum_in_mode_monotonic(values, states, mode, m, n - 1);
    } else if n > 0 {
        lemma_sum_in_mode_monotonic(values, states, mode, m - 1, n - 1);
    }
}

/// What is cut off a region behind its first nodes, with the sums of those
/// nodes as its totals, is a region.
proof fn lemma_prefix_wf(prefix: &RegionNodes, region: &RegionNodes)
    requires
        region.wf(),
        prefix.is_prefix_of(region),
        prefix.num_nodes >= 1,
        prefix.usage_counts.cost == sum_upto(region.costs@, prefix.num_nodes as int),
        prefix.usage_counts.warehouse_count == sum_in_mode(
            region.warehouse_counts@,
            region.states@,
            1,
            prefix.num_nodes as int,
        ),
        prefix.usage_counts.worker_count == sum_in_mode(
            region.worker_counts@,
            region.states@,
            2,
            prefix.num_nodes as int,
        ),
        prefix.max_warehouse_count == sum_upto(region.warehouse_counts@, prefix.num_nodes as int),
        prefix.max_worker_count == sum_upto(region.worker_counts@, prefix.num_nodes as int),
    ensures
        prefix.wf(),
        forall|i: int| 1 <= i < prefix.num_nodes ==> prefix.parent_index(i) == region.parent_index(i),
{
    let n = prefix.num_nodes as int;
    let full = region.num_nodes as int;
    assert(prefix.shape_wf());
    assert forall|i: int| 1 <= i < n implies prefix.parent_index(i) == region.parent_index(i) by {
        let p = region.parent_index(i);
        assert(region.is_ancestor(p, i));
        assert(prefix.children[p] == prefix.parents[i]);
        let q = prefix.parent_index(i);
        assert(0 <= q < n && prefix.children[q] == prefix.parents[i]);
        assert(region.children[q] == region.children[p]);
    }
    assert forall|i: int, j: int|
        0 <= i < j < n && j < #[trigger] prefix.jump_indices[i] implies #[trigger] prefix.jump_indices[j]
        <= prefix.jump_indices[i] by {
        assert(region.jump_indices[j] <= region.jump_indices[i]);
    }
    assert forall|i: int, q: int|
        1 <= i < n && prefix.parent_index(i) < q < i implies !#[trigger] prefix.is_ancestor(
        q,
        i,
    ) by {
        assert(!region.is_ancestor(q, i));
    }
    assert(prefix.tree_wf());
    lemma_sum_upto_take(region.costs@, n, n);
    lemma_sum_upto_take(region.warehouse_counts@, n, n);
    lemma_sum_upto_take(region.worker_counts@, n, n);
    lemma_sum_in_mode_take(region.warehouse_counts@, region.states@, 1, n, n);
    lemma_sum_in_mode_take(region.worker_counts@, region.states@, 2, n, n);
    lemma_sum_upto_monotonic(region.costs@, n, full);
    lemma_sum_upto_monotonic(region.warehouse_counts@, n, full);
    lemma_sum_upto_monotonic(region.worker_counts@, n, full);
    let small = prefix.capacity_bound();
    let large = region.capacity_bound();
    assert(table_len(small) <= table_len(large)) by (nonlinear_arith)
        requires
            0 <= small <= large,
    ;
    assert(prefix.totals_wf());
}

/// A sum over the entries in one mode is at most the sum over all entries.
pub proof fn lemma_sum_in_mode_bound(values: Seq<usize>, states: Seq<usize>, mode: usize, n: int)
    requires
        0 <= n,
    ensures
        0 <= sum_in_mode(values, states, mode, n) <= sum_upto(values, n),
    decreases n,
{
    if n > 0 {
        lemma_sum_in_mode_bound(values, states, mode, n - 1);
    }
}

} // verus!
