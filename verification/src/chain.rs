//! The chain: the walker's state, and the pop-jump-push step that takes a
//! chain to the next one.

use crate::houseinfo::UsageCounters;
use crate::region_nodes::{
    initial_mode, lemma_sum_upto_monotonic, sum_in_mode, sum_upto, table_len, RegionNodes,
};
use vstd::prelude::*;

verus! {

/// Capacity fingerprint of `x` lodging and `y` storage: the position of the
/// pair in the square shells around the origin.
pub open spec fn fingerprint(x: nat, y: nat) -> nat {
    if x < y {
        y * y + x
    } else {
        x * x + x + y
    }
}

/// Distinct capacity pairs have distinct fingerprints.
pub proof fn lemma_fingerprint_injective(x1: nat, y1: nat, x2: nat, y2: nat)
    requires
        fingerprint(x1, y1) == fingerprint(x2, y2),
    ensures
        x1 == x2,
        y1 == y2,
{
    let m1 = if x1 < y1 { y1 } else { x1 };
    let m2 = if x2 < y2 { y2 } else { x2 };
    lemma_fingerprint_shell(x1, y1);
    lemma_fingerprint_shell(x2, y2);
    if m1 < m2 {
        assert((m1 + 1) * (m1 + 1) <= m2 * m2) by (nonlinear_arith)
            requires
                m1 + 1 <= m2,
        ;
    } else if m2 < m1 {
        assert((m2 + 1) * (m2 + 1) <= m1 * m1) by (nonlinear_arith)
            requires
                m2 + 1 <= m1,
        ;
    }
}

/// A fingerprint lies in the shell of the larger of its two capacities.
pub proof fn lemma_fingerprint_shell(x: nat, y: nat)
    ensures
        ({
            let m = if x < y { y } else { x };
            m * m <= fingerprint(x, y) < (m + 1) * (m + 1)
        }),
{
    let m = if x < y { y } else { x };
    assert((m + 1) * (m + 1) == m * m + 2 * m + 1) by (nonlinear_arith);
}

/// Capacities up to `bound` have fingerprints below `table_len(bound)`.
pub proof fn lemma_fingerprint_bound(x: nat, y: nat, bound: int)
    requires
        x <= bound,
        y <= bound,
    ensures
        fingerprint(x, y) < table_len(bound),
{
    let m = if x < y { y } else { x };
    lemma_fingerprint_shell(x, y);
    assert((m + 1) * (m + 1) <= (bound + 1) * (bound + 1)) by (nonlinear_arith)
        requires
            0 <= m <= bound,
    ;
}

/// The indices `from .. to` in ascending order.
pub open spec fn ascending(from: int, to: int) -> Seq<usize> {
    Seq::new((to - from) as nat, |j: int| (from + j) as usize)
}

/// Cost of the nodes on a stack of indices; the first entry, the root, is
/// not counted.
pub open spec fn stack_cost(costs: Seq<usize>, indices: Seq<usize>) -> int
    decreases indices.len(),
{
    if indices.len() == 0 {
        0
    } else {
        stack_cost(costs, indices.drop_last()) + if indices.len() > 1 {
            costs[indices.last() as int] as int
        } else {
            0
        }
    }
}

/// Sum of `values` over the nodes of a stack whose state is `mode`.
pub open spec fn stack_mode_sum(
    values: Seq<usize>,
    indices: Seq<usize>,
    states: Seq<usize>,
    mode: usize,
) -> int
    decreases indices.len(),
{
    if indices.len() == 0 {
        0
    } else {
        stack_mode_sum(values, indices.drop_last(), states.drop_last(), mode) + if states.last()
            == mode {
            values[indices.last() as int] as int
        } else {
            0
        }
    }
}

/// Number of chains that the walk visits after the one with these stacks:
/// for each node of the chain, the chains without it and, where it is in
/// lodging mode, those with it in storage mode, all else before it equal.
pub open spec fn stack_rank(region: &RegionNodes, indices: Seq<usize>, states: Seq<usize>) -> int
    decreases indices.len(),
{
    if indices.len() <= 1 {
        0
    } else {
        stack_rank(region, indices.drop_last(), states.drop_last()) + region.completions(
            region.jump_indices[indices.last() as int] as int,
        ) + (states.last() - 1) * region.completions(indices.last() + 1)
    }
}

/// The indices on the stack ascend strictly and stay below `bound`.
pub open spec fn ascends_below(indices: Seq<usize>, bound: int) -> bool {
    &&& forall|k: int| 0 <= k < indices.len() ==> #[trigger] indices[k] < bound
    &&& forall|j: int, k: int| 0 <= j < k < indices.len() ==> indices[j] < indices[k]
}

/// The cost of an ascending stack is at most the sum of all costs.
pub proof fn lemma_stack_cost_bound(costs: Seq<usize>, indices: Seq<usize>, bound: int)
    requires
        ascends_below(indices, bound),
        0 <= bound <= costs.len(),
    ensures
        0 <= stack_cost(costs, indices) <= sum_upto(costs, bound),
    decreases indices.len(),
{
    if indices.len() > 0 {
        let top = indices.last() as int;
        lemma_stack_cost_bound(costs, indices.drop_last(), top);
        lemma_sum_upto_monotonic(costs, top + 1, bound);
    } else {
        lemma_sum_upto_monotonic(costs, 0, bound);
    }
}

/// A sum over the nodes of an ascending stack in one mode is at most the sum
/// over all nodes.
pub proof fn lemma_stack_mode_sum_bound(
    values: Seq<usize>,
    indices: Seq<usize>,
    states: Seq<usize>,
    mode: usize,
    bound: int,
)
    requires
        ascends_below(indices, bound),
        indices.len() == states.len(),
        0 <= bound <= values.len(),
    ensures
        0 <= stack_mode_sum(values, indices, states, mode) <= sum_upto(values, bound),
    decreases indices.len(),
{
    if indices.len() > 0 {
        let top = indices.last() as int;
        lemma_stack_mode_sum_bound(values, indices.drop_last(), states.drop_last(), mode, top);
        lemma_sum_upto_monotonic(values, top + 1, bound);
    } else {
        lemma_sum_upto_monotonic(values, 0, bound);
    }
}

/// A chain: the selected nodes in pre-order, the mode of each, and what
/// they cost and give together.
#[derive(Clone, Debug)]
pub struct Chain {
    pub indices: Vec<usize>,
    pub states: Vec<usize>,
    pub usage_counts: UsageCounters,
}

/// A chain as plain values: the two stacks and the counters.
pub struct ChainView {
    pub indices: Seq<usize>,
    pub states: Seq<usize>,
    pub usage_counts: UsageCounters,
}

impl View for Chain {
    type V = ChainView;

    open spec fn view(&self) -> ChainView {
        ChainView {
            indices: self.indices@,
            states: self.states@,
            usage_counts: self.usage_counts,
        }
    }
}

impl ChainView {
    /// Cost, storage and lodging of the chain.
    pub open spec fn score(self) -> Score {
        Score {
            cost: self.usage_counts.cost as int,
            storage: self.usage_counts.warehouse_count as int,
            lodging: self.usage_counts.worker_count as int,
        }
    }

    /// The chain's capacity fingerprint.
    pub open spec fn key(self) -> nat {
        fingerprint(
            self.usage_counts.worker_count as nat,
            self.usage_counts.warehouse_count as nat,
        )
    }

    /// The two stacks have one entry per selected node, in ascending order,
    /// the root first, every other node in storage mode or, where it started
    /// so, in lodging mode.
    pub open spec fn stacks_wf(self, region: &RegionNodes) -> bool {
        &&& self.indices.len() == self.states.len()
        &&& self.indices.len() >= 1
        &&& self.indices[0] == 0
        &&& self.states[0] == 0
        &&& ascends_below(self.indices, region.num_nodes as int)
        &&& forall|k: int|
            1 <= k < self.states.len() ==> 1 <= #[trigger] self.states[k]
                <= region.states[self.indices[k] as int]
    }

    /// With a node the chain holds all its ancestors.
    pub open spec fn connected(self, region: &RegionNodes) -> bool {
        forall|k: int, a: int|
            0 <= k < self.indices.len() && region.is_ancestor(a, #[trigger] self.indices[k] as int)
                ==> #[trigger] self.indices.contains(a as usize)
    }

    /// The counters are the sums over the stacks.
    pub open spec fn counted(self, region: &RegionNodes) -> bool {
        &&& self.usage_counts.cost == stack_cost(region.costs@, self.indices)
        &&& self.usage_counts.warehouse_count == stack_mode_sum(
            region.warehouse_counts@,
            self.indices,
            self.states,
            1,
        )
        &&& self.usage_counts.worker_count == stack_mode_sum(
            region.worker_counts@,
            self.indices,
            self.states,
            2,
        )
    }

    /// Number of chains that the walk visits after this one.
    pub open spec fn rank(self, region: &RegionNodes) -> int {
        stack_rank(region, self.indices, self.states)
    }

    /// The chain is a connected subtree of the region around its root, with
    /// the counters that its nodes and modes imply.
    pub open spec fn wf(self, region: &RegionNodes) -> bool {
        &&& self.stacks_wf(region)
        &&& self.connected(region)
        &&& self.counted(region)
    }

    /// Every node from `index` on has all its ancestors below `index` in the
    /// chain, so that the nodes from `index` on can all be pushed.
    pub open spec fn extendable(self, index: int, region: &RegionNodes) -> bool {
        forall|a: int, i: int|
            a < index <= i < region.num_nodes && #[trigger] region.is_ancestor(a, i)
                ==> self.indices.contains(a as usize)
    }
}

/// The counters that a chain of these stacks has.
pub open spec fn counters_of(region: &RegionNodes, indices: Seq<usize>, states: Seq<usize>)
    -> UsageCounters {
    UsageCounters {
        cost: stack_cost(region.costs@, indices) as usize,
        warehouse_count: stack_mode_sum(region.warehouse_counts@, indices, states, 1) as usize,
        worker_count: stack_mode_sum(region.worker_counts@, indices, states, 2) as usize,
    }
}

/// The chain a walk starts from: every node of the region, each in its
/// initial mode.
pub open spec fn full_chain(region: &RegionNodes) -> ChainView {
    ChainView {
        indices: ascending(0, region.num_nodes as int),
        states: region.states@,
        usage_counts: region.usage_counts,
    }
}

/// The chain that the walk visits after `chain`. Where the last node of
/// `chain` is in lodging mode, it is turned to storage mode and every node
/// behind it is pushed in its initial mode. Else the last node is taken off,
/// and every node behind its subtree is pushed.
pub open spec fn successor(region: &RegionNodes, chain: ChainView) -> ChainView {
    let top = chain.indices.last() as int;
    let end = region.num_nodes as int;
    let from = if chain.states.last() == 2 {
        top + 1
    } else {
        region.jump_indices[top] as int
    };
    let indices = if chain.states.last() == 2 {
        chain.indices
    } else {
        chain.indices.drop_last()
    } + ascending(from, end);
    let states = if chain.states.last() == 2 {
        chain.states.update(chain.states.len() - 1, 1)
    } else {
        chain.states.drop_last()
    } + region.states@.subrange(from, end);
    ChainView { indices, states, usage_counts: counters_of(region, indices, states) }
}

/// The chain that the walk visits `steps` steps after `start`.
pub open spec fn visit(region: &RegionNodes, start: ChainView, steps: nat) -> ChainView
    decreases steps,
{
    if steps == 0 {
        start
    } else {
        successor(region, visit(region, start, (steps - 1) as nat))
    }
}

/// The first `count` chains of the walk from `start`.
pub open spec fn visits(region: &RegionNodes, start: ChainView, count: nat) -> Seq<ChainView> {
    Seq::new(count, |k: int| visit(region, start, k as nat))
}

/// What a chain is worth: cost, storage and lodging.
pub struct Score {
    pub cost: int,
    pub storage: int,
    pub lodging: int,
}

impl Chain {
    /// Cost, storage and lodging of the chain.
    pub open spec fn score(&self) -> Score {
        self@.score()
    }

    /// The stacks are those of a chain of the region.
    pub open spec fn stacks_wf(&self, region: &RegionNodes) -> bool {
        self@.stacks_wf(region)
    }

    /// With a node the chain holds all its ancestors.
    pub open spec fn connected(&self, region: &RegionNodes) -> bool {
        self@.connected(region)
    }

    /// The counters are the sums over the stacks.
    pub open spec fn counted(&self, region: &RegionNodes) -> bool {
        self@.counted(region)
    }

    /// Number of chains that the walk visits after this one.
    pub open spec fn rank(&self, region: &RegionNodes) -> int {
        self@.rank(region)
    }

    /// The chain is a connected subtree of the region around its root, with
    /// the counters that its nodes and modes imply.
    pub open spec fn wf(&self, region: &RegionNodes) -> bool {
        self@.wf(region)
    }

    /// Every node from `index` on can be pushed onto the chain.
    pub open spec fn extendable(&self, index: int, region: &RegionNodes) -> bool {
        self@.extendable(index, region)
    }

    /// The chain a walk starts from: every node of the region, each in its
    /// initial mode.
    pub fn new(region: &RegionNodes) -> (chain: Self)
        requires
            region.wf(),
        ensures
            chain.wf(region),
            chain.indices@ == ascending(0, region.num_nodes as int),
            chain.states@ == region.states@,
            chain@ == full_chain(region),
            chain.rank(region) == region.completions(1) - 1,
    {
        let mut chain = Self {
            indices: Vec::new(),
            states: Vec::new(),
            usage_counts: UsageCounters::new(),
        };
        chain.indices.push(0);
        chain.states.push(0);
        proof {
            lemma_root_chain(chain@, region);
        }
        chain.extend(1, region);
        proof {
            assert(chain.indices@ =~= ascending(0, region.num_nodes as int));
            assert(chain.states@ =~= region.states@);
            lemma_full_chain(chain@, region);
        }
        chain
    }

    /// A deep copy of the chain.
    pub fn snapshot(&self) -> (copy: Self)
        ensures
            copy@ == self@,
    {
        Self {
            indices: self.indices.clone(),
            states: self.states.clone(),
            usage_counts: self.usage_counts,
        }
    }

    /// The keys of the buildings of the chain, the root first.
    pub fn building_keys(&self, region: &RegionNodes) -> (keys: Vec<usize>)
        requires
            forall|k: int|
                0 <= k < self.indices.len() ==> #[trigger] self.indices[k] < region.children.len(),
        ensures
            keys.len() == self.indices.len(),
            forall|k: int|
                0 <= k < keys.len() ==> #[trigger] keys[k] == region.children[self.indices[k] as int],
    {
        let mut keys: Vec<usize> = Vec::new();
        let mut k: usize = 0;
        while k < self.indices.len()
            invariant
                k <= self.indices.len(),
                keys.len() == k,
                forall|k: int|
                    0 <= k < self.indices.len() ==> #[trigger] self.indices[k]
                        < region.children.len(),
                forall|j: int|
                    0 <= j < k ==> #[trigger] keys[j] == region.children[self.indices[j] as int],
            decreases self.indices.len() - k,
        {
            keys.push(region.children[self.indices[k]]);
            k += 1;
        }
        keys
    }

    /// The chain's capacity fingerprint: its lodging paired with its storage.
    pub fn elegant_pair(&self) -> (key: usize)
        requires
            self@.key() <= usize::MAX,
        ensures
            key == self@.key(),
    {
        let x = self.usage_counts.worker_count;
        let y = self.usage_counts.warehouse_count;
        if x < y {
            assert(y * y + x <= usize::MAX);
            assert(y * y <= y * y + x) by (nonlinear_arith);
            y * y + x
        } else {
            assert(x * x + x + y <= usize::MAX);
            assert(x * x <= x * x + x + y) by (nonlinear_arith);
            x * x + x + y
        }
    }

    /// Pushes the nodes `index ..` of the region, each in its initial mode.
    pub fn extend(&mut self, index: usize, region: &RegionNodes)
        requires
            region.wf(),
            old(self).wf(region),
            old(self).indices@.last() < index <= region.num_nodes,
            old(self).extendable(index as int, region),
        ensures
            final(self).wf(region),
            final(self).indices@ == old(self).indices@ + ascending(
                index as int,
                region.num_nodes as int,
            ),
            final(self).states@ == old(self).states@ + region.states@.subrange(
                index as int,
                region.num_nodes as int,
            ),
            final(self).rank(region) == old(self).rank(region) + region.completions(index as int)
                - 1,
    {
        let mut i: usize = index;
        while i < region.num_nodes
            invariant
                region.wf(),
                self.wf(region),
                index <= i <= region.num_nodes,
                self.indices@.last() < i,
                old(self).indices.len() >= 1,
                old(self).extendable(index as int, region),
                self.indices@ == old(self).indices@ + ascending(index as int, i as int),
                self.states@ == old(self).states@ + region.states@.subrange(index as int, i as int),
                self.rank(region) == old(self).rank(region) + region.completions(index as int)
                    - region.completions(i as int),
            decreases region.num_nodes - i,
        {
            let ghost before = *self;
            let state = region.states[i];
            proof {
                lemma_push_bounds(before@, region, i);
            }
            self.indices.push(i);
            self.states.push(state);
            if state == 1 {
                self.usage_counts.warehouse_count += region.warehouse_counts[i];
            } else {
                self.usage_counts.worker_count += region.worker_counts[i];
            }
            self.usage_counts.cost += region.costs[i];
            proof {
                lemma_push_keeps_wf(before@, self@, old(self)@, region, index as int, i as int);
                assert(self.indices@ =~= old(self).indices@ + ascending(index as int, i + 1));
                assert(self.states@ =~= old(self).states@ + region.states@.subrange(
                    index as int,
                    i + 1,
                ));
            }
            i += 1;
        }
    }

    /// Takes the last node off the chain. Returns the index behind the
    /// subtree of that node, from which the chain is to be extended.
    pub fn reduce(&mut self, region: &RegionNodes) -> (index: usize)
        requires
            region.wf(),
            old(self).wf(region),
            old(self).states@.last() != 2,
        ensures
            index == region.jump_indices[old(self).indices@.last() as int],
            final(self).indices@ == old(self).indices@.drop_last(),
            final(self).states@ == old(self).states@.drop_last(),
            final(self).counted(region),
            final(self).indices.len() > 0 ==> final(self).wf(region) && final(self).extendable(
                index as int,
                region,
            ) && final(self).indices@.last() < index,
            final(self).indices.len() > 0 ==> final(self).rank(region) == old(self).rank(region)
                - region.completions(index as int),
    {
        let ghost before = *self;
        let state = self.states.pop().unwrap();
        let index = self.indices.pop().unwrap();
        proof {
            lemma_stack_cost_bound(region.costs@, self.indices@, region.num_nodes as int);
            lemma_stack_mode_sum_bound(
                region.warehouse_counts@,
                self.indices@,
                self.states@,
                1,
                region.num_nodes as int,
            );
            assert(self.indices@ =~= before.indices@.drop_last());
            assert(self.states@ =~= before.states@.drop_last());
            if self.indices.len() == 0 {
                assert(index == 0);
            }
        }
        self.usage_counts.cost -= region.costs[index];
        if state == 1 {
            self.usage_counts.warehouse_count -= region.warehouse_counts[index];
        }
        proof {
            if self.indices.len() > 0 {
                lemma_prefix_connected(before@, self@, region);
                lemma_extendable_after_pop(before@, self@, region);
            }
        }
        region.jump_indices[index]
    }

    /// Turns the last node of the chain from lodging to storage. Returns the
    /// index behind that node, from which the chain is to be extended.
    pub fn reduce_last_state(&mut self, region: &RegionNodes) -> (index: usize)
        requires
            region.wf(),
            old(self).wf(region),
            old(self).states@.last() == 2,
        ensures
            index == old(self).indices@.last() + 1,
            final(self).indices@ == old(self).indices@,
            final(self).states@ == old(self).states@.update(old(self).states.len() - 1, 1),
            final(self).wf(region),
            final(self).extendable(index as int, region),
            final(self).rank(region) == old(self).rank(region) - region.completions(index as int),
    {
        let ghost before = *self;
        let last = self.states.len() - 1;
        let index = self.indices[last];
        self.states[last] = 1;
        proof {
            assert(self.states@.drop_last() =~= before.states@.drop_last());
            lemma_stack_mode_sum_bound(
                region.warehouse_counts@,
                self.indices@,
                self.states@,
                1,
                region.num_nodes as int,
            );
            lemma_stack_mode_sum_bound(
                region.worker_counts@,
                self.indices@.drop_last(),
                self.states@.drop_last(),
                2,
                index as int,
            );
        }
        self.usage_counts.warehouse_count += region.warehouse_counts[index];
        self.usage_counts.worker_count -= region.worker_counts[index];
        proof {
            assert forall|a: int, i: int|
                a < index + 1 <= i < region.num_nodes && #[trigger] region.is_ancestor(
                    a,
                    i,
                ) implies self.indices@.contains(a as usize) by {
                if a == index {
                    assert(self.indices[last as int] == a as usize);
                } else {
                    assert(region.is_ancestor(a, self.indices[last as int] as int));
                }
            }
        }
        index + 1
    }

    /// Takes the chain to the next one of the walk: turns its last node from
    /// lodging to storage, or takes that node off and skips its subtree, and
    /// then pushes every node that follows. The chain is empty once the root
    /// has been taken off.
    pub fn next_state(&mut self, region: &RegionNodes)
        requires
            region.wf(),
            old(self).wf(region),
        ensures
            final(self)@ == successor(region, old(self)@),
            final(self).indices.len() == 0 <==> old(self).indices.len() == 1,
            final(self).indices.len() > 0 ==> final(self).wf(region),
            final(self).indices.len() > 0 ==> final(self).rank(region) == old(self).rank(region)
                - 1,
            final(self).counted(region),
            old(self).rank(region) >= 0,
    {
        proof {
            lemma_rank_positive(self@, region);
        }
        let last = self.states.len() - 1;
        let index = if self.states[last] == 2 {
            self.reduce_last_state(region)
        } else {
            self.reduce(region)
        };
        if index < region.num_nodes {
            proof {
                if self.indices.len() == 0 {
                    assert(old(self).indices@.last() == 0);
                }
            }
            self.extend(index, region);
        } else {
            proof {
                assert(ascending(index as int, region.num_nodes as int) =~= Seq::<usize>::empty());
                assert(region.states@.subrange(index as int, region.num_nodes as int)
                    =~= Seq::<usize>::empty());
                assert(self.indices@ + Seq::<usize>::empty() =~= self.indices@);
                assert(self.states@ + Seq::<usize>::empty() =~= self.states@);
            }
        }
        proof {
            let next = successor(region, old(self)@);
            assert(self.indices@ =~= next.indices);
            assert(self.states@ =~= next.states);
        }
    }

    /// Whether this chain gives at least the storage and the lodging of
    /// `other` at no more than its cost, and differs from it in one of the
    /// three.
    pub fn dominates(&self, other: &Chain) -> (result: bool)
        ensures
            result == score_dominates(self.score(), other.score()),
    {
        self.usage_counts.cost <= other.usage_counts.cost && self.usage_counts.warehouse_count
            >= other.usage_counts.warehouse_count && self.usage_counts.worker_count
            >= other.usage_counts.worker_count && !(self.usage_counts.cost
            == other.usage_counts.cost && self.usage_counts.warehouse_count
            == other.usage_counts.warehouse_count && self.usage_counts.worker_count
            == other.usage_counts.worker_count)
    }
}

/// Strict domination: `a` is no dearer than `b`, gives no less storage and
/// no less lodging, and is not equal to it in all three.
pub open spec fn score_dominates(a: Score, b: Score) -> bool {
    &&& a.cost <= b.cost
    &&& a.storage >= b.storage
    &&& a.lodging >= b.lodging
    &&& !(a.cost == b.cost && a.storage == b.storage && a.lodging == b.lodging)
}

/// The counters of the first nodes of the region, each in its initial mode,
/// are the sums over those nodes.
pub proof fn lemma_full_chain_counters(region: &RegionNodes, count: int)
    requires
        region.shape_wf(),
        0 <= count <= region.num_nodes,
    ensures
        stack_cost(region.costs@, ascending(0, region.num_nodes as int).take(count)) == sum_upto(
            region.costs@,
            count,
        ),
        stack_mode_sum(
            region.warehouse_counts@,
            ascending(0, region.num_nodes as int).take(count),
            region.states@.take(count),
            1,
        ) == sum_in_mode(region.warehouse_counts@, region.states@, 1, count),
        stack_mode_sum(
            region.worker_counts@,
            ascending(0, region.num_nodes as int).take(count),
            region.states@.take(count),
            2,
        ) == sum_in_mode(region.worker_counts@, region.states@, 2, count),
    decreases count,
{
    if count > 0 {
        let all = ascending(0, region.num_nodes as int);
        lemma_full_chain_counters(region, count - 1);
        assert(all.take(count).drop_last() =~= all.take(count - 1));
        assert(region.states@.take(count).drop_last() =~= region.states@.take(count - 1));
    }
}

/// The chain of the root alone is a chain of the region, the last of the
/// walk, and every node can be pushed onto it.
pub(crate) proof fn lemma_root_chain(chain: ChainView, region: &RegionNodes)
    requires
        region.wf(),
        chain.indices == seq![0usize],
        chain.states == seq![0usize],
        chain.usage_counts.cost == 0,
        chain.usage_counts.warehouse_count == 0,
        chain.usage_counts.worker_count == 0,
    ensures
        chain.wf(region),
        chain.rank(region) == 0,
        chain.extendable(1, region),
{
    assert(chain.indices.drop_last() =~= Seq::<usize>::empty());
    assert(chain.states.drop_last() =~= Seq::<usize>::empty());
    reveal_with_fuel(stack_cost, 2);
    reveal_with_fuel(stack_mode_sum, 2);
    assert(chain.counted(region));
    assert(chain.indices[0] == 0);
    assert(chain.connected(region));
    assert(chain.stacks_wf(region));
}

/// The chain of all nodes, each in its initial mode, has the totals of the
/// region as its counters.
pub(crate) proof fn lemma_full_chain(chain: ChainView, region: &RegionNodes)
    requires
        region.wf(),
        chain.counted(region),
        chain.indices == ascending(0, region.num_nodes as int),
        chain.states == region.states@,
    ensures
        chain == full_chain(region),
{
    let n = region.num_nodes as int;
    lemma_full_chain_counters(region, n);
    assert(ascending(0, n).take(n) =~= ascending(0, n));
    assert(region.states@.take(n) =~= region.states@);
}

/// The counters of a chain are within the totals of its region, and its
/// fingerprint is a key of the region's table.
pub proof fn lemma_chain_within(chain: ChainView, region: &RegionNodes)
    requires
        region.wf(),
        chain.stacks_wf(region),
        chain.counted(region),
    ensures
        chain.usage_counts.cost <= region.usage_counts.cost,
        chain.usage_counts.warehouse_count <= region.max_warehouse_count,
        chain.usage_counts.worker_count <= region.max_worker_count,
        chain.key() < table_len(region.capacity_bound()),
{
    let n = region.num_nodes as int;
    lemma_stack_cost_bound(region.costs@, chain.indices, n);
    lemma_stack_mode_sum_bound(region.warehouse_counts@, chain.indices, chain.states, 1, n);
    lemma_stack_mode_sum_bound(region.worker_counts@, chain.indices, chain.states, 2, n);
    lemma_fingerprint_bound(
        chain.usage_counts.worker_count as nat,
        chain.usage_counts.warehouse_count as nat,
        region.capacity_bound(),
    );
}

/// The rank of a chain is not negative, and zero only for the chain of the
/// root alone.
pub proof fn lemma_rank_positive(chain: ChainView, region: &RegionNodes)
    requires
        chain.stacks_wf(region),
    ensures
        chain.rank(region) >= 0,
        chain.indices.len() > 1 ==> chain.rank(region) > 0,
{
    lemma_stack_rank_positive(region, chain.indices, chain.states);
}

/// The rank of stacks whose nodes are all in a mode is not negative, and
/// zero only for the stacks of the root alone.
proof fn lemma_stack_rank_positive(
    region: &RegionNodes,
    indices: Seq<usize>,
    states: Seq<usize>,
)
    requires
        indices.len() == states.len(),
        forall|k: int| 1 <= k < states.len() ==> 1 <= #[trigger] states[k],
    ensures
        stack_rank(region, indices, states) >= 0,
        indices.len() > 1 ==> stack_rank(region, indices, states) > 0,
    decreases indices.len(),
{
    if indices.len() > 1 {
        let front = states.drop_last();
        assert forall|k: int| 1 <= k < front.len() implies 1 <= #[trigger] front[k] by {
            assert(front[k] == states[k]);
        }
        lemma_stack_rank_positive(region, indices.drop_last(), front);
        lemma_completions_positive(region, region.jump_indices[indices.last() as int] as int);
        assert((states.last() - 1) * region.completions(indices.last() + 1) >= 0)
            by (nonlinear_arith)
            requires
                states.last() >= 1,
        ;
    }
}

/// There is always a way to go on: to select nothing more.
pub proof fn lemma_completions_positive(region: &RegionNodes, i: int)
    ensures
        region.completions(i) >= 1,
    decreases region.num_nodes - i,
{
    if 0 <= i < region.jump_indices.len() && i < region.states.len() && i
        < region.jump_indices[i] <= region.num_nodes {
        lemma_completions_positive(region, region.jump_indices[i] as int);
    }
}

/// Every node of a chain but the root has its parent earlier in the chain.
pub proof fn lemma_parent_precedes(chain: Chain, region: RegionNodes, k: int)
    requires
        region.wf(),
        chain.wf(&region),
        1 <= k < chain.indices.len(),
    ensures
        exists|j: int|
            0 <= j < k && #[trigger] chain.indices[j] == region.parent_index(
                chain.indices[k] as int,
            ) && region.children[chain.indices[j] as int] == region.parents[chain.indices[k] as int],
{
    let i = chain.indices[k] as int;
    assert(chain.indices[0] < chain.indices[k]);
    let p = region.parent_index(i);
    assert(region.is_ancestor(p, i));
    assert(chain.indices@.contains(p as usize));
    let j = choose|j: int| 0 <= j < chain.indices.len() && chain.indices[j] == p as usize;
    assert(j < k);
}

/// Pushing node `i` in its initial mode keeps the counters within the
/// region's totals.
pub(crate) proof fn lemma_push_bounds(chain: ChainView, region: &RegionNodes, i: usize)
    requires
        region.wf(),
        chain.wf(region),
        chain.indices.last() < i < region.num_nodes,
    ensures
        chain.usage_counts.cost + region.costs[i as int] <= usize::MAX,
        chain.usage_counts.warehouse_count + region.warehouse_counts[i as int] <= usize::MAX,
        chain.usage_counts.worker_count + region.worker_counts[i as int] <= usize::MAX,
        1 <= region.states[i as int] <= 2,
{
    let n = region.num_nodes as int;
    let indices = chain.indices.push(i);
    assert(indices.drop_last() =~= chain.indices);
    assert(ascends_below(indices, n));
    lemma_stack_cost_bound(region.costs@, indices, n);
    let storing = chain.states.push(1);
    assert(storing.drop_last() =~= chain.states);
    lemma_stack_mode_sum_bound(region.warehouse_counts@, indices, storing, 1, n);
    let lodging = chain.states.push(2);
    assert(lodging.drop_last() =~= chain.states);
    lemma_stack_mode_sum_bound(region.worker_counts@, indices, lodging, 2, n);
}

/// A chain with the next node pushed in its initial mode is a chain, and
/// ranks higher by the ways to go on that begin with that node.
pub(crate) proof fn lemma_push_keeps_wf(
    before: ChainView,
    after: ChainView,
    start: ChainView,
    region: &RegionNodes,
    index: int,
    i: int,
)
    requires
        region.wf(),
        before.wf(region),
        start.extendable(index, region),
        before.indices == start.indices + ascending(index, i),
        start.indices.len() >= 1,
        index <= i < region.num_nodes,
        before.indices.last() < i,
        after.indices == before.indices.push(i as usize),
        after.states == before.states.push(region.states[i]),
        after.usage_counts.cost == before.usage_counts.cost + region.costs[i],
        after.usage_counts.warehouse_count == before.usage_counts.warehouse_count
            + if region.states[i] == 1 {
            region.warehouse_counts[i] as int
        } else {
            0
        },
        after.usage_counts.worker_count == before.usage_counts.worker_count + if region.states[i]
            == 1 {
            0
        } else {
            region.worker_counts[i] as int
        },
    ensures
        after.wf(region),
        after.rank(region) == before.rank(region) + region.completions(i) - region.completions(
            i + 1,
        ),
{
    let state = region.states[i];
    assert(after.indices.drop_last() =~= before.indices);
    assert(after.states.drop_last() =~= before.states);
    assert(state == initial_mode(region.warehouse_counts[i]));
    assert((state - 1) * region.completions(i + 1) == state * region.completions(i + 1)
        - region.completions(i + 1)) by (nonlinear_arith);
    assert(after.stacks_wf(region)) by {
        assert forall|k: int| 1 <= k < after.states.len() implies 1 <= #[trigger] after.states[k]
            <= region.states[after.indices[k] as int] by {
            if k < before.states.len() {
                assert(after.states[k] == before.states[k]);
                assert(after.indices[k] == before.indices[k]);
            }
        }
        assert forall|j: int, k: int| 0 <= j < k < after.indices.len() implies after.indices[j]
            < after.indices[k] by {
            if k < before.indices.len() {
                assert(after.indices[j] == before.indices[j]);
                assert(after.indices[k] == before.indices[k]);
            } else {
                assert(after.indices[j] == before.indices[j]);
                assert(before.indices[j] <= before.indices.last());
            }
        }
    }
    assert(after.connected(region)) by {
        assert forall|k: int, a: int|
            0 <= k < after.indices.len() && region.is_ancestor(
                a,
                #[trigger] after.indices[k] as int,
            ) implies #[trigger] after.indices.contains(a as usize) by {
            if k < before.indices.len() {
                assert(before.indices[k] == after.indices[k]);
                assert(before.indices.contains(a as usize));
                let j = choose|j: int|
                    0 <= j < before.indices.len() && before.indices[j] == a as usize;
                assert(after.indices[j] == a as usize);
            } else if a < index {
                assert(region.is_ancestor(a, i));
                assert(start.indices.contains(a as usize));
                let j = choose|j: int|
                    0 <= j < start.indices.len() && start.indices[j] == a as usize;
                assert(after.indices[j] == a as usize);
            } else {
                let j = start.indices.len() + (a - index);
                assert(after.indices[j] == a as usize);
            }
        }
    }
    assert(after.counted(region));
}

/// A chain without its last node still holds the ancestors of its nodes.
pub(crate) proof fn lemma_prefix_connected(
    before: ChainView,
    after: ChainView,
    region: &RegionNodes,
)
    requires
        region.wf(),
        before.wf(region),
        after.indices == before.indices.drop_last(),
        after.states == before.states.drop_last(),
        after.indices.len() > 0,
    ensures
        after.stacks_wf(region),
        after.connected(region),
{
    assert forall|k: int, a: int|
        0 <= k < after.indices.len() && region.is_ancestor(
            a,
            #[trigger] after.indices[k] as int,
        ) implies #[trigger] after.indices.contains(a as usize) by {
        assert(before.indices[k] == after.indices[k]);
        assert(before.indices.contains(a as usize));
        let j = choose|j: int| 0 <= j < before.indices.len() && before.indices[j] == a as usize;
        assert(j < before.indices.len() - 1);
        assert(after.indices[j] == a as usize);
    }
    assert forall|k: int| 1 <= k < after.states.len() implies 1 <= #[trigger] after.states[k]
        <= region.states[after.indices[k] as int] by {
        assert(before.states[k] == after.states[k]);
        assert(before.indices[k] == after.indices[k]);
    }
}

/// Once the last node is off, every node behind its subtree has its
/// earlier ancestors in what is left of the chain.
pub(crate) proof fn lemma_extendable_after_pop(
    before: ChainView,
    after: ChainView,
    region: &RegionNodes,
)
    requires
        region.wf(),
        before.wf(region),
        after.indices == before.indices.drop_last(),
        after.indices.len() > 0,
    ensures
        after.extendable(region.jump_indices[before.indices.last() as int] as int, region),
        after.indices.last() < region.jump_indices[before.indices.last() as int],
{
    let top = before.indices.last() as int;
    let from = region.jump_indices[top] as int;
    let last = before.indices.len() - 1;
    assert(before.indices[last - 1] == after.indices.last());
    assert forall|a: int, i: int|
        a < from <= i < region.num_nodes && #[trigger] region.is_ancestor(
            a,
            i,
        ) implies after.indices.contains(a as usize) by {
        if a > top {
            assert(region.jump_indices[a] <= region.jump_indices[top]);
        } else if a < top {
            assert(region.is_ancestor(a, before.indices[last] as int));
            assert(before.indices.contains(a as usize));
            let j = choose|j: int| 0 <= j < before.indices.len() && before.indices[j] == a as usize;
            assert(after.indices[j] == a as usize);
        }
    }
}

} // verus!
