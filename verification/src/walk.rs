//! What the walk visits: every chain of the region, once.

use crate::chain::{
    ascending, counters_of, full_chain, lemma_completions_positive, lemma_extendable_after_pop,
    lemma_full_chain, lemma_prefix_connected, lemma_push_bounds, lemma_push_keeps_wf,
    lemma_root_chain, lemma_stack_cost_bound, lemma_stack_mode_sum_bound, stack_rank, successor,
    visit, ChainView,
};
use crate::houseinfo::UsageCounters;
use crate::region_nodes::RegionNodes;
use vstd::prelude::*;

verus! {

/// `chain` with the nodes `from .. to` pushed, each in its initial mode.
pub open spec fn extended(region: &RegionNodes, chain: ChainView, from: int, to: int) -> ChainView {
    let indices = chain.indices + ascending(from, to);
    let states = chain.states + region.states@.subrange(from, to);
    ChainView { indices, states, usage_counts: counters_of(region, indices, states) }
}

/// A chain with the next nodes pushed is a chain, and ranks higher by the
/// ways to go on that begin with one of those nodes.
pub proof fn lemma_extended(region: &RegionNodes, chain: ChainView, from: int, to: int)
    requires
        region.wf(),
        chain.wf(region),
        chain.extendable(from, region),
        chain.indices.last() < from <= to <= region.num_nodes,
    ensures
        extended(region, chain, from, to).wf(region),
        extended(region, chain, from, to).rank(region) == chain.rank(region) + region.completions(
            from,
        ) - region.completions(to),
        extended(region, chain, from, to).indices.last() < to,
    decreases to - from,
{
    let after = extended(region, chain, from, to);
    if from == to {
        assert(ascending(from, to) =~= Seq::<usize>::empty());
        assert(region.states@.subrange(from, to) =~= Seq::<usize>::empty());
        assert(after.indices =~= chain.indices);
        assert(after.states =~= chain.states);
        assert(after == chain);
    } else {
        let i = to - 1;
        let before = extended(region, chain, from, i);
        lemma_extended(region, chain, from, i);
        assert(after.indices =~= before.indices.push(i as usize));
        assert(after.states =~= before.states.push(region.states[i]));
        assert(after.indices.drop_last() =~= before.indices);
        assert(after.states.drop_last() =~= before.states);
        lemma_push_bounds(before, region, i as usize);
        lemma_push_keeps_wf(before, after, chain, region, from, i);
    }
}

/// `chain` without its last node.
pub open spec fn popped(region: &RegionNodes, chain: ChainView) -> ChainView {
    let indices = chain.indices.drop_last();
    let states = chain.states.drop_last();
    ChainView { indices, states, usage_counts: counters_of(region, indices, states) }
}

/// `chain` with its last node in storage mode.
pub open spec fn flipped(region: &RegionNodes, chain: ChainView) -> ChainView {
    let states = chain.states.update(chain.states.len() - 1, 1);
    ChainView {
        indices: chain.indices,
        states,
        usage_counts: counters_of(region, chain.indices, states),
    }
}

/// A chain without its last node is a chain onto which every node behind
/// the subtree of that node can be pushed.
pub proof fn lemma_popped(region: &RegionNodes, chain: ChainView)
    requires
        region.wf(),
        chain.wf(region),
        chain.indices.len() > 1,
        chain.states.last() != 2,
    ensures
        popped(region, chain).wf(region),
        popped(region, chain).extendable(
            region.jump_indices[chain.indices.last() as int] as int,
            region,
        ),
        popped(region, chain).indices.last() < region.jump_indices[chain.indices.last() as int],
        popped(region, chain).rank(region) == chain.rank(region) - region.completions(
            region.jump_indices[chain.indices.last() as int] as int,
        ),
{
    let after = popped(region, chain);
    let n = region.num_nodes as int;
    lemma_prefix_connected(chain, after, region);
    lemma_extendable_after_pop(chain, after, region);
    lemma_stack_cost_bound(region.costs@, after.indices, n);
    lemma_stack_mode_sum_bound(region.warehouse_counts@, after.indices, after.states, 1, n);
    lemma_stack_mode_sum_bound(region.worker_counts@, after.indices, after.states, 2, n);
    assert(chain.states[chain.states.len() - 1] == 1);
}

/// A chain with its last node turned from lodging to storage is a chain
/// onto which every node behind that node can be pushed.
pub proof fn lemma_flipped(region: &RegionNodes, chain: ChainView)
    requires
        region.wf(),
        chain.wf(region),
        chain.states.last() == 2,
    ensures
        flipped(region, chain).wf(region),
        flipped(region, chain).extendable(chain.indices.last() + 1, region),
        flipped(region, chain).rank(region) == chain.rank(region) - region.completions(
            chain.indices.last() + 1,
        ),
{
    let after = flipped(region, chain);
    let n = region.num_nodes as int;
    let last = chain.states.len() - 1;
    let top = chain.indices.last() as int;
    assert(after.states.drop_last() =~= chain.states.drop_last());
    lemma_stack_cost_bound(region.costs@, after.indices, n);
    lemma_stack_mode_sum_bound(region.warehouse_counts@, after.indices, after.states, 1, n);
    lemma_stack_mode_sum_bound(region.worker_counts@, after.indices, after.states, 2, n);
    assert(after.stacks_wf(region)) by {
        assert forall|k: int| 1 <= k < after.states.len() implies 1 <= #[trigger] after.states[k]
            <= region.states[after.indices[k] as int] by {
            if k < last {
                assert(after.states[k] == chain.states[k]);
            }
        }
    }
    assert forall|a: int, i: int|
        a < top + 1 <= i < region.num_nodes && #[trigger] region.is_ancestor(
            a,
            i,
        ) implies after.indices.contains(a as usize) by {
        if a == top {
            assert(after.indices[last] == a as usize);
        } else {
            assert(region.is_ancestor(a, chain.indices[last] as int));
        }
    }
}

/// The chain after a chain of more than the root is a chain, of the next
/// lower rank.
pub proof fn lemma_successor(region: &RegionNodes, chain: ChainView)
    requires
        region.wf(),
        chain.wf(region),
        chain.indices.len() > 1,
    ensures
        successor(region, chain).wf(region),
        successor(region, chain).rank(region) == chain.rank(region) - 1,
{
    let end = region.num_nodes as int;
    let top = chain.indices.last() as int;
    lemma_completions_positive(region, end);
    if chain.states.last() == 2 {
        let turned = flipped(region, chain);
        lemma_flipped(region, chain);
        lemma_extended(region, turned, top + 1, end);
        assert(successor(region, chain) == extended(region, turned, top + 1, end));
    } else {
        let shorter = popped(region, chain);
        let from = region.jump_indices[top] as int;
        lemma_popped(region, chain);
        lemma_extended(region, shorter, from, end);
        assert(successor(region, chain) == extended(region, shorter, from, end));
    }
}

/// The chain of the root alone.
pub open spec fn root_chain() -> ChainView {
    ChainView {
        indices: seq![0usize],
        states: seq![0usize],
        usage_counts: UsageCounters { cost: 0, warehouse_count: 0, worker_count: 0 },
    }
}

/// The chain of all nodes is a chain, of the highest rank.
pub proof fn lemma_full_chain_ranked(region: &RegionNodes)
    requires
        region.wf(),
    ensures
        full_chain(region).wf(region),
        full_chain(region).rank(region) == region.completions(1) - 1,
{
    let end = region.num_nodes as int;
    let root = root_chain();
    lemma_root_chain(root, region);
    lemma_extended(region, root, 1, end);
    lemma_completions_positive(region, end);
    let all = extended(region, root, 1, end);
    assert(all.indices =~= ascending(0, end));
    assert(all.states =~= region.states@);
    lemma_full_chain(all, region);
}

/// The walk visits chains, each of the next lower rank, down to the chain
/// of the root alone.
pub proof fn lemma_visit_ranked(region: &RegionNodes, steps: nat)
    requires
        region.wf(),
        steps < region.completions(1),
    ensures
        visit(region, full_chain(region), steps).wf(region),
        visit(region, full_chain(region), steps).rank(region) == region.completions(1) - 1
            - steps,
    decreases steps,
{
    if steps == 0 {
        lemma_full_chain_ranked(region);
    } else {
        let before = visit(region, full_chain(region), (steps - 1) as nat);
        lemma_visit_ranked(region, (steps - 1) as nat);
        if before.indices.len() <= 1 {
            assert(before.rank(region) == 0);
        }
        lemma_successor(region, before);
    }
}

/// There are no more ways to go on from a later node.
pub proof fn lemma_completions_monotonic(region: &RegionNodes, a: int, b: int)
    requires
        region.wf(),
        1 <= a <= b <= region.num_nodes,
    ensures
        region.completions(b) <= region.completions(a),
    decreases b - a,
{
    if a < b {
        lemma_completions_monotonic(region, a + 1, b);
        lemma_completions_positive(region, region.jump_indices[a] as int);
        let state = region.states[a] as int;
        let next = region.completions(a + 1) as int;
        assert(region.states[a] == crate::region_nodes::initial_mode(region.warehouse_counts[a]));
        assert(state * next >= next) by (nonlinear_arith)
            requires
                state >= 1,
                next >= 0,
        ;
    }
}

/// What a node of a chain adds to its rank: the chains without the node
/// and, where it is in lodging mode, those with it in storage mode.
pub open spec fn rank_of_entry(region: &RegionNodes, index: usize, state: usize) -> int {
    region.completions(region.jump_indices[index as int] as int) + (state - 1)
        * region.completions(index + 1)
}

/// What the nodes of a chain from position `from` on add to its rank.
pub open spec fn rank_from(
    region: &RegionNodes,
    indices: Seq<usize>,
    states: Seq<usize>,
    from: int,
) -> int
    decreases indices.len() - from,
{
    if from < 1 || from >= indices.len() {
        0
    } else {
        rank_of_entry(region, indices[from], states[from]) + rank_from(
            region,
            indices,
            states,
            from + 1,
        )
    }
}

/// What the nodes from a position on add to the rank, with one node more
/// at the end.
proof fn lemma_rank_from_push(
    region: &RegionNodes,
    indices: Seq<usize>,
    states: Seq<usize>,
    from: int,
)
    requires
        indices.len() == states.len(),
        1 <= from < indices.len(),
    ensures
        rank_from(region, indices, states, from) == rank_from(
            region,
            indices.drop_last(),
            states.drop_last(),
            from,
        ) + rank_of_entry(region, indices.last(), states.last()),
    decreases indices.len() - from,
{
    if from < indices.len() - 1 {
        lemma_rank_from_push(region, indices, states, from + 1);
        assert(indices.drop_last()[from] == indices[from]);
        assert(states.drop_last()[from] == states[from]);
    } else {
        assert(rank_from(region, indices, states, from + 1) == 0);
    }
}

/// The rank of a chain is what its nodes behind the root add to it.
proof fn lemma_rank_is_from(region: &RegionNodes, indices: Seq<usize>, states: Seq<usize>)
    requires
        indices.len() == states.len(),
    ensures
        stack_rank(region, indices, states) == rank_from(region, indices, states, 1),
    decreases indices.len(),
{
    if indices.len() > 1 {
        lemma_rank_is_from(region, indices.drop_last(), states.drop_last());
        lemma_rank_from_push(region, indices, states, 1);
    }
}

/// What the nodes of a chain from a position on add to its rank is less
/// than the ways to go on from the node at that position.
proof fn lemma_rank_from_bound(region: &RegionNodes, chain: ChainView, from: int)
    requires
        region.wf(),
        chain.stacks_wf(region),
        1 <= from <= chain.indices.len(),
    ensures
        0 <= rank_from(region, chain.indices, chain.states, from),
        from < chain.indices.len() ==> region.completions(
            region.jump_indices[chain.indices[from] as int] as int,
        ) <= rank_from(region, chain.indices, chain.states, from) < region.completions(
            chain.indices[from] as int,
        ),
    decreases chain.indices.len() - from,
{
    if from < chain.indices.len() {
        let index = chain.indices[from] as int;
        let state = chain.states[from] as int;
        let jump = region.jump_indices[index] as int;
        lemma_rank_from_bound(region, chain, from + 1);
        assert(chain.indices[0] < chain.indices[from]);
        lemma_completions_positive(region, jump);
        lemma_completions_positive(region, index + 1);
        let next = region.completions(index + 1) as int;
        let rest = rank_from(region, chain.indices, chain.states, from + 1);
        if from + 1 < chain.indices.len() {
            let later = chain.indices[from + 1] as int;
            lemma_completions_monotonic(region, index + 1, later);
        }
        assert(rest <= next - 1);
        let most = region.states[index] as int;
        assert(1 <= state <= most);
        assert((state - 1) * next >= 0) by (nonlinear_arith)
            requires
                state >= 1,
                next >= 0,
        ;
        assert((state - 1) * next + next <= most * next) by (nonlinear_arith)
            requires
                state <= most,
                next >= 0,
        ;
    }
}

/// Two chains of one rank are one chain.
proof fn lemma_same_rank(region: &RegionNodes, c: ChainView, d: ChainView, from: int)
    requires
        region.wf(),
        c.wf(region),
        d.wf(region),
        1 <= from <= c.indices.len(),
        from <= d.indices.len(),
        c.indices.take(from) == d.indices.take(from),
        c.states.take(from) == d.states.take(from),
        rank_from(region, c.indices, c.states, from) == rank_from(
            region,
            d.indices,
            d.states,
            from,
        ),
    ensures
        c.indices == d.indices,
        c.states == d.states,
    decreases c.indices.len() - from,
{
    lemma_rank_from_bound(region, c, from);
    lemma_rank_from_bound(region, d, from);
    if from == c.indices.len() || from == d.indices.len() {
        if from < c.indices.len() {
            lemma_completions_positive(
                region,
                region.jump_indices[c.indices[from] as int] as int,
            );
        }
        if from < d.indices.len() {
            lemma_completions_positive(
                region,
                region.jump_indices[d.indices[from] as int] as int,
            );
        }
        assert(c.indices.len() == d.indices.len());
        assert(c.indices.take(from) =~= c.indices);
        assert(d.indices.take(from) =~= d.indices);
        assert(c.states.take(from) =~= c.states);
        assert(d.states.take(from) =~= d.states);
    } else {
        let i = c.indices[from] as int;
        let j = d.indices[from] as int;
        lemma_rank_from_bound(region, c, from + 1);
        lemma_rank_from_bound(region, d, from + 1);
        lemma_completions_positive(region, i + 1);
        lemma_completions_positive(region, j + 1);
        assert(c.indices[0] < c.indices[from]);
        assert(d.indices[0] < d.indices[from]);
        if i < j {
            lemma_skipped(region, c, d, from);
        } else if j < i {
            lemma_skipped(region, d, c, from);
        } else if c.states[from] != d.states[from] {
            let next = region.completions(i + 1) as int;
            if from + 1 < c.indices.len() {
                lemma_completions_monotonic(region, i + 1, c.indices[from + 1] as int);
            }
            if from + 1 < d.indices.len() {
                lemma_completions_monotonic(region, i + 1, d.indices[from + 1] as int);
            }
            let high = if c.states[from] == 2 { c } else { d };
            let low = if c.states[from] == 2 { d } else { c };
            assert(high.states[from] == 2 && low.states[from] == 1);
            assert((2 - 1) * next == next) by (nonlinear_arith);
            assert((1 - 1) * next == 0) by (nonlinear_arith);
        } else {
            assert(c.indices.take(from + 1) =~= c.indices.take(from).push(c.indices[from]));
            assert(d.indices.take(from + 1) =~= d.indices.take(from).push(d.indices[from]));
            assert(c.states.take(from + 1) =~= c.states.take(from).push(c.states[from]));
            assert(d.states.take(from + 1) =~= d.states.take(from).push(d.states[from]));
            lemma_same_rank(region, c, d, from + 1);
        }
    }
}

/// Of two chains that are equal up to a position, the one that holds the
/// earlier node at that position ranks higher from there on.
proof fn lemma_skipped(region: &RegionNodes, c: ChainView, d: ChainView, from: int)
    requires
        region.wf(),
        c.wf(region),
        d.wf(region),
        1 <= from < c.indices.len(),
        from < d.indices.len(),
        c.indices.take(from) == d.indices.take(from),
        c.indices[from] < d.indices[from],
    ensures
        rank_from(region, d.indices, d.states, from) < rank_from(
            region,
            c.indices,
            c.states,
            from,
        ),
{
    let i = c.indices[from] as int;
    let j = d.indices[from] as int;
    lemma_rank_from_bound(region, c, from);
    lemma_rank_from_bound(region, d, from);
    assert(c.indices[0] < c.indices[from]);
    if j < region.jump_indices[i] {
        assert(region.is_ancestor(i, d.indices[from] as int));
        assert(d.indices.contains(i as usize));
        let k = choose|k: int| 0 <= k < d.indices.len() && d.indices[k] == i as usize;
        if k < from {
            assert(d.indices[k] == d.indices.take(from)[k]);
            assert(c.indices[k] == c.indices.take(from)[k]);
            assert(c.indices[k] < c.indices[from]);
        } else if k > from {
            assert(d.indices[from] < d.indices[k]);
        }
    }
    lemma_completions_monotonic(region, region.jump_indices[i] as int, j);
}

/// Two chains of the region of one rank are one chain.
pub proof fn lemma_rank_injective(region: &RegionNodes, c: ChainView, d: ChainView)
    requires
        region.wf(),
        c.wf(region),
        d.wf(region),
        c.rank(region) == d.rank(region),
    ensures
        c == d,
{
    lemma_rank_is_from(region, c.indices, c.states);
    lemma_rank_is_from(region, d.indices, d.states);
    assert(c.indices.take(1) =~= seq![0usize]);
    assert(d.indices.take(1) =~= seq![0usize]);
    assert(c.states.take(1) =~= seq![0usize]);
    assert(d.states.take(1) =~= seq![0usize]);
    lemma_same_rank(region, c, d, 1);
}

/// Every chain of the region is visited by the walk over the region: as
/// many steps after the first chain as chains rank higher than it.
pub proof fn lemma_walk_complete(region: &RegionNodes, chain: ChainView)
    requires
        region.wf(),
        chain.wf(region),
    ensures
        0 <= chain.rank(region) < region.completions(1),
        visit(
            region,
            full_chain(region),
            (region.completions(1) - 1 - chain.rank(region)) as nat,
        ) == chain,
{
    lemma_rank_is_from(region, chain.indices, chain.states);
    lemma_rank_from_bound(region, chain, 1);
    lemma_completions_positive(region, 1);
    if chain.indices.len() > 1 {
        assert(chain.indices[0] < chain.indices[1]);
        lemma_completions_monotonic(region, 1, chain.indices[1] as int);
    }
    let steps = (region.completions(1) - 1 - chain.rank(region)) as nat;
    let visited = visit(region, full_chain(region), steps);
    lemma_visit_ranked(region, steps);
    lemma_rank_is_from(region, visited.indices, visited.states);
    assert(chain.indices.take(1) =~= seq![0usize]);
    assert(visited.indices.take(1) =~= seq![0usize]);
    assert(chain.states.take(1) =~= seq![0usize]);
    assert(visited.states.take(1) =~= seq![0usize]);
    lemma_same_rank(region, chain, visited, 1);
}

/// The walk over a region visits no chain twice.
pub proof fn lemma_walk_once(region: &RegionNodes, first: nat, second: nat)
    requires
        region.wf(),
        first < second < region.completions(1),
    ensures
        visit(region, full_chain(region), first) != visit(region, full_chain(region), second),
{
    lemma_visit_ranked(region, first);
    lemma_visit_ranked(region, second);
}

} // verus!
