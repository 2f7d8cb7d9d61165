//! What the jobs of a split walk visit together: every chain of the region.

use crate::chain::{
    ascending, full_chain, lemma_completions_positive, lemma_fingerprint_injective,
    score_dominates, successor, visit, visits, ChainView,
};
use crate::chain_map::{absorbed, holds, merged_all};
use crate::dominance::{dominant_in, lemma_filter_members};
use crate::generate::{lemma_job_end_unique, walk_arena};
use crate::chain::Chain;
use crate::dominance::views;
use crate::job_control::{
    are_jobs_for, are_jobs_of, are_prefix_chains, chosen_window, job_arenas,
    lemma_job_extendable, lemma_prefix_chain_wf, missing_from, stop_value_of, JobControl,
};
use crate::region_nodes::RegionNodes;
use crate::walk::{
    extended, flipped, lemma_extended, lemma_flipped, lemma_popped, lemma_rank_injective,
    lemma_successor, lemma_visit_ranked, lemma_walk_complete, popped,
};
use vstd::prelude::*;

verus! {

/// `chain` begins with `prefix`, and every further node of it is `stop` or
/// a later one.
pub open spec fn continues(chain: ChainView, prefix: ChainView, stop: int) -> bool {
    &&& chain.indices.len() >= prefix.indices.len()
    &&& chain.indices.take(prefix.indices.len() as int) == prefix.indices
    &&& chain.states.take(prefix.indices.len() as int) == prefix.states
    &&& forall|m: int|
        prefix.indices.len() <= m < chain.indices.len() ==> #[trigger] chain.indices[m] >= stop
}

/// The walk from a prefix with every node from `stop` on pushed visits
/// chains that begin with the prefix, each of the next lower rank, and
/// comes to the prefix itself when as many chains are visited as there are
/// ways to go on from `stop`.
pub proof fn lemma_job_walk(region: &RegionNodes, prefix: ChainView, stop: int, steps: nat)
    requires
        region.wf(),
        prefix.wf(region),
        prefix.indices.last() < stop <= region.num_nodes,
        prefix.extendable(stop, region),
        steps < region.completions(stop),
    ensures
        ({
            let start = extended(region, prefix, stop, region.num_nodes as int);
            let chain = visit(region, start, steps);
            &&& chain.wf(region)
            &&& chain.rank(region) == prefix.rank(region) + region.completions(stop) - 1 - steps
            &&& continues(chain, prefix, stop)
            &&& steps + 1 < region.completions(stop) ==> chain.indices.len()
                > prefix.indices.len()
            &&& steps + 1 == region.completions(stop) ==> chain == prefix
        }),
    decreases steps,
{
    let end = region.num_nodes as int;
    let start = extended(region, prefix, stop, end);
    let chain = visit(region, start, steps);
    let held = prefix.indices.len() as int;
    lemma_completions_positive(region, end);
    if steps == 0 {
        lemma_extended(region, prefix, stop, end);
        assert(start.indices.take(held) =~= prefix.indices);
        assert(start.states.take(held) =~= prefix.states);
    } else {
        let before = visit(region, start, (steps - 1) as nat);
        lemma_job_walk(region, prefix, stop, (steps - 1) as nat);
        lemma_successor(region, before);
        let top = before.indices.last() as int;
        assert(before.indices[before.indices.len() - 1] >= stop);
        assert(chain.indices.take(held) =~= before.indices.take(held));
        assert(chain.states.take(held) =~= before.states.take(held));
        assert forall|m: int| held <= m < chain.indices.len() implies #[trigger] chain.indices[m]
            >= stop by {
            if m < before.indices.len() - 1 {
                assert(chain.indices[m] == before.indices[m]);
            } else if before.states.last() == 2 && m == before.indices.len() - 1 {
                assert(chain.indices[m] == before.indices[m]);
            }
        }
    }
    if steps + 1 == region.completions(stop) {
        lemma_rank_injective(region, chain, prefix);
    } else if chain.indices.len() == held {
        assert(chain.indices.take(held) =~= chain.indices);
        assert(chain.states.take(held) =~= chain.states);
        assert(chain.usage_counts == prefix.usage_counts);
    }
}

/// A job visits as many chains as there are ways to go on from where it
/// stops: its prefix with every chain of the nodes behind that, the prefix
/// alone at the end.
pub proof fn lemma_job_visits(region: &RegionNodes, job: &JobControl, prefix: ChainView, window: int)
    requires
        region.wf(),
        prefix.wf(region),
        prefix.indices.last() < window <= region.num_nodes,
        job.is_job_of(region, prefix, window, job.job_id as int),
        prefix.indices.last() < job.stop_value <= region.num_nodes,
        prefix.extendable(job.stop_value as int, region),
    ensures
        job.chain@ == extended(region, prefix, job.stop_value as int, region.num_nodes as int),
        job.visit_count(region) == region.completions(job.stop_value as int),
{
    let stop = job.stop_value as int;
    let end = region.num_nodes as int;
    let start = extended(region, prefix, stop, end);
    let count = region.completions(stop);
    lemma_completions_positive(region, stop);
    assert(job.chain@.indices =~= start.indices);
    assert(job.chain@.states =~= start.states);
    assert(job.chain@ == start);
    assert forall|k: nat| k + 1 < count implies job.in_territory(
        #[trigger] visit(region, job.chain@, k),
    ) by {
        lemma_job_walk(region, prefix, stop, k);
        let chain = visit(region, start, k);
        assert(chain.indices[prefix.indices.len() as int] >= stop);
    }
    lemma_job_walk(region, prefix, stop, (count - 1) as nat);
    assert(job.ends_after(region, count));
    if exists|other: nat| job.ends_after(region, other) {
        lemma_job_end_unique(region, job, count, job.visit_count(region));
    }
}

/// Where a job stops, for a prefix that leaves out no node whose subtree
/// goes on behind the window, or for one that leaves out such a node.
proof fn lemma_stop_value_is(
    region: &RegionNodes,
    prefix: ChainView,
    window: int,
    behind: int,
)
    requires
        region.wf(),
        1 <= window <= behind <= region.num_nodes,
        forall|k: int| 0 <= k < prefix.indices.len() ==> #[trigger] prefix.indices[k] < window,
        forall|d: int|
            0 <= d < window && !prefix.indices.contains(d as usize)
                ==> #[trigger] region.jump_indices[d] <= behind,
        behind > window ==> exists|d: int|
            0 <= d < window && !prefix.indices.contains(d as usize)
                && #[trigger] region.jump_indices[d] == behind,
    ensures
        stop_value_of(
            region.jump_indices@,
            missing_from(prefix.indices, ascending(0, window)),
            window,
        ) == behind,
{
    let all = ascending(0, window);
    let absent = |index: usize| !prefix.indices.contains(index);
    let missing = missing_from(prefix.indices, all);
    let stop = stop_value_of(region.jump_indices@, missing, window);
    lemma_filter_members(all, absent);
    crate::job_control::lemma_stop_value_bounds(region.jump_indices@, missing, window);
    assert forall|j: int| 0 <= j < missing.len() implies region.jump_indices[#[trigger] missing[j] as int]
        <= behind by {
        assert(all.contains(missing[j]));
        assert(absent(missing[j]));
    }
    if behind > window {
        let d = choose|d: int|
            0 <= d < window && !prefix.indices.contains(d as usize)
                && #[trigger] region.jump_indices[d] == behind;
        assert(all[d] == d as usize);
        assert(absent(all[d]));
        all.lemma_filter_contains(absent, d);
        let j = choose|j: int| 0 <= j < missing.len() && missing[j] == d as usize;
        assert(stop >= region.jump_indices[missing[j] as int]);
    }
}

/// Where the job of a prefix stops.
pub open spec fn stop_of(region: &RegionNodes, prefix: ChainView, window: int) -> int {
    stop_value_of(
        region.jump_indices@,
        missing_from(prefix.indices, ascending(0, window)),
        window,
    )
}

/// A node before the last node of a chain that the chain leaves out has its
/// subtree before that last node.
proof fn lemma_left_out_before(region: &RegionNodes, chain: ChainView, d: int)
    requires
        region.wf(),
        chain.wf(region),
        0 <= d < chain.indices.last(),
        !chain.indices.contains(d as usize),
    ensures
        region.jump_indices[d] <= chain.indices.last(),
{
    let last = chain.indices.len() - 1;
    if region.jump_indices[d] > chain.indices.last() {
        assert(region.is_ancestor(d, chain.indices[last] as int));
    }
}

/// A chain whose last node is turned to storage, with the nodes behind it
/// pushed up to the window: it ranks lower by the ways to go on from the
/// window, which is where its job stops.
proof fn lemma_next_prefix_turned(
    region: &RegionNodes,
    chain: ChainView,
    next: ChainView,
    window: int,
)
    requires
        region.wf(),
        chain.wf(region),
        next.wf(region),
        chain.states.last() == 2,
        chain.indices.last() < window <= region.num_nodes,
        next.indices == chain.indices + ascending(chain.indices.last() + 1, window),
        next.states == chain.states.update(chain.states.len() - 1, 1) + region.states@.subrange(
            chain.indices.last() + 1,
            window,
        ),
    ensures
        chain.rank(region) == next.rank(region) + region.completions(window),
        stop_of(region, next, window) == window,
{
    let top = chain.indices.last() as int;
    let held = chain.indices.len() as int;
    let turned = flipped(region, chain);
    lemma_flipped(region, chain);
    lemma_extended(region, turned, top + 1, window);
    let same = extended(region, turned, top + 1, window);
    assert(next.indices =~= same.indices);
    assert(next.states =~= same.states);
    assert forall|k: int| 0 <= k < next.indices.len() implies #[trigger] next.indices[k]
        < window by {
        if k < held {
            assert(next.indices[k] == chain.indices[k]);
            assert(chain.indices[k] <= chain.indices[held - 1]);
        }
    }
    assert forall|d: int|
        0 <= d < window && !next.indices.contains(d as usize) implies #[trigger] region.jump_indices[d]
        <= window by {
        if d >= top {
            let at = if d == top { held - 1 } else { held + (d - (top + 1)) };
            assert(next.indices[at] == d as usize);
        } else {
            assert(next.indices[held - 1] == top as usize);
            if region.jump_indices[d] > top {
                assert(region.is_ancestor(d, next.indices[held - 1] as int));
            }
        }
    }
    lemma_stop_value_is(region, next, window, window);
}

/// A chain without its last node, with the nodes behind the subtree of that
/// node pushed up to the window: it ranks lower by the ways to go on from
/// the window, which is where its job stops.
proof fn lemma_next_prefix_popped(
    region: &RegionNodes,
    chain: ChainView,
    next: ChainView,
    window: int,
)
    requires
        region.wf(),
        chain.wf(region),
        next.wf(region),
        chain.indices.len() > 1,
        chain.states.last() != 2,
        chain.indices.last() < window <= region.num_nodes,
        region.jump_indices[chain.indices.last() as int] <= window,
        next.indices == chain.indices.drop_last() + ascending(
            region.jump_indices[chain.indices.last() as int] as int,
            window,
        ),
        next.states == chain.states.drop_last() + region.states@.subrange(
            region.jump_indices[chain.indices.last() as int] as int,
            window,
        ),
    ensures
        chain.rank(region) == next.rank(region) + region.completions(window),
        stop_of(region, next, window) == window,
{
    let top = chain.indices.last() as int;
    let held = chain.indices.len() as int;
    let shorter = popped(region, chain);
    let jump = region.jump_indices[top] as int;
    lemma_popped(region, chain);
    lemma_extended(region, shorter, jump, window);
    let same = extended(region, shorter, jump, window);
    assert(next.indices =~= same.indices);
    assert(next.states =~= same.states);
    assert forall|k: int| 0 <= k < next.indices.len() implies #[trigger] next.indices[k]
        < window by {
        if k < held - 1 {
            assert(next.indices[k] == chain.indices[k]);
            assert(chain.indices[k] <= chain.indices[held - 1]);
        }
    }
    assert forall|d: int|
        0 <= d < window && !next.indices.contains(d as usize) implies #[trigger] region.jump_indices[d]
        <= window by {
        if d >= jump {
            let at = held - 1 + (d - jump);
            assert(next.indices[at] == d as usize);
        } else if d > top {
            assert(region.jump_indices[d] <= region.jump_indices[top]);
        } else if d < top {
            if chain.indices.contains(d as usize) {
                let at = choose|at: int| 0 <= at < held && chain.indices[at] == d as usize;
                assert(next.indices[at] == d as usize);
            }
            lemma_left_out_before(region, chain, d);
        }
    }
    lemma_stop_value_is(region, next, window, window);
}

/// A chain without its last node, whose subtree goes on behind the window:
/// it ranks lower by the ways to go on from behind that subtree, which is
/// where its job stops.
proof fn lemma_next_prefix_cut(
    region: &RegionNodes,
    chain: ChainView,
    next: ChainView,
    window: int,
)
    requires
        region.wf(),
        chain.wf(region),
        next.wf(region),
        chain.indices.len() > 1,
        chain.states.last() != 2,
        chain.indices.last() < window <= region.num_nodes,
        region.jump_indices[chain.indices.last() as int] > window,
        next.indices == chain.indices.drop_last(),
        next.states == chain.states.drop_last(),
    ensures
        chain.rank(region) == next.rank(region) + region.completions(
            region.jump_indices[chain.indices.last() as int] as int,
        ),
        stop_of(region, next, window) == region.jump_indices[chain.indices.last() as int],
{
    let top = chain.indices.last() as int;
    let held = chain.indices.len() as int;
    let jump = region.jump_indices[top] as int;
    lemma_popped(region, chain);
    assert forall|k: int| 0 <= k < next.indices.len() implies #[trigger] next.indices[k]
        < window by {
        assert(next.indices[k] == chain.indices[k]);
        assert(chain.indices[k] <= chain.indices[held - 1]);
    }
    assert forall|d: int|
        0 <= d < window && !next.indices.contains(d as usize) implies #[trigger] region.jump_indices[d]
        <= jump by {
        if d > top {
            assert(region.jump_indices[d] <= region.jump_indices[top]);
        } else if d < top {
            if chain.indices.contains(d as usize) {
                let at = choose|at: int| 0 <= at < held && chain.indices[at] == d as usize;
                assert(next.indices[at] == d as usize);
            }
            lemma_left_out_before(region, chain, d);
        }
    }
    assert(!next.indices.contains(top as usize)) by {
        if next.indices.contains(top as usize) {
            let at = choose|at: int|
                0 <= at < next.indices.len() && next.indices[at] == top as usize;
            assert(chain.indices[at] < chain.indices[held - 1]);
        }
    }
    lemma_stop_value_is(region, next, window, jump);
}

/// In the walk over the first nodes of a region, the chain after a chain
/// ranks lower in the whole region by the ways to go on from where its job
/// stops.
pub proof fn lemma_next_prefix(region: &RegionNodes, cut: &RegionNodes, chain: ChainView)
    requires
        region.wf(),
        cut.wf(),
        cut.is_prefix_of(region),
        chain.wf(cut),
        chain.indices.len() > 1,
    ensures
        successor(cut, chain).wf(cut),
        successor(cut, chain).wf(region),
        chain.rank(region) == successor(cut, chain).rank(region) + region.completions(
            stop_of(region, successor(cut, chain), cut.num_nodes as int),
        ),
        cut.num_nodes <= stop_of(region, successor(cut, chain), cut.num_nodes as int)
            <= region.num_nodes,
{
    let window = cut.num_nodes as int;
    let next = successor(cut, chain);
    let top = chain.indices.last() as int;
    let held = chain.indices.len() as int;
    lemma_successor(cut, chain);
    lemma_prefix_chain_wf(chain, cut, region);
    lemma_prefix_chain_wf(next, cut, region);
    assert(chain.indices[held - 1] < window);
    assert(chain.indices[0] < chain.indices[held - 1]);
    let jump = region.jump_indices[top] as int;
    assert(cut.jump_indices[top] == if jump <= window { jump } else { window });
    if chain.states.last() == 2 {
        assert(cut.states@.subrange(top + 1, window) =~= region.states@.subrange(top + 1, window));
        lemma_next_prefix_turned(region, chain, next, window);
    } else if jump <= window {
        assert(cut.states@.subrange(jump, window) =~= region.states@.subrange(jump, window));
        lemma_next_prefix_popped(region, chain, next, window);
    } else {
        assert(ascending(window, window) =~= Seq::<usize>::empty());
        assert(cut.states@.subrange(window, window) =~= Seq::<usize>::empty());
        assert(next.indices =~= chain.indices.drop_last());
        assert(next.states =~= chain.states.drop_last());
        lemma_next_prefix_cut(region, chain, next, window);
    }
}

/// The prefix of the job `job`: the chain that the walk over the first
/// nodes visits after so many steps.
pub open spec fn prefix_at(cut: &RegionNodes, job: nat) -> ChainView {
    visit(cut, full_chain(cut), job)
}

/// Where the job `job` stops.
pub open spec fn stop_at(region: &RegionNodes, cut: &RegionNodes, job: nat) -> int {
    stop_of(region, prefix_at(cut, job), cut.num_nodes as int)
}

/// The chain that the job `job` starts from.
pub open spec fn start_at(region: &RegionNodes, cut: &RegionNodes, job: nat) -> ChainView {
    extended(region, prefix_at(cut, job), stop_at(region, cut, job), region.num_nodes as int)
}

/// The prefix of a job is a chain of the region onto which every node can
/// be pushed from where the job stops.
pub proof fn lemma_prefix_at(region: &RegionNodes, cut: &RegionNodes, job: nat)
    requires
        region.wf(),
        cut.wf(),
        cut.is_prefix_of(region),
        job < cut.completions(1),
    ensures
        prefix_at(cut, job).wf(cut),
        prefix_at(cut, job).wf(region),
        prefix_at(cut, job).indices.last() < cut.num_nodes,
        cut.num_nodes <= stop_at(region, cut, job) <= region.num_nodes,
        prefix_at(cut, job).extendable(stop_at(region, cut, job), region),
        prefix_at(cut, job).rank(cut) == cut.completions(1) - 1 - job,
{
    let prefix = prefix_at(cut, job);
    lemma_visit_ranked(cut, job);
    lemma_prefix_chain_wf(prefix, cut, region);
    assert(prefix.indices[prefix.indices.len() - 1] < cut.num_nodes);
    lemma_job_extendable(prefix, region, cut.num_nodes as int);
}

/// The first job starts from the chain of all nodes.
proof fn lemma_first_job(region: &RegionNodes, cut: &RegionNodes)
    requires
        region.wf(),
        cut.wf(),
        cut.is_prefix_of(region),
    ensures
        stop_at(region, cut, 0) == cut.num_nodes,
        start_at(region, cut, 0) == full_chain(region),
{
    let window = cut.num_nodes as int;
    let end = region.num_nodes as int;
    let prefix = prefix_at(cut, 0);
    lemma_completions_positive(cut, 1);
    lemma_prefix_at(region, cut, 0);
    assert forall|d: int|
        0 <= d < window && !prefix.indices.contains(d as usize) implies #[trigger] region.jump_indices[d]
        <= window by {
        assert(prefix.indices[d] == d as usize);
    }
    assert forall|k: int| 0 <= k < prefix.indices.len() implies #[trigger] prefix.indices[k]
        < window by {}
    lemma_stop_value_is(region, prefix, window, window);
    let start = start_at(region, cut, 0);
    lemma_extended(region, prefix, window, end);
    assert(start.indices =~= ascending(0, end));
    assert(cut.states@ =~= region.states@.take(window));
    assert(start.states =~= region.states@);
    crate::walk::lemma_full_chain_ranked(region);
    lemma_rank_injective(region, start, full_chain(region));
}

/// Every rank from the rank of the prefix of a job upwards belongs to a
/// chain that this job or an earlier one visits.
proof fn lemma_rank_covered(region: &RegionNodes, cut: &RegionNodes, upto: nat, rank: int)
    requires
        region.wf(),
        cut.wf(),
        cut.is_prefix_of(region),
        upto < cut.completions(1),
        prefix_at(cut, upto).rank(region) <= rank < region.completions(1),
    ensures
        exists|job: nat, steps: nat|
            job <= upto && steps < region.completions(stop_at(region, cut, job)) && (#[trigger] visit(
                region,
                start_at(region, cut, job),
                steps,
            )).rank(region) == rank,
    decreases upto,
{
    let prefix = prefix_at(cut, upto);
    let stop = stop_at(region, cut, upto);
    lemma_prefix_at(region, cut, upto);
    lemma_completions_positive(region, stop);
    let top = prefix.rank(region) + region.completions(stop) - 1;
    if upto == 0 {
        lemma_first_job(region, cut);
        crate::walk::lemma_full_chain_ranked(region);
        lemma_job_walk(region, prefix, stop, 0);
    } else {
        let before = prefix_at(cut, (upto - 1) as nat);
        lemma_prefix_at(region, cut, (upto - 1) as nat);
        if before.indices.len() <= 1 {
            assert(before.rank(cut) == 0);
        }
        lemma_next_prefix(region, cut, before);
        if rank > top {
            lemma_rank_covered(region, cut, (upto - 1) as nat, rank);
        }
    }
    if rank <= top {
        let steps = (top - rank) as nat;
        lemma_job_walk(region, prefix, stop, steps);
        assert(visit(region, start_at(region, cut, upto), steps).rank(region) == rank);
    }
}

/// Every chain of the region is visited by one of the jobs.
pub proof fn lemma_jobs_cover(region: &RegionNodes, cut: &RegionNodes, chain: ChainView)
    requires
        region.wf(),
        cut.wf(),
        cut.is_prefix_of(region),
        chain.wf(region),
    ensures
        exists|job: nat, steps: nat|
            job < cut.completions(1) && steps < region.completions(stop_at(region, cut, job))
                && #[trigger] visit(region, start_at(region, cut, job), steps) == chain,
{
    let last = (cut.completions(1) - 1) as nat;
    lemma_completions_positive(cut, 1);
    lemma_prefix_at(region, cut, last);
    let prefix = prefix_at(cut, last);
    if prefix.indices.len() > 1 {
        crate::chain::lemma_rank_positive(prefix, cut);
    }
    assert(prefix.rank(region) == 0);
    lemma_walk_complete(region, chain);
    lemma_rank_covered(region, cut, last, chain.rank(region));
    let (job, steps) = choose|job: nat, steps: nat|
        job <= last && steps < region.completions(stop_at(region, cut, job)) && (#[trigger] visit(
            region,
            start_at(region, cut, job),
            steps,
        )).rank(region) == chain.rank(region);
    lemma_prefix_at(region, cut, job);
    lemma_job_walk(region, prefix_at(cut, job), stop_at(region, cut, job), steps);
    lemma_rank_injective(region, visit(region, start_at(region, cut, job), steps), chain);
}

/// `arena` holds the best of the region: for every capacity that a chain of
/// the region gives, a cheapest chain of the region that gives it, under its
/// fingerprint, and nothing else.
pub open spec fn is_best_of(region: &RegionNodes, arena: Map<nat, ChainView>) -> bool {
    &&& forall|chain: ChainView| #[trigger]
        chain.wf(region) ==> arena.contains_key(chain.key())
            && arena[chain.key()].usage_counts.cost <= chain.usage_counts.cost
    &&& forall|key: nat| #[trigger]
        arena.contains_key(key) ==> arena[key].wf(region) && arena[key].key() == key
}

/// No chain of the region dominates `chain`, which is one of them.
pub open spec fn undominated(region: &RegionNodes, chain: ChainView) -> bool {
    &&& chain.wf(region)
    &&& forall|other: ChainView| #[trigger]
        other.wf(region) ==> !score_dominates(other.score(), chain.score())
}

/// An arena that was offered chains holds under a fingerprint one of the
/// chains with that fingerprint, and none of them is cheaper.
pub proof fn lemma_absorbed(chains: Seq<ChainView>, key: nat)
    ensures
        ({
            let arena = absorbed(Map::empty(), chains);
            &&& arena.contains_key(key) ==> chains.contains(arena[key]) && arena[key].key() == key
            &&& forall|i: int|
                0 <= i < chains.len() && (#[trigger] chains[i]).key() == key
                    ==> arena.contains_key(key) && arena[key].usage_counts.cost
                    <= chains[i].usage_counts.cost
        }),
    decreases chains.len(),
{
    let arena = absorbed(Map::empty(), chains);
    if chains.len() > 0 {
        let front = chains.drop_last();
        let before = absorbed(Map::empty(), front);
        lemma_absorbed(front, key);
        if arena.contains_key(key) {
            if before.contains_key(key) && arena[key] == before[key] {
                let at = choose|at: int| 0 <= at < front.len() && front[at] == before[key];
                assert(chains[at] == front[at]);
            } else {
                assert(chains[chains.len() - 1] == chains.last());
            }
        }
        assert forall|i: int|
            0 <= i < chains.len() && (#[trigger] chains[i]).key() == key implies arena.contains_key(
            key,
        ) && arena[key].usage_counts.cost <= chains[i].usage_counts.cost by {
            if i < front.len() {
                assert(front[i] == chains[i]);
            }
        }
    }
}

/// The merged arena holds under a fingerprint what one of the arenas holds
/// under it, and none of them holds a cheaper chain.
pub proof fn lemma_merged_all(arenas: Seq<Map<nat, ChainView>>, count: int, key: nat)
    requires
        0 <= count <= arenas.len(),
    ensures
        ({
            let all = merged_all(arenas, count);
            &&& all.contains_key(key) ==> exists|j: int|
                0 <= j < count && (#[trigger] arenas[j]).contains_key(key) && all[key]
                    == arenas[j][key]
            &&& forall|j: int|
                0 <= j < count && (#[trigger] arenas[j]).contains_key(key) ==> all.contains_key(key)
                    && all[key].usage_counts.cost <= arenas[j][key].usage_counts.cost
        }),
    decreases count,
{
    if count > 0 {
        lemma_merged_all(arenas, count - 1, key);
        let before = merged_all(arenas, count - 1);
        let all = merged_all(arenas, count);
        if all.contains_key(key) {
            if before.contains_key(key) && all[key] == before[key] {
                let j = choose|j: int|
                    0 <= j < count - 1 && (#[trigger] arenas[j]).contains_key(key) && before[key]
                        == arenas[j][key];
                assert(arenas[j].contains_key(key) && all[key] == arenas[j][key]);
            } else {
                assert(arenas[count - 1].contains_key(key));
            }
        }
    }
}

/// The arena of a walk over the whole region holds the best of the region.
pub proof fn lemma_walk_arena_best(region: &RegionNodes)
    requires
        region.wf(),
    ensures
        is_best_of(region, walk_arena(region)),
{
    let total = region.completions(1);
    let chains = visits(region, full_chain(region), total);
    let arena = walk_arena(region);
    assert forall|chain: ChainView| #[trigger] chain.wf(region) implies arena.contains_key(
        chain.key(),
    ) && arena[chain.key()].usage_counts.cost <= chain.usage_counts.cost by {
        lemma_walk_complete(region, chain);
        let steps = total - 1 - chain.rank(region);
        assert(chains[steps] == chain);
        lemma_absorbed(chains, chain.key());
    }
    assert forall|key: nat| #[trigger] arena.contains_key(key) implies arena[key].wf(region)
        && arena[key].key() == key by {
        lemma_absorbed(chains, key);
        let at = choose|at: int| 0 <= at < chains.len() && chains[at] == arena[key];
        lemma_visit_ranked(region, at as nat);
    }
}

/// An arena that holds the best of the region holds, among them, the chains
/// that no chain of the region dominates as its dominant chains.
pub proof fn lemma_dominant_is_undominated(
    region: &RegionNodes,
    arena: Map<nat, ChainView>,
    chain: ChainView,
)
    requires
        is_best_of(region, arena),
        dominant_in(arena, chain),
    ensures
        undominated(region, chain),
{
    assert(arena.contains_key(chain.key()));
    assert forall|other: ChainView| #[trigger] other.wf(region) implies !score_dominates(
        other.score(),
        chain.score(),
    ) by {
        let best = arena[other.key()];
        assert(arena.contains_key(other.key()));
        lemma_fingerprint_injective(
            best.usage_counts.worker_count as nat,
            best.usage_counts.warehouse_count as nat,
            other.usage_counts.worker_count as nat,
            other.usage_counts.warehouse_count as nat,
        );
        assert(!score_dominates(best.score(), chain.score()));
    }
}

/// An arena that holds the best of the region holds, for every chain that
/// no chain of the region dominates, a dominant chain that costs and gives
/// the same.
pub proof fn lemma_undominated_is_dominant(
    region: &RegionNodes,
    arena: Map<nat, ChainView>,
    chain: ChainView,
)
    requires
        is_best_of(region, arena),
        undominated(region, chain),
    ensures
        dominant_in(arena, arena[chain.key()]),
        arena[chain.key()].score() == chain.score(),
{
    let best = arena[chain.key()];
    assert(arena.contains_key(chain.key()));
    lemma_fingerprint_injective(
        best.usage_counts.worker_count as nat,
        best.usage_counts.warehouse_count as nat,
        chain.usage_counts.worker_count as nat,
        chain.usage_counts.warehouse_count as nat,
    );
    assert(best.wf(region));
    assert(!score_dominates(best.score(), chain.score()));
    assert forall|k: nat| arena.contains_key(k) implies !score_dominates(
        #[trigger] arena[k].score(),
        best.score(),
    ) by {
        assert(arena[k].wf(region));
    }
}

/// The jobs of the chains of the first nodes of a region leave arenas that
/// hold, merged, the best of the region.
proof fn lemma_jobs_of_cut_best(
    region: &RegionNodes,
    cut: &RegionNodes,
    prefixes: Seq<Chain>,
    jobs: Seq<JobControl>,
)
    requires
        region.wf(),
        cut.wf(),
        cut.is_prefix_of(region),
        prefixes.len() == cut.completions(1),
        views(prefixes) == visits(cut, full_chain(cut), prefixes.len()),
        prefixes[0].indices.len() == cut.num_nodes,
        are_jobs_of(region, prefixes, jobs),
    ensures
        is_best_of(region, merged_all(job_arenas(region, jobs), jobs.len() as int)),
{
    let window = cut.num_nodes as int;
    let arenas = job_arenas(region, jobs);
    let all = merged_all(arenas, jobs.len() as int);
    assert forall|i: int| 0 <= i < jobs.len() implies (#[trigger] jobs[i]).chain@ == start_at(
        region,
        cut,
        i as nat,
    ) && jobs[i].visit_count(region) == region.completions(stop_at(region, cut, i as nat)) by {
        assert(views(prefixes)[i] == prefix_at(cut, i as nat));
        lemma_prefix_at(region, cut, i as nat);
        lemma_job_visits(region, &jobs[i], prefix_at(cut, i as nat), window);
    }
    assert forall|chain: ChainView| #[trigger] chain.wf(region) implies all.contains_key(
        chain.key(),
    ) && all[chain.key()].usage_counts.cost <= chain.usage_counts.cost by {
        lemma_jobs_cover(region, cut, chain);
        let (job, steps) = choose|job: nat, steps: nat|
            job < cut.completions(1) && steps < region.completions(stop_at(region, cut, job))
                && #[trigger] visit(region, start_at(region, cut, job), steps) == chain;
        let visited = visits(
            region,
            jobs[job as int].chain@,
            jobs[job as int].visit_count(region),
        );
        assert(visited[steps as int] == chain);
        lemma_absorbed(visited, chain.key());
        assert(arenas[job as int] == absorbed(Map::empty(), visited));
        lemma_merged_all(arenas, jobs.len() as int, chain.key());
    }
    assert forall|key: nat| #[trigger] all.contains_key(key) implies all[key].wf(region)
        && all[key].key() == key by {
        lemma_merged_all(arenas, jobs.len() as int, key);
        let j = choose|j: int|
            0 <= j < jobs.len() && (#[trigger] arenas[j]).contains_key(key) && all[key]
                == arenas[j][key];
        let visited = visits(region, jobs[j].chain@, jobs[j].visit_count(region));
        assert(arenas[j] == absorbed(Map::empty(), visited));
        lemma_absorbed(visited, key);
        let at = choose|at: int| 0 <= at < visited.len() && visited[at] == all[key];
        lemma_prefix_at(region, cut, j as nat);
        lemma_job_walk(
            region,
            prefix_at(cut, j as nat),
            stop_at(region, cut, j as nat),
            at as nat,
        );
    }
}

/// The jobs that split the walk over a region leave arenas that hold,
/// merged, the best of the region.
pub proof fn lemma_job_arenas_best(region: &RegionNodes, num_jobs: int, jobs: Seq<JobControl>)
    requires
        region.wf(),
        are_jobs_for(region, num_jobs, jobs),
    ensures
        is_best_of(region, merged_all(job_arenas(region, jobs), jobs.len() as int)),
{
    let window = chosen_window(region, num_jobs);
    let prefixes = choose|prefixes: Seq<Chain>|
        {
            &&& #[trigger] are_prefix_chains(region, window, prefixes)
            &&& prefixes.len() >= 1
            &&& prefixes[0].indices@ == ascending(0, window)
            &&& are_jobs_of(region, prefixes, jobs)
        };
    let cut = choose|cut: RegionNodes|
        {
            &&& #[trigger] cut.is_prefix_of(region)
            &&& cut.wf()
            &&& cut.num_nodes == window
            &&& prefixes.len() == cut.completions(1)
            &&& views(prefixes) == visits(&cut, full_chain(&cut), prefixes.len())
        };
    lemma_jobs_of_cut_best(region, &cut, prefixes, jobs);
}

} // verus!
