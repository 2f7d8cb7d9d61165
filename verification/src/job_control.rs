//! Splitting the walk over a region into jobs that share no chain.
//!
//! Every chain of the region that is cut off behind its first few nodes is a
//! prefix. A job walks the chains that begin with one prefix and go on
//! behind the nodes that the prefix leaves out.

use crate::chain::{
    ascending, ascends_below, full_chain, lemma_stack_cost_bound, lemma_stack_mode_sum_bound,
    stack_cost, stack_mode_sum, visit, visits, Chain, ChainView,
};
use crate::houseinfo::UsageCounters;
use crate::chain_map::{absorbed, absorbed_in_order};
use crate::dominance::{lemma_filter_members, views};
use crate::generate::generate_all;
use crate::region_nodes::RegionNodes;
use vstd::prelude::*;

verus! {

/// One job of a split walk.
///
/// The job starts at `chain` and goes on for as long as the chain holds more
/// than `stop_index` nodes and the node behind the prefix is `stop_value` or
/// a later one.
#[derive(Clone, Debug)]
pub struct JobControl {
    pub job_id: usize,
    pub chain: Chain,
    pub stop_index: usize,
    pub stop_value: usize,
    pub stop_state: usize,
}

/// `num_cpus::get`: the number of processors that the machine offers this
/// process. Nothing is claimed of it.
#[verifier::external_body]
fn available_cpus() -> (count: usize) {
    num_cpus::get()
}

/// The number of jobs to split a walk into: what was asked for, or one for
/// each of `cpus` processors as far as a byte counts them, and no more than
/// `cpus`.
pub open spec fn job_limit(jobs: Option<u8>, cpus: usize) -> usize {
    let asked = match jobs {
        Some(asked) => asked as usize,
        None => (cpus as u8) as usize,
    };
    if asked <= cpus {
        asked
    } else {
        cpus
    }
}

/// The entries of `set` that are not on the stack `indices`, in their order.
pub open spec fn missing_from(indices: Seq<usize>, set: Seq<usize>) -> Seq<usize> {
    set.filter(|index: usize| !indices.contains(index))
}

/// Where a job stops: behind the window of the prefixes, and behind the
/// subtree of every node that its prefix leaves out.
pub open spec fn stop_value_of(jump: Seq<usize>, deactivated: Seq<usize>, min_index: int) -> int
    decreases deactivated.len(),
{
    if deactivated.len() == 0 {
        min_index
    } else {
        let before = stop_value_of(jump, deactivated.drop_last(), min_index);
        let behind = jump[deactivated.last() as int] as int;
        if behind > before {
            behind
        } else {
            before
        }
    }
}

/// The largest window up to `upto` such that the chains of that window and
/// of every smaller one are no more than `num_jobs`; zero where not even the
/// window of the root alone is.
pub open spec fn fitting_window(region: &RegionNodes, num_jobs: int, upto: int) -> int
    decreases upto,
{
    if upto <= 0 {
        0
    } else {
        let before = fitting_window(region, num_jobs, upto - 1);
        if before == upto - 1 && region.completions_within(1, upto) <= num_jobs {
            upto
        } else {
            before
        }
    }
}

/// The window of the prefixes for `num_jobs` jobs: the largest that gives
/// no more prefixes than jobs, among the windows of up to `num_jobs` nodes;
/// the root alone where none does.
pub open spec fn chosen_window(region: &RegionNodes, num_jobs: int) -> int {
    let limit = if num_jobs <= region.num_nodes {
        num_jobs
    } else {
        region.num_nodes as int
    };
    let window = fitting_window(region, num_jobs, limit);
    if window == 0 {
        1
    } else {
        window
    }
}

/// `jobs` are the jobs of the prefixes `prefixes`, one of each in their
/// order.
pub open spec fn are_jobs_of(region: &RegionNodes, prefixes: Seq<Chain>, jobs: Seq<JobControl>)
    -> bool {
    &&& jobs.len() == prefixes.len()
    &&& forall|i: int|
        0 <= i < jobs.len() ==> (#[trigger] jobs[i]).is_job_of(
            region,
            prefixes[i]@,
            prefixes[0].indices.len() as int,
            i,
        )
}

/// `jobs` split the walk over `region` for `num_jobs` workers.
pub open spec fn are_jobs_for(region: &RegionNodes, num_jobs: int, jobs: Seq<JobControl>) -> bool {
    exists|prefixes: Seq<Chain>|
        {
            &&& #[trigger] are_prefix_chains(region, chosen_window(region, num_jobs), prefixes)
            &&& prefixes.len() >= 1
            &&& prefixes[0].indices@ == ascending(0, chosen_window(region, num_jobs))
            &&& are_jobs_of(region, prefixes, jobs)
        }
}

/// The arenas that `jobs` leave, in their order.
pub open spec fn job_arenas(region: &RegionNodes, jobs: Seq<JobControl>) -> Seq<
    Map<nat, ChainView>,
> {
    Seq::new(jobs.len(), |i: int| jobs[i].arena(region))
}

/// The chains of the arenas that `jobs` leave, by slot, in the order of the
/// jobs.
pub open spec fn job_stores(region: &RegionNodes, jobs: Seq<JobControl>) -> Seq<Seq<ChainView>> {
    Seq::new(jobs.len(), |i: int| jobs[i].stored(region))
}

/// `chains` are the chains of the first `num_nodes` nodes of `region`, as a
/// walk over those nodes alone visits them.
pub open spec fn are_prefix_chains(region: &RegionNodes, num_nodes: int, chains: Seq<Chain>)
    -> bool {
    exists|prefix: RegionNodes|
        {
            &&& #[trigger] prefix.is_prefix_of(region)
            &&& prefix.wf()
            &&& prefix.num_nodes == num_nodes
            &&& chains.len() == prefix.completions(1)
            &&& views(chains) == visits(&prefix, full_chain(&prefix), chains.len())
        }
}

impl Chain {
    /// The chain that a job starts from, with its counters summed anew over
    /// its stacks.
    pub fn new_par(region: &RegionNodes, job: &JobControl) -> (chain: Chain)
        requires
            region.wf(),
            job.chain.stacks_wf(region),
        ensures
            chain.indices@ == job.chain.indices@,
            chain.states@ == job.chain.states@,
            chain.counted(region),
            job.chain.counted(region) ==> chain@ == job.chain@,
    {
        let mut usage_counts = UsageCounters::new();
        let ghost n = region.num_nodes as int;
        let ghost indices = job.chain.indices@;
        let ghost states = job.chain.states@;
        proof {
            assert(indices.take(0) =~= Seq::<usize>::empty());
            assert(states.take(0) =~= Seq::<usize>::empty());
        }
        let mut i: usize = 0;
        while i < job.chain.states.len()
            invariant
                region.wf(),
                job.chain.stacks_wf(region),
                n == region.num_nodes,
                indices == job.chain.indices@,
                states == job.chain.states@,
                i <= states.len(),
                usage_counts.cost == stack_cost(region.costs@, indices.take(i as int)),
                usage_counts.warehouse_count == stack_mode_sum(
                    region.warehouse_counts@,
                    indices.take(i as int),
                    states.take(i as int),
                    1,
                ),
                usage_counts.worker_count == stack_mode_sum(
                    region.worker_counts@,
                    indices.take(i as int),
                    states.take(i as int),
                    2,
                ),
            decreases states.len() - i,
        {
            proof {
                let upto = indices.take(i + 1);
                let modes = states.take(i + 1);
                assert(upto.drop_last() =~= indices.take(i as int));
                assert(modes.drop_last() =~= states.take(i as int));
                assert(ascends_below(upto, n));
                lemma_stack_cost_bound(region.costs@, upto, n);
                lemma_stack_mode_sum_bound(region.warehouse_counts@, upto, modes, 1, n);
                lemma_stack_mode_sum_bound(region.worker_counts@, upto, modes, 2, n);
            }
            if i > 0 {
                let index = job.chain.indices[i];
                usage_counts.cost += region.costs[index];
                if job.chain.states[i] == 1 {
                    usage_counts.warehouse_count += region.warehouse_counts[index];
                } else {
                    usage_counts.worker_count += region.worker_counts[index];
                }
            }
            i += 1;
        }
        proof {
            assert(indices.take(indices.len() as int) =~= indices);
            assert(states.take(states.len() as int) =~= states);
        }
        Chain { indices: job.chain.indices.clone(), states: job.chain.states.clone(), usage_counts }
    }

    /// The entries of `set` that are not among the nodes of the chain, in
    /// their order.
    pub fn indices_difference_from_set(&self, set: &Vec<usize>) -> (missing: Vec<usize>)
        ensures
            missing@ == missing_from(self.indices@, set@),
    {
        let mut missing: Vec<usize> = Vec::new();
        let ghost absent = |index: usize| !self.indices@.contains(index);
        let mut i: usize = 0;
        proof {
            reveal(Seq::filter);
            assert(set@.take(0) =~= Seq::<usize>::empty());
        }
        while i < set.len()
            invariant
                i <= set.len(),
                absent == (|index: usize| !self.indices@.contains(index)),
                missing@ == set@.take(i as int).filter(absent),
            decreases set.len() - i,
        {
            let wanted = set[i];
            let mut found = false;
            let mut k: usize = 0;
            while k < self.indices.len()
                invariant
                    k <= self.indices.len(),
                    found == exists|j: int| 0 <= j < k && self.indices[j] == wanted,
                decreases self.indices.len() - k,
            {
                if self.indices[k] == wanted {
                    found = true;
                }
                k += 1;
            }
            proof {
                reveal(Seq::filter);
                assert(set@.take(i + 1).drop_last() =~= set@.take(i as int));
                assert(found == self.indices@.contains(wanted));
            }
            if !found {
                missing.push(wanted);
            }
            i += 1;
        }
        proof {
            assert(set@.take(set.len() as int) =~= set@);
        }
        missing
    }
}

impl JobControl {
    /// The job can be run: its chain is one of the region, and its prefix
    /// holds the root.
    pub open spec fn wf(&self, region: &RegionNodes) -> bool {
        &&& self.chain.wf(region)
        &&& self.stop_index >= 1
    }

    /// The job goes on from `chain`.
    pub open spec fn in_territory(&self, chain: ChainView) -> bool {
        chain.indices.len() > self.stop_index && chain.indices[self.stop_index as int]
            >= self.stop_value
    }

    /// The job visits `count` chains: all but the last lie in its territory.
    pub open spec fn ends_after(&self, region: &RegionNodes, count: nat) -> bool {
        &&& count >= 1
        &&& forall|k: nat|
            k + 1 < count ==> self.in_territory(#[trigger] visit(region, self.chain@, k))
        &&& !self.in_territory(visit(region, self.chain@, (count - 1) as nat))
    }

    /// The number of chains that the job visits.
    pub open spec fn visit_count(&self, region: &RegionNodes) -> nat {
        choose|count: nat| self.ends_after(region, count)
    }

    /// The arena that the job leaves: the cheapest chain of each fingerprint
    /// among those it visits, the earlier of two that cost the same.
    pub open spec fn arena(&self, region: &RegionNodes) -> Map<nat, ChainView> {
        absorbed(Map::empty(), visits(region, self.chain@, self.visit_count(region)))
    }

    /// The chains of the arena that the job leaves, by slot.
    pub open spec fn stored(&self, region: &RegionNodes) -> Seq<ChainView> {
        absorbed_in_order(Seq::empty(), visits(region, self.chain@, self.visit_count(region)))
    }

    /// `self` is the job `job_id` of `prefix`, where the prefixes are the
    /// chains of the first `window` nodes.
    pub open spec fn is_job_of(
        &self,
        region: &RegionNodes,
        prefix: ChainView,
        window: int,
        job_id: int,
    ) -> bool {
        let stop = stop_value_of(
            region.jump_indices@,
            missing_from(prefix.indices, ascending(0, window)),
            window,
        );
        &&& self.job_id == job_id
        &&& self.stop_index == prefix.indices.len()
        &&& self.stop_value == stop
        &&& self.stop_state == if stop < region.num_nodes {
            region.states[stop]
        } else {
            0
        }
        &&& self.chain.indices@ == prefix.indices + ascending(stop, region.num_nodes as int)
        &&& self.chain.states@ == prefix.states + region.states@.subrange(
            stop,
            region.num_nodes as int,
        )
        &&& self.chain.wf(region)
    }

    /// Where the job of a prefix stops: behind the first `min_index` nodes,
    /// and behind the subtree of each of `deactivated_nodes`.
    pub fn stop_value(region: &RegionNodes, deactivated_nodes: &Vec<usize>, min_index: usize) -> (stop:
        usize)
        requires
            forall|i: int|
                0 <= i < deactivated_nodes.len() ==> #[trigger] deactivated_nodes[i]
                    < region.jump_indices.len(),
        ensures
            stop == stop_value_of(region.jump_indices@, deactivated_nodes@, min_index as int),
            deactivated_nodes.len() == 0 ==> stop == min_index,
    {
        let mut stop = min_index;
        let mut i: usize = 0;
        proof {
            assert(deactivated_nodes@.take(0) =~= Seq::<usize>::empty());
        }
        while i < deactivated_nodes.len()
            invariant
                i <= deactivated_nodes.len(),
                forall|i: int|
                    0 <= i < deactivated_nodes.len() ==> #[trigger] deactivated_nodes[i]
                        < region.jump_indices.len(),
                stop == stop_value_of(
                    region.jump_indices@,
                    deactivated_nodes@.take(i as int),
                    min_index as int,
                ),
            decreases deactivated_nodes.len() - i,
        {
            proof {
                assert(deactivated_nodes@.take(i + 1).drop_last() =~= deactivated_nodes@.take(
                    i as int,
                ));
            }
            let behind = region.jump_indices[deactivated_nodes[i]];
            if behind > stop {
                stop = behind;
            }
            i += 1;
        }
        proof {
            assert(deactivated_nodes@.take(deactivated_nodes.len() as int) =~= deactivated_nodes@);
        }
        stop
    }

    /// The chains of the first `num_nodes` nodes of the region.
    pub fn prefix_chains(region: &RegionNodes, num_nodes: usize) -> (chains: Vec<Chain>)
        requires
            region.wf(),
            1 <= num_nodes <= region.num_nodes,
        ensures
            are_prefix_chains(region, num_nodes as int, chains@),
            chains.len() == region.completions_within(1, num_nodes as int),
            chains.len() >= 1,
            chains[0].indices@ == ascending(0, num_nodes as int),
            forall|i: int|
                0 <= i < chains.len() ==> (#[trigger] chains[i]).wf(region)
                    && chains[i].indices@.last() < num_nodes,
    {
        let prefix_region = region.prefix(num_nodes);
        let chains = generate_all(&prefix_region);
        proof {
            lemma_prefix_completions(&prefix_region, region, 1);
            crate::chain::lemma_completions_positive(&prefix_region, 1);
            assert(prefix_region.is_prefix_of(region));
            assert(views(chains@)[0] == visit(&prefix_region, full_chain(&prefix_region), 0));
            assert forall|i: int| 0 <= i < chains.len() implies (#[trigger] chains[i]).wf(region)
                && chains[i].indices@.last() < num_nodes by {
                lemma_prefix_chain_wf(chains[i]@, &prefix_region, region);
            }
        }
        chains
    }

    /// The prefixes for `num_jobs` jobs: the chains of the window chosen for
    /// that number.
    pub fn prefixes_for(region: &RegionNodes, num_jobs: usize) -> (chains: Vec<Chain>)
        requires
            region.wf(),
        ensures
            chains.len() >= 1,
            chains[0].indices@ == ascending(0, chosen_window(region, num_jobs as int)),
            are_prefix_chains(region, chosen_window(region, num_jobs as int), chains@),
            1 <= chosen_window(region, num_jobs as int) <= region.num_nodes,
            num_jobs >= 1 ==> chains.len() <= num_jobs,
            forall|i: int|
                0 <= i < chains.len() ==> (#[trigger] chains[i]).wf(region)
                    && chains[i].indices@.last() < chosen_window(region, num_jobs as int),
    {
        let limit = if num_jobs <= region.num_nodes {
            num_jobs
        } else {
            region.num_nodes
        };
        let mut chains: Vec<Chain> = Vec::new();
        let mut window: usize = 0;
        let mut done = false;
        while window < limit && !done
            invariant
                region.wf(),
                window <= limit <= region.num_nodes,
                limit <= num_jobs,
                !done ==> fitting_window(region, num_jobs as int, window as int) == window,
                done ==> fitting_window(region, num_jobs as int, window + 1) == window,
                window >= 1 ==> {
                    &&& chains.len() >= 1
                    &&& chains.len() <= num_jobs
                    &&& chains[0].indices@ == ascending(0, window as int)
                    &&& are_prefix_chains(region, window as int, chains@)
                    &&& forall|i: int|
                        0 <= i < chains.len() ==> (#[trigger] chains[i]).wf(region)
                            && chains[i].indices@.last() < window
                },
            decreases limit - window, if done { 0int } else { 1int },
        {
            let more = Self::prefix_chains(region, window + 1);
            if more.len() > num_jobs {
                done = true;
            } else {
                chains = more;
                window += 1;
            }
        }
        proof {
            if done {
                lemma_fitting_window_stays(region, num_jobs as int, window + 1, limit as int);
            }
        }
        if window == 0 {
            chains = Self::prefix_chains(region, 1);
            proof {
                if num_jobs >= 1 {
                    assert(limit >= 1);
                    reveal_with_fuel(RegionNodes::completions_within, 2);
                    assert(region.completions_within(1, 1) == 1);
                    assert(fitting_window(region, num_jobs as int, 0) == 0);
                    assert(fitting_window(region, num_jobs as int, 1) == 1);
                }
            }
        }
        chains
    }

    /// The jobs of `prefix_chains`, the chains of the first nodes of the
    /// region: one of each, which starts at the prefix with every node pushed
    /// behind it that the prefix does not shut out.
    pub fn many_from_prefixes(region: &RegionNodes, prefix_chains: &Vec<Chain>) -> (jobs: Vec<
        JobControl,
    >)
        requires
            region.wf(),
            prefix_chains.len() >= 1,
            prefix_chains[0].indices.len() <= region.num_nodes,
            forall|i: int|
                0 <= i < prefix_chains.len() ==> (#[trigger] prefix_chains[i]).wf(region)
                    && prefix_chains[i].indices@.last() < prefix_chains[0].indices.len(),
        ensures
            are_jobs_of(region, prefix_chains@, jobs@),
            forall|i: int| 0 <= i < jobs.len() ==> (#[trigger] jobs[i]).wf(region),
            prefix_chains[0].indices@ == ascending(0, prefix_chains[0].indices.len() as int)
                ==> jobs[0].stop_value == prefix_chains[0].indices.len(),
    {
        let min_index = prefix_chains[0].indices.len();
        let mut base_indices: Vec<usize> = Vec::new();
        let mut b: usize = 0;
        while b < min_index
            invariant
                b <= min_index,
                base_indices@ == ascending(0, b as int),
            decreases min_index - b,
        {
            base_indices.push(b);
            proof {
                assert(base_indices@ =~= ascending(0, b + 1));
            }
            b += 1;
        }
        let mut jobs: Vec<JobControl> = Vec::new();
        let mut job_id: usize = 0;
        while job_id < prefix_chains.len()
            invariant
                region.wf(),
                job_id <= prefix_chains.len(),
                jobs.len() == job_id,
                min_index == prefix_chains[0].indices.len(),
                min_index <= region.num_nodes,
                base_indices@ == ascending(0, min_index as int),
                forall|i: int|
                    0 <= i < prefix_chains.len() ==> (#[trigger] prefix_chains[i]).wf(region)
                        && prefix_chains[i].indices@.last() < min_index,
                forall|i: int|
                    0 <= i < jobs.len() ==> (#[trigger] jobs[i]).is_job_of(
                        region,
                        prefix_chains[i]@,
                        min_index as int,
                        i,
                    ),
                forall|i: int| 0 <= i < jobs.len() ==> (#[trigger] jobs[i]).wf(region),
                prefix_chains[0].indices@ == ascending(0, min_index as int) && jobs.len() > 0
                    ==> jobs[0].stop_value == min_index,
            decreases prefix_chains.len() - job_id,
        {
            let prefix = &prefix_chains[job_id];
            let deactivated_nodes = prefix.indices_difference_from_set(&base_indices);
            proof {
                lemma_filter_members(base_indices@, |index: usize| !prefix.indices@.contains(index));
                lemma_job_extendable(prefix@, region, min_index as int);
                if job_id == 0 && prefix.indices@ == ascending(0, min_index as int) {
                    lemma_nothing_missing(min_index as int);
                }
            }
            let stop_value = Self::stop_value(region, &deactivated_nodes, min_index);
            let stop_index = prefix.indices.len();
            let stop_state = if stop_value < region.num_nodes {
                region.states[stop_value]
            } else {
                0
            };
            let mut chain = prefix.snapshot();
            chain.extend(stop_value, region);
            let ghost before = jobs@;
            jobs.push(JobControl { job_id, chain, stop_index, stop_value, stop_state });
            proof {
                assert forall|i: int| 0 <= i < jobs.len() implies (#[trigger] jobs[i]).is_job_of(
                    region,
                    prefix_chains[i]@,
                    min_index as int,
                    i,
                ) by {
                    if i < before.len() {
                        assert(jobs[i] == before[i]);
                    }
                }
                assert forall|i: int| 0 <= i < jobs.len() implies (#[trigger] jobs[i]).wf(
                    region,
                ) by {
                    if i < before.len() {
                        assert(jobs[i] == before[i]);
                    }
                }
            }
            job_id += 1;
        }
        jobs
    }

    /// The jobs that split the walk over the region for `num_jobs` workers.
    pub fn many_for(region: &RegionNodes, num_jobs: usize) -> (jobs: Vec<JobControl>)
        requires
            region.wf(),
        ensures
            are_jobs_for(region, num_jobs as int, jobs@),
            jobs.len() >= 1,
            num_jobs >= 1 ==> jobs.len() <= num_jobs,
            forall|i: int| 0 <= i < jobs.len() ==> (#[trigger] jobs[i]).wf(region),
            jobs[0].stop_value == chosen_window(region, num_jobs as int),
    {
        let prefix_chains = Self::prefixes_for(region, num_jobs);
        proof {
            assert(ascending(0, chosen_window(region, num_jobs as int)).len() == chosen_window(
                region,
                num_jobs as int,
            ));
        }
        let jobs = Self::many_from_prefixes(region, &prefix_chains);
        proof {
            assert(are_prefix_chains(region, chosen_window(region, num_jobs as int), prefix_chains@));
        }
        jobs
    }

    /// The prefixes for the number of jobs asked for, which is cut down to
    /// the number of processors, or for one job to each processor where none
    /// was asked for.
    pub fn prefixes(region: &RegionNodes, jobs: Option<u8>) -> (chains: Vec<Chain>)
        requires
            region.wf(),
        ensures
            chains.len() >= 1,
            exists|cpus: usize| #[trigger]
                are_prefix_chains(
                    region,
                    chosen_window(region, job_limit(jobs, cpus) as int),
                    chains@,
                ),
    {
        let cpus = available_cpus();
        let num_jobs = Self::job_count(jobs, cpus);
        Self::prefixes_for(region, num_jobs)
    }

    /// The number of jobs for what was asked and what the machine offers.
    pub fn job_count(jobs: Option<u8>, cpus: usize) -> (num_jobs: usize)
        ensures
            num_jobs == job_limit(jobs, cpus),
    {
        let asked = match jobs {
            Some(asked) => asked as usize,
            None => (#[verifier::truncate] (cpus as u8)) as usize,
        };
        if asked <= cpus {
            asked
        } else {
            cpus
        }
    }

    /// The jobs that split the walk over the region for the number of jobs
    /// asked for, cut down to the number of processors.
    pub fn many_from_region(region: &RegionNodes, jobs: Option<u8>) -> (job_controls: Vec<
        JobControl,
    >)
        requires
            region.wf(),
        ensures
            job_controls.len() >= 1,
            forall|i: int|
                0 <= i < job_controls.len() ==> (#[trigger] job_controls[i]).wf(region),
            exists|cpus: usize| #[trigger]
                are_jobs_for(region, job_limit(jobs, cpus) as int, job_controls@),
    {
        let cpus = available_cpus();
        let num_jobs = Self::job_count(jobs, cpus);
        Self::many_for(region, num_jobs)
    }
}

/// The ways to go on in a region cut off behind its first nodes are those
/// of the whole region within that limit.
pub proof fn lemma_prefix_completions(prefix: &RegionNodes, region: &RegionNodes, i: int)
    requires
        region.wf(),
        prefix.wf(),
        prefix.is_prefix_of(region),
    ensures
        prefix.completions(i) == region.completions_within(i, prefix.num_nodes as int),
    decreases prefix.num_nodes - i,
{
    let limit = prefix.num_nodes as int;
    if 0 <= i < limit {
        assert(prefix.states[i] == region.states[i]);
        lemma_prefix_completions(prefix, region, i + 1);
        lemma_prefix_completions(prefix, region, prefix.jump_indices[i] as int);
    }
}

/// A chain of a region cut off behind its first nodes is a chain of the
/// whole region.
pub proof fn lemma_prefix_chain_wf(chain: ChainView, prefix: &RegionNodes, region: &RegionNodes)
    requires
        region.wf(),
        prefix.wf(),
        prefix.is_prefix_of(region),
        chain.wf(prefix),
    ensures
        chain.wf(region),
{
    let limit = prefix.num_nodes as int;
    assert forall|k: int| 1 <= k < chain.states.len() implies 1 <= #[trigger] chain.states[k]
        <= region.states[chain.indices[k] as int] by {
        assert(prefix.states[chain.indices[k] as int] == region.states[chain.indices[k] as int]);
    }
    assert forall|k: int, a: int|
        0 <= k < chain.indices.len() && region.is_ancestor(
            a,
            #[trigger] chain.indices[k] as int,
        ) implies #[trigger] chain.indices.contains(a as usize) by {
        assert(prefix.is_ancestor(a, chain.indices[k] as int));
    }
    lemma_stack_sums_take(region.costs@, chain.indices, chain.states, 1, limit);
    lemma_stack_sums_take(region.warehouse_counts@, chain.indices, chain.states, 1, limit);
    lemma_stack_sums_take(region.worker_counts@, chain.indices, chain.states, 2, limit);
}

/// The sums over a stack are the same in a sequence of values that is cut
/// off behind every index on the stack.
proof fn lemma_stack_sums_take(
    values: Seq<usize>,
    indices: Seq<usize>,
    states: Seq<usize>,
    mode: usize,
    limit: int,
)
    requires
        0 <= limit <= values.len(),
        indices.len() == states.len(),
        forall|k: int| 0 <= k < indices.len() ==> #[trigger] indices[k] < limit,
    ensures
        stack_cost(values.take(limit), indices) == stack_cost(values, indices),
        stack_mode_sum(values.take(limit), indices, states, mode) == stack_mode_sum(
            values,
            indices,
            states,
            mode,
        ),
    decreases indices.len(),
{
    if indices.len() > 0 {
        let front = indices.drop_last();
        assert forall|k: int| 0 <= k < front.len() implies #[trigger] front[k] < limit by {
            assert(front[k] == indices[k]);
        }
        lemma_stack_sums_take(values, front, states.drop_last(), mode, limit);
        assert(indices.last() == indices[indices.len() - 1]);
    }
}

/// Once a window does not fit, no larger one is chosen.
proof fn lemma_fitting_window_stays(region: &RegionNodes, num_jobs: int, from: int, upto: int)
    requires
        1 <= from,
        fitting_window(region, num_jobs, from) < from,
    ensures
        from <= upto ==> fitting_window(region, num_jobs, upto) == fitting_window(
            region,
            num_jobs,
            from,
        ),
    decreases upto,
{
    if from < upto {
        lemma_fitting_window_stays(region, num_jobs, from, upto - 1);
    }
}

/// The chain of all the first nodes leaves none of them out.
proof fn lemma_nothing_missing(window: int)
    requires
        0 <= window,
    ensures
        missing_from(ascending(0, window), ascending(0, window)) == Seq::<usize>::empty(),
{
    let all = ascending(0, window);
    let absent = |index: usize| !all.contains(index);
    lemma_filter_members(all, absent);
    if all.filter(absent).len() > 0 {
        let found = all.filter(absent)[0];
        assert(absent(found));
        assert(all.contains(found));
    }
    assert(all.filter(absent) =~= Seq::<usize>::empty());
}

/// Where a job stops is behind the window, behind the subtree of every node
/// left out, and no further than one of the two asks.
pub proof fn lemma_stop_value_bounds(jump: Seq<usize>, deactivated: Seq<usize>, min_index: int)
    ensures
        stop_value_of(jump, deactivated, min_index) >= min_index,
        forall|j: int|
            0 <= j < deactivated.len() ==> stop_value_of(jump, deactivated, min_index)
                >= jump[#[trigger] deactivated[j] as int],
        stop_value_of(jump, deactivated, min_index) == min_index || exists|j: int|
            0 <= j < deactivated.len() && stop_value_of(jump, deactivated, min_index)
                == jump[#[trigger] deactivated[j] as int],
    decreases deactivated.len(),
{
    if deactivated.len() > 0 {
        let front = deactivated.drop_last();
        lemma_stop_value_bounds(jump, front, min_index);
        let stop = stop_value_of(jump, deactivated, min_index);
        assert forall|j: int| 0 <= j < deactivated.len() implies stop >= jump[#[trigger] deactivated[j] as int] by {
            if j < front.len() {
                assert(front[j] == deactivated[j]);
            }
        }
        if stop != min_index {
            if stop == jump[deactivated.last() as int] {
                assert(deactivated[deactivated.len() - 1] == deactivated.last());
            } else {
                let j = choose|j: int|
                    0 <= j < front.len() && stop_value_of(jump, front, min_index)
                        == jump[#[trigger] front[j] as int];
                assert(deactivated[j] == front[j]);
            }
        }
    }
}

/// Behind where its job stops, every node can be pushed onto a prefix.
pub proof fn lemma_job_extendable(prefix: ChainView, region: &RegionNodes, window: int)
    requires
        region.wf(),
        prefix.wf(region),
        prefix.indices.last() < window <= region.num_nodes,
    ensures
        ({
            let missing = missing_from(prefix.indices, ascending(0, window));
            let stop = stop_value_of(region.jump_indices@, missing, window);
            &&& window <= stop <= region.num_nodes
            &&& prefix.extendable(stop, region)
            &&& forall|i: int| 0 <= i < missing.len() ==> #[trigger] missing[i] < window
        }),
{
    let all = ascending(0, window);
    let absent = |index: usize| !prefix.indices.contains(index);
    let missing = missing_from(prefix.indices, all);
    let stop = stop_value_of(region.jump_indices@, missing, window);
    lemma_filter_members(all, absent);
    lemma_stop_value_bounds(region.jump_indices@, missing, window);
    assert forall|i: int| 0 <= i < missing.len() implies #[trigger] missing[i] < window by {
        assert(all.contains(missing[i]));
    }
    assert forall|a: int, i: int|
        a < stop <= i < region.num_nodes && #[trigger] region.is_ancestor(
            a,
            i,
        ) implies prefix.indices.contains(a as usize) by {
        if a < window {
            if !prefix.indices.contains(a as usize) {
                assert(all[a] == a as usize);
                assert(absent(all[a]));
                all.lemma_filter_contains(absent, a);
                let j = choose|j: int| 0 <= j < missing.len() && missing[j] == a as usize;
                assert(stop >= region.jump_indices[missing[j] as int]);
            }
        } else {
            let j = choose|j: int|
                0 <= j < missing.len() && stop == region.jump_indices[#[trigger] missing[j] as int];
            let d = missing[j] as int;
            assert(region.jump_indices[a] <= region.jump_indices[d]);
        }
    }
}

} // verus!
