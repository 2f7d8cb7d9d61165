//! The walks: every chain of a region in turn, gathered as they come or
//! offered to an arena.

use crate::chain::{
    full_chain, lemma_chain_within, lemma_rank_positive, visit, visits, Chain, ChainView,
};
use crate::chain_map::{absorbed, absorbed_in_order, merged_all, merged_all_in_order, ChainMap};
use crate::dominance::{capacity_before, dominant_in, views};
use crate::job_control::{are_jobs_for, job_arenas, job_limit, job_stores, JobControl};
use crate::region_nodes::{table_len, RegionNodes};
use crate::split_walk::{
    is_best_of, lemma_dominant_is_undominated, lemma_job_arenas_best,
    lemma_undominated_is_dominant, lemma_walk_arena_best, undominated,
};
use vstd::prelude::*;

verus! {

/// Every chain of the region, in the order of the walk: from the chain of
/// all nodes down to the chain of the root alone.
pub fn generate_all(region: &RegionNodes) -> (chains: Vec<Chain>)
    requires
        region.wf(),
    ensures
        chains.len() == region.completions(1),
        views(chains@) == visits(region, full_chain(region), chains.len() as nat),
        forall|i: int| 0 <= i < chains.len() ==> (#[trigger] chains[i]).wf(region),
        forall|i: int|
            0 <= i < chains.len() ==> (#[trigger] chains[i]).rank(region) == chains.len() - 1 - i,
        chains@.last().indices@ == seq![0usize],
{
    let mut chain = Chain::new(region);
    let mut chains: Vec<Chain> = Vec::new();
    let ghost total = region.completions(1) as int;
    proof {
        assert(views(chains@) =~= visits(region, full_chain(region), 0));
    }
    while !chain.indices.is_empty()
        invariant
            region.wf(),
            total == region.completions(1),
            chains.len() <= total,
            chain.indices.len() > 0 ==> chain.wf(region) && chain.rank(region) == total - 1
                - chains.len() && chain@ == visit(region, full_chain(region), chains.len() as nat),
            chain.indices.len() == 0 ==> chains.len() == total && chains.len() > 0
                && chains@.last().indices@ == seq![0usize],
            views(chains@) == visits(region, full_chain(region), chains.len() as nat),
            forall|i: int| 0 <= i < chains.len() ==> (#[trigger] chains[i]).wf(region),
            forall|i: int|
                0 <= i < chains.len() ==> (#[trigger] chains[i]).rank(region) == total - 1 - i,
        decreases total - chains.len(), chain.indices.len(),
    {
        let ghost before = chains@;
        let ghost visited = chain;
        chains.push(chain.snapshot());
        proof {
            lemma_rank_positive(chain@, region);
            let shown = visits(region, full_chain(region), chains.len() as nat);
            assert forall|k: int| 0 <= k < chains.len() implies views(chains@)[k] == shown[k] by {
                if k < before.len() {
                    assert(chains[k] == before[k]);
                    assert(views(before)[k] == visits(
                        region,
                        full_chain(region),
                        before.len() as nat,
                    )[k]);
                }
            }
            assert(views(chains@) =~= shown);
            assert(chains@.last().indices@ == chain.indices@);
            if chain.indices.len() == 1 {
                assert(chain.indices@ =~= seq![0usize]);
            }
        }
        chain.next_state(region);
    }
    chains
}

/// The arena of a walk over the whole region: the cheapest chain of each
/// fingerprint, the earlier of two that cost the same.
pub fn generate_dominating(region: &RegionNodes) -> (arena: ChainMap)
    requires
        region.wf(),
    ensures
        arena.wf(),
        arena.cost.len() == table_len(region.capacity_bound()),
        arena@ == absorbed(
            Map::empty(),
            visits(region, full_chain(region), region.completions(1)),
        ),
        arena.stored() == absorbed_in_order(
            Seq::empty(),
            visits(region, full_chain(region), region.completions(1)),
        ),
        is_best_of(region, arena@),
{
    let mut chain = Chain::new(region);
    let mut arena = ChainMap::new(region);
    let ghost total = region.completions(1) as int;
    let ghost mut count: nat = 0;
    proof {
        assert(visits(region, full_chain(region), 0) =~= Seq::<ChainView>::empty());
    }
    while !chain.indices.is_empty()
        invariant
            region.wf(),
            total == region.completions(1),
            count <= total,
            arena.wf(),
            arena.cost.len() == table_len(region.capacity_bound()),
            chain.indices.len() > 0 ==> chain.wf(region) && chain.rank(region) == total - 1 - count
                && chain@ == visit(region, full_chain(region), count),
            chain.indices.len() == 0 ==> count == total,
            arena@ == absorbed(Map::empty(), visits(region, full_chain(region), count)),
            arena.stored() == absorbed_in_order(
                Seq::empty(),
                visits(region, full_chain(region), count),
            ),
        decreases total - count, chain.indices.len(),
    {
        proof {
            lemma_rank_positive(chain@, region);
            lemma_chain_within(chain@, region);
            let next = visits(region, full_chain(region), count + 1);
            assert(next.drop_last() =~= visits(region, full_chain(region), count));
            assert(next.last() == chain@);
        }
        arena.insert_or_update(&chain);
        chain.next_state(region);
        proof {
            count = count + 1;
        }
    }
    proof {
        lemma_walk_arena_best(region);
    }
    arena
}

/// The arena that one job leaves: the walk from the job's chain for as long
/// as the chain lies in the job's territory, and the first chain behind it.
pub fn generate_dominating_par_worker(region: &RegionNodes, job: &JobControl) -> (arena: ChainMap)
    requires
        region.wf(),
        job.wf(region),
    ensures
        arena.wf(),
        arena.cost.len() == table_len(region.capacity_bound()),
        arena@ == job.arena(region),
        arena.stored() == job.stored(region),
        job.ends_after(region, job.visit_count(region)),
{
    let mut arena = ChainMap::new(region);
    let mut chain = Chain::new_par(region, job);
    let ghost mut count: nat = 0;
    proof {
        assert(visits(region, job.chain@, 0) =~= Seq::<ChainView>::empty());
    }
    while chain.indices.len() > job.stop_index && chain.indices[job.stop_index] >= job.stop_value
        invariant
            region.wf(),
            job.wf(region),
            arena.wf(),
            arena.cost.len() == table_len(region.capacity_bound()),
            chain.wf(region),
            chain@ == visit(region, job.chain@, count),
            forall|k: nat| k < count ==> job.in_territory(#[trigger] visit(region, job.chain@, k)),
            arena@ == absorbed(Map::empty(), visits(region, job.chain@, count)),
            arena.stored() == absorbed_in_order(Seq::empty(), visits(region, job.chain@, count)),
        decreases chain.rank(region),
    {
        proof {
            lemma_rank_positive(chain@, region);
            lemma_chain_within(chain@, region);
            let next = visits(region, job.chain@, count + 1);
            assert(next.drop_last() =~= visits(region, job.chain@, count));
            assert(next.last() == chain@);
        }
        arena.insert_or_update(&chain);
        chain.next_state(region);
        proof {
            count = count + 1;
        }
    }
    proof {
        lemma_chain_within(chain@, region);
        let next = visits(region, job.chain@, count + 1);
        assert(next.drop_last() =~= visits(region, job.chain@, count));
        assert(next.last() == chain@);
        assert(job.ends_after(region, count + 1));
        lemma_job_end_unique(region, job, count + 1, job.visit_count(region));
    }
    arena.insert_or_update(&chain);
    arena
}

/// A job ends after one number of chains only.
pub proof fn lemma_job_end_unique(region: &RegionNodes, job: &JobControl, a: nat, b: nat)
    requires
        job.ends_after(region, a),
        job.ends_after(region, b),
    ensures
        a == b,
{
    if a < b {
        assert(job.in_territory(visit(region, job.chain@, (a - 1) as nat)));
    } else if b < a {
        assert(job.in_territory(visit(region, job.chain@, (b - 1) as nat)));
    }
}

/// The arena of the jobs of a split walk: the arena of the first job, offered
/// what each later job leaves, in their order.
pub fn generate_dominating_jobs(region: &RegionNodes, jobs: &Vec<JobControl>) -> (arena: ChainMap)
    requires
        region.wf(),
        jobs.len() >= 1,
        forall|i: int| 0 <= i < jobs.len() ==> (#[trigger] jobs[i]).wf(region),
    ensures
        arena.wf(),
        arena.cost.len() == table_len(region.capacity_bound()),
        arena@ == merged_all(job_arenas(region, jobs@), jobs.len() as int),
        arena.stored() == merged_all_in_order(job_stores(region, jobs@), jobs.len() as int),
{
    let mut results: Vec<ChainMap> = Vec::new();
    let mut i: usize = 0;
    while i < jobs.len()
        invariant
            region.wf(),
            i <= jobs.len(),
            results.len() == i,
            forall|k: int| 0 <= k < jobs.len() ==> (#[trigger] jobs[k]).wf(region),
            forall|k: int| 0 <= k < results.len() ==> (#[trigger] results[k]).wf(),
            forall|k: int|
                0 <= k < results.len() ==> (#[trigger] results[k]).cost.len() == table_len(
                    region.capacity_bound(),
                ),
            forall|k: int| 0 <= k < results.len() ==> (#[trigger] results[k])@ == jobs[k].arena(region),
            forall|k: int|
                0 <= k < results.len() ==> (#[trigger] results[k]).stored() == jobs[k].stored(
                    region,
                ),
        decreases jobs.len() - i,
    {
        let result = generate_dominating_par_worker(region, &jobs[i]);
        results.push(result);
        i += 1;
    }
    proof {
        assert(results@.map_values(|m: ChainMap| m@) =~= job_arenas(region, jobs@));
        assert(results@.map_values(|m: ChainMap| m.stored()) =~= job_stores(region, jobs@));
    }
    ChainMap::flatten_many_by_insert_update(results)
}

/// The arena of a walk that is split into the number of jobs asked for, as
/// far as the machine has processors for them. It holds the best of the
/// region, as the arena of one walk over the whole region does.
pub fn generate_dominating_par(region: &RegionNodes, jobs: Option<u8>) -> (arena: ChainMap)
    requires
        region.wf(),
    ensures
        arena.wf(),
        arena.cost.len() == table_len(region.capacity_bound()),
        is_best_of(region, arena@),
        exists|cpus: usize, job_controls: Seq<JobControl>|
            {
                &&& #[trigger] are_jobs_for(region, job_limit(jobs, cpus) as int, job_controls)
                &&& arena@ == merged_all(
                    job_arenas(region, job_controls),
                    job_controls.len() as int,
                )
                &&& arena.stored() == merged_all_in_order(
                    job_stores(region, job_controls),
                    job_controls.len() as int,
                )
            },
{
    let job_controls = JobControl::many_from_region(region, jobs);
    let arena = generate_dominating_jobs(region, &job_controls);
    proof {
        let cpus = choose|cpus: usize| #[trigger]
            are_jobs_for(region, job_limit(jobs, cpus) as int, job_controls@);
        lemma_job_arenas_best(region, job_limit(jobs, cpus) as int, job_controls@);
    }
    arena
}

/// The arena of a walk over the whole region.
pub open spec fn walk_arena(region: &RegionNodes) -> Map<nat, ChainView> {
    absorbed(Map::empty(), visits(region, full_chain(region), region.completions(1)))
}

/// The dominant chains of the region, in ascending order of lodging and then
/// of storage: chains that no chain of the region dominates, one for all
/// such chains that cost and give the same. With more than one worker the
/// walk is split into jobs, as many as the machine has processors for.
pub fn enumerate_dominant(region: &RegionNodes, workers: u8) -> (chains: Vec<Chain>)
    requires
        region.wf(),
    ensures
        forall|i: int, j: int|
            0 <= i < j < chains.len() ==> capacity_before(
                (#[trigger] chains[i])@,
                (#[trigger] chains[j])@,
            ),
        forall|chain: ChainView| #[trigger]
            views(chains@).contains(chain) ==> undominated(region, chain),
        forall|chain: ChainView| #[trigger]
            undominated(region, chain) ==> exists|kept: ChainView| #[trigger]
                views(chains@).contains(kept) && kept.score() == chain.score(),
        workers <= 1 ==> forall|chain: ChainView| #[trigger]
            views(chains@).contains(chain) <==> dominant_in(walk_arena(region), chain),
{
    let arena = if workers <= 1 {
        generate_dominating(region)
    } else {
        generate_dominating_par(region, Some(workers))
    };
    let chains = arena.retain_dominating_to_vec();
    proof {
        assert forall|chain: ChainView| #[trigger]
            views(chains@).contains(chain) implies undominated(region, chain) by {
            lemma_dominant_is_undominated(region, arena@, chain);
        }
        assert forall|chain: ChainView| #[trigger] undominated(region, chain) implies exists|
            kept: ChainView,
        | #[trigger] views(chains@).contains(kept) && kept.score() == chain.score() by {
            lemma_undominated_is_dominant(region, arena@, chain);
            let kept = arena@[chain.key()];
            assert(views(chains@).contains(kept));
        }
    }
    chains
}

} // verus!
