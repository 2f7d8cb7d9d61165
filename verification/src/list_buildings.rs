//! Picking, from the dominant chains of a region, the cheapest that give a
//! wanted storage and lodging.

use crate::chain::{Chain, ChainView};
use crate::dominance::views;
use crate::retain_traits::{kept, EnumeratedRetain};
use vstd::prelude::*;

verus! {

/// The chain gives at least this storage and this lodging.
pub open spec fn gives(chain: ChainView, storage: int, lodging: int) -> bool {
    chain.usage_counts.warehouse_count >= storage && chain.usage_counts.worker_count >= lodging
}

/// The least cost among the chains; nothing is cheaper than `usize::MAX`.
pub open spec fn least_cost(chains: Seq<ChainView>) -> int
    decreases chains.len(),
{
    if chains.len() == 0 {
        usize::MAX as int
    } else {
        let before = least_cost(chains.drop_last());
        if chains.last().usage_counts.cost < before {
            chains.last().usage_counts.cost as int
        } else {
            before
        }
    }
}

/// The chains that give at least this storage and this lodging.
pub open spec fn giving(chains: Seq<ChainView>, storage: int, lodging: int) -> Seq<ChainView> {
    chains.filter(|chain: ChainView| gives(chain, storage, lodging))
}

/// The cheapest of the chains that give at least this storage and this
/// lodging.
pub open spec fn cheapest_giving(chains: Seq<ChainView>, storage: int, lodging: int) -> Seq<
    ChainView,
> {
    let enough = giving(chains, storage, lodging);
    enough.filter(|chain: ChainView| chain.usage_counts.cost == least_cost(enough))
}

/// Keeping by flags that say of every entry what a test says of it is
/// filtering by that test.
proof fn lemma_kept_filter(chains: Seq<Chain>, keep: Seq<bool>, test: spec_fn(ChainView) -> bool)
    requires
        keep.len() == chains.len(),
        forall|i: int| 0 <= i < keep.len() ==> #[trigger] keep[i] == test(chains[i]@),
    ensures
        views(kept(chains, keep)) == views(chains).filter(test),
    decreases chains.len(),
{
    reveal(Seq::filter);
    if chains.len() > 0 {
        let front = chains.drop_last();
        let flags = keep.drop_last();
        assert forall|i: int| 0 <= i < flags.len() implies #[trigger] flags[i] == test(
            front[i]@,
        ) by {
            assert(flags[i] == keep[i]);
            assert(front[i] == chains[i]);
        }
        lemma_kept_filter(front, flags, test);
        assert(views(chains).drop_last() =~= views(front));
        assert(keep.last() == keep[keep.len() - 1]);
        if keep.last() {
            assert(views(kept(front, flags).push(chains.last())) =~= views(
                kept(front, flags),
            ).push(chains.last()@));
        }
    } else {
        assert(views(kept(chains, keep)) =~= views(chains).filter(test));
    }
}

/// The least cost among the chains.
fn least_cost_of(chains: &Vec<Chain>) -> (least: usize)
    ensures
        least == least_cost(views(chains@)),
{
    let mut least = usize::MAX;
    let mut i: usize = 0;
    proof {
        assert(views(chains@).take(0) =~= Seq::<ChainView>::empty());
    }
    while i < chains.len()
        invariant
            i <= chains.len(),
            least == least_cost(views(chains@).take(i as int)),
        decreases chains.len() - i,
    {
        proof {
            assert(views(chains@).take(i + 1).drop_last() =~= views(chains@).take(i as int));
        }
        if chains[i].usage_counts.cost < least {
            least = chains[i].usage_counts.cost;
        }
        i += 1;
    }
    proof {
        assert(views(chains@).take(chains.len() as int) =~= views(chains@));
    }
    least
}

/// Keeps the cheapest of the chains that give at least the storage and the
/// lodging asked for; all chains where neither is asked for.
pub fn filter_by_storage_and_lodging(
    chains: &mut Vec<Chain>,
    storage: Option<u16>,
    lodging: Option<u16>,
)
    ensures
        storage is None && lodging is None ==> final(chains)@ == old(chains)@,
        !(storage is None && lodging is None) ==> views(final(chains)@) == cheapest_giving(
            views(old(chains)@),
            match storage {
                Some(storage) => storage as int,
                None => 0,
            },
            match lodging {
                Some(lodging) => lodging as int,
                None => 0,
            },
        ),
{
    if storage.is_none() && lodging.is_none() {
        return ;
    }
    let storage: usize = match storage {
        Some(storage) => storage as usize,
        None => 0,
    };
    let lodging: usize = match lodging {
        Some(lodging) => lodging as usize,
        None => 0,
    };
    let ghost all = chains@;
    let enough = |_index: usize, chain: &Chain| -> (keep: bool)
        ensures
            keep == gives(chain@, storage as int, lodging as int),
        { chain.usage_counts.warehouse_count >= storage && chain.usage_counts.worker_count >= lodging };
    chains.retain_enumerate(enough);
    proof {
        let keep = choose|keep: Seq<bool>|
            {
                &&& keep.len() == all.len()
                &&& forall|i: int|
                    0 <= i < keep.len() ==> call_ensures(
                        enough,
                        (i as usize, &all[i]),
                        #[trigger] keep[i],
                    )
                &&& chains@ == kept(all, keep)
            };
        lemma_kept_filter(all, keep, |chain: ChainView| gives(chain, storage as int, lodging as int));
    }
    let ghost giving_chains = chains@;
    let least = least_cost_of(chains);
    let cheapest = |_index: usize, chain: &Chain| -> (keep: bool)
        ensures
            keep == (chain.usage_counts.cost == least),
        { chain.usage_counts.cost == least };
    chains.retain_enumerate(cheapest);
    proof {
        let keep = choose|keep: Seq<bool>|
            {
                &&& keep.len() == giving_chains.len()
                &&& forall|i: int|
                    0 <= i < keep.len() ==> call_ensures(
                        cheapest,
                        (i as usize, &giving_chains[i]),
                        #[trigger] keep[i],
                    )
                &&& chains@ == kept(giving_chains, keep)
            };
        lemma_kept_filter(
            giving_chains,
            keep,
            |chain: ChainView| chain.usage_counts.cost == least_cost(views(giving_chains)),
        );
    }
}

} // verus!
