//! The dominance filter: of a set of chains, those that no other dominates.

use crate::chain::{score_dominates, Chain, ChainView};
use crate::chain_map::{holds, lemma_stored_holds, ChainMap};
use vstd::prelude::*;

verus! {

/// The chains as plain values.
pub open spec fn views(chains: Seq<Chain>) -> Seq<ChainView> {
    chains.map_values(|chain: Chain| chain@)
}

/// Some chain of `all` dominates `chain`.
pub open spec fn dominated_in(chain: ChainView, all: Seq<ChainView>) -> bool {
    exists|a: int| 0 <= a < all.len() && score_dominates(#[trigger] all[a].score(), chain.score())
}

/// The chains of `all` that no chain of `all` dominates, in their order.
pub open spec fn dominant(all: Seq<ChainView>) -> Seq<ChainView> {
    all.filter(|chain: ChainView| !dominated_in(chain, all))
}

/// A chain of lodging and storage `a` stands before one of `b`, or beside
/// it: less lodging, or the same lodging and no more storage.
pub open spec fn capacity_ordered(a: ChainView, b: ChainView) -> bool {
    a.usage_counts.worker_count < b.usage_counts.worker_count || (a.usage_counts.worker_count
        == b.usage_counts.worker_count && a.usage_counts.warehouse_count
        <= b.usage_counts.warehouse_count)
}

/// A chain of lodging and storage `a` stands before one of `b`: less
/// lodging, or the same lodging and less storage.
pub open spec fn capacity_before(a: ChainView, b: ChainView) -> bool {
    a.usage_counts.worker_count < b.usage_counts.worker_count || (a.usage_counts.worker_count
        == b.usage_counts.worker_count && a.usage_counts.warehouse_count
        < b.usage_counts.warehouse_count)
}

/// `arena` holds `chain`, and holds no chain that dominates it.
pub open spec fn dominant_in(arena: Map<nat, ChainView>, chain: ChainView) -> bool {
    &&& holds(arena, chain)
    &&& forall|k: nat|
        arena.contains_key(k) ==> !score_dominates(#[trigger] arena[k].score(), chain.score())
}

/// `<[T]>::swap` on a vector: exchanges the entries at `a` and `b`, which
/// must both exist.
#[verifier::external_body]
pub(crate) fn swap_entries<T>(v: &mut Vec<T>, a: usize, b: usize)
    requires
        a < old(v).len(),
        b < old(v).len(),
    ensures
        final(v)@ == old(v)@.update(a as int, old(v)@[b as int]).update(b as int, old(v)@[a as int]),
{
    v.swap(a, b);
}

/// `<[T]>::sort_unstable_by_key` with lodging and then storage as the key:
/// the same chains, in ascending order of the key. Which of two chains of
/// one key comes first is left open.
#[verifier::external_body]
fn sort_by_capacity(chains: &mut Vec<Chain>)
    ensures
        views(final(chains)@).to_multiset() == views(old(chains)@).to_multiset(),
        forall|i: int, j: int|
            0 <= i < j < final(chains).len() ==> capacity_ordered(
                (#[trigger] final(chains)[i])@,
                (#[trigger] final(chains)[j])@,
            ),
{
    chains.sort_unstable_by_key(
        |chain| (chain.usage_counts.worker_count, chain.usage_counts.warehouse_count),
    );
}

/// Filtering a second time removes nothing.
pub proof fn lemma_dominant_idempotent(all: Seq<ChainView>)
    ensures
        dominant(dominant(all)) == dominant(all),
{
    let kept = dominant(all);
    let keep = |chain: ChainView| !dominated_in(chain, all);
    let keep_again = |chain: ChainView| !dominated_in(chain, kept);
    lemma_filter_members(all, keep);
    assert forall|i: int| 0 <= i < kept.len() implies keep_again(#[trigger] kept[i]) by {
        assert(keep(kept[i]));
        if dominated_in(kept[i], kept) {
            let a = choose|a: int|
                0 <= a < kept.len() && score_dominates(
                    #[trigger] kept[a].score(),
                    kept[i].score(),
                );
            assert(all.contains(kept[a]));
            let b = choose|b: int| 0 <= b < all.len() && all[b] == kept[a];
            assert(score_dominates(all[b].score(), kept[i].score()));
        }
    }
    lemma_filter_keeps_all(kept, keep_again);
}

/// What a filter keeps are entries of the sequence that pass it.
pub(crate) proof fn lemma_filter_members<T>(s: Seq<T>, keep: spec_fn(T) -> bool)
    ensures
        forall|i: int|
            0 <= i < s.filter(keep).len() ==> keep(#[trigger] s.filter(keep)[i]) && s.contains(
                s.filter(keep)[i],
            ),
    decreases s.len(),
{
    reveal(Seq::filter);
    if s.len() > 0 {
        let front = s.drop_last();
        lemma_filter_members(front, keep);
        assert forall|i: int| 0 <= i < s.filter(keep).len() implies keep(
            #[trigger] s.filter(keep)[i],
        ) && s.contains(s.filter(keep)[i]) by {
            if i < front.filter(keep).len() {
                assert(s.filter(keep)[i] == front.filter(keep)[i]);
                assert(front.contains(front.filter(keep)[i]));
                let at = choose|at: int| 0 <= at < front.len() && front[at] == front.filter(keep)[i];
                assert(s[at] == front[at]);
            } else {
                assert(s.filter(keep)[i] == s[s.len() - 1]);
            }
        }
    }
}

/// Filtering chains by what they are as plain values is filtering the plain
/// values.
proof fn lemma_filter_views(chains: Seq<Chain>, keep: spec_fn(ChainView) -> bool)
    ensures
        views(chains.filter(|chain: Chain| keep(chain@))) == views(chains).filter(keep),
    decreases chains.len(),
{
    reveal(Seq::filter);
    let by_chain = |chain: Chain| keep(chain@);
    if chains.len() > 0 {
        let front = chains.drop_last();
        lemma_filter_views(front, keep);
        assert(views(chains).drop_last() =~= views(front));
        if by_chain(chains.last()) {
            assert(views(front.filter(by_chain).push(chains.last())) =~= views(
                front.filter(by_chain),
            ).push(chains.last()@));
        }
    } else {
        assert(views(chains.filter(by_chain)) =~= views(chains).filter(keep));
    }
}

/// What a filter keeps of a sequence without duplicates has none.
proof fn lemma_filter_no_duplicates<T>(s: Seq<T>, keep: spec_fn(T) -> bool)
    requires
        s.no_duplicates(),
    ensures
        s.filter(keep).no_duplicates(),
    decreases s.len(),
{
    reveal(Seq::filter);
    if s.len() > 0 {
        let front = s.drop_last();
        assert(front.no_duplicates()) by {
            assert forall|i: int, j: int|
                0 <= i < front.len() && 0 <= j < front.len() && i != j implies front[i]
                != front[j] by {
                assert(front[i] == s[i] && front[j] == s[j]);
            }
        }
        lemma_filter_no_duplicates(front, keep);
        lemma_filter_members(front, keep);
        let kept = front.filter(keep);
        assert forall|i: int| 0 <= i < kept.len() implies kept[i] != s.last() by {
            assert(front.contains(kept[i]));
            let at = choose|at: int| 0 <= at < front.len() && front[at] == kept[i];
            assert(s[at] == front[at]);
        }
    }
}

/// A sequence of the dominant chains of an arena that ascends by lodging and
/// storage ascends strictly, and holds each of them once.
proof fn lemma_sorted_dominant(arena: ChainMap, sorted: Seq<ChainView>)
    requires
        arena.wf(),
        sorted.to_multiset() == dominant(arena.stored()).to_multiset(),
        forall|i: int, j: int|
            0 <= i < j < sorted.len() ==> capacity_ordered(#[trigger] sorted[i], #[trigger] sorted[j]),
    ensures
        forall|chain: ChainView| #[trigger] sorted.contains(chain) <==> dominant_in(arena@, chain),
        forall|i: int, j: int|
            0 <= i < j < sorted.len() ==> capacity_before(#[trigger] sorted[i], #[trigger] sorted[j]),
{
    broadcast use vstd::seq_lib::to_multiset_contains;

    let stored = arena.stored();
    let kept = dominant(stored);
    let keep = |chain: ChainView| !dominated_in(chain, stored);
    lemma_stored_holds(arena);
    lemma_filter_members(stored, keep);
    lemma_filter_no_duplicates(stored, keep);
    assert forall|chain: ChainView| #[trigger] kept.contains(chain) <==> dominant_in(
        arena@,
        chain,
    ) by {
        if kept.contains(chain) {
            let i = choose|i: int| 0 <= i < kept.len() && kept[i] == chain;
            assert(keep(kept[i]) && stored.contains(kept[i]));
            assert forall|k: nat| arena@.contains_key(k) implies !score_dominates(
                #[trigger] arena@[k].score(),
                chain.score(),
            ) by {
                assert(holds(arena@, arena@[k])) by {
                    assert(arena.cost[k as int] != usize::MAX);
                    let at = arena.slot(k as int).unwrap() as int;
                    assert(arena.chain_in(at).key() == k);
                }
                assert(stored.contains(arena@[k]));
                let at = choose|at: int| 0 <= at < stored.len() && stored[at] == arena@[k];
                if score_dominates(arena@[k].score(), chain.score()) {
                    assert(score_dominates(stored[at].score(), chain.score()));
                }
            }
        }
        if dominant_in(arena@, chain) {
            assert(stored.contains(chain));
            let at = choose|at: int| 0 <= at < stored.len() && stored[at] == chain;
            if dominated_in(chain, stored) {
                let a = choose|a: int|
                    0 <= a < stored.len() && score_dominates(
                        #[trigger] stored[a].score(),
                        chain.score(),
                    );
                assert(stored.contains(stored[a]));
                assert(holds(arena@, stored[a]));
            }
            stored.lemma_filter_contains(keep, at);
        }
    }
    assert forall|chain: ChainView| #[trigger] sorted.contains(chain) <==> kept.contains(chain) by {
        assert(sorted.to_multiset().count(chain) == kept.to_multiset().count(chain));
    }
    kept.lemma_multiset_has_no_duplicates();
    sorted.lemma_multiset_has_no_duplicates_conv();
    assert forall|i: int, j: int| 0 <= i < j < sorted.len() implies capacity_before(
        #[trigger] sorted[i],
        #[trigger] sorted[j],
    ) by {
        assert(sorted.contains(sorted[i]));
        assert(sorted.contains(sorted[j]));
        assert(holds(arena@, sorted[i]) && holds(arena@, sorted[j]));
        assert(sorted[i] != sorted[j]);
        assert(capacity_ordered(sorted[i], sorted[j]));
    }
}

/// A filter that every entry passes leaves the sequence as it is.
proof fn lemma_filter_keeps_all<T>(s: Seq<T>, keep: spec_fn(T) -> bool)
    requires
        forall|i: int| 0 <= i < s.len() ==> keep(#[trigger] s[i]),
    ensures
        s.filter(keep) == s,
    decreases s.len(),
{
    reveal(Seq::filter);
    if s.len() > 0 {
        let front = s.drop_last();
        assert forall|i: int| 0 <= i < front.len() implies keep(#[trigger] front[i]) by {
            assert(front[i] == s[i]);
        }
        lemma_filter_keeps_all(front, keep);
        assert(front.push(s.last()) =~= s);
    }
}

impl ChainMap {
    /// Keeps of `chains` those that no chain of `chains` dominates, in their
    /// order.
    pub fn retain_dominating(chains: &mut Vec<Chain>)
        ensures
            views(final(chains)@) == dominant(views(old(chains)@)),
    {
        let len = chains.len();
        let ghost all = chains@;
        let ghost keep_view = |chain: ChainView| !dominated_in(chain, views(all));
        let ghost keep = |chain: Chain| keep_view(chain@);
        let mut flags: Vec<bool> = Vec::new();
        let mut i: usize = 0;
        while i < len
            invariant
                i <= len,
                len == chains.len(),
                chains@ == all,
                flags.len() == i,
                forall|k: int|
                    0 <= k < i ==> #[trigger] flags[k] == !dominated_in(all[k]@, views(all)),
            decreases len - i,
        {
            let mut free = true;
            let mut a: usize = 0;
            while a < len
                invariant
                    a <= len,
                    i < len,
                    len == chains.len(),
                    chains@ == all,
                    free == !exists|b: int|
                        0 <= b < a && score_dominates(
                            #[trigger] views(all)[b].score(),
                            all[i as int]@.score(),
                        ),
                decreases len - a,
            {
                if chains[a].dominates(&chains[i]) {
                    free = false;
                    assert(score_dominates(views(all)[a as int].score(), all[i as int]@.score()));
                }
                a += 1;
            }
            flags.push(free);
            i += 1;
        }
        let mut j: usize = 0;
        let mut i: usize = 0;
        proof {
            reveal(Seq::filter);
            assert(all.take(0) =~= Seq::<Chain>::empty());
        }
        while i < len
            invariant
                j <= i <= len,
                len == chains.len(),
                len == all.len(),
                flags.len() == len,
                forall|k: int| 0 <= k < len ==> #[trigger] flags[k] == keep(all[k]),
                forall|k: int| i <= k < len ==> #[trigger] chains[k] == all[k],
                chains@.take(j as int) == all.take(i as int).filter(keep),
            decreases len - i,
        {
            proof {
                reveal(Seq::filter);
                assert(all.take(i + 1).drop_last() =~= all.take(i as int));
            }
            if flags[i] {
                let ghost before = chains@;
                swap_entries(chains, i, j);
                proof {
                    assert(chains@.take(j + 1) =~= before.take(j as int).push(all[i as int]));
                }
                j += 1;
            }
            i += 1;
        }
        chains.truncate(j);
        proof {
            assert(all.take(len as int) =~= all);
            assert(chains@ =~= all.take(len as int).filter(keep));
            lemma_filter_views(all, keep_view);
            assert(keep =~= (|chain: Chain| keep_view(chain@)));
        }
    }

    /// The dominant chains of the arena, in ascending order of lodging and
    /// then of storage: each chain that the arena holds and that no chain
    /// of the arena dominates, once.
    pub fn retain_dominating_to_vec(&self) -> (chains: Vec<Chain>)
        requires
            self.wf(),
        ensures
            forall|chain: ChainView| #[trigger]
                views(chains@).contains(chain) <==> dominant_in(self@, chain),
            forall|i: int, j: int|
                0 <= i < j < chains.len() ==> capacity_before(
                    (#[trigger] chains[i])@,
                    (#[trigger] chains[j])@,
                ),
            views(chains@).to_multiset() == dominant(self.stored()).to_multiset(),
    {
        let mut chains = self.stored_copies();
        proof {
            assert(views(chains@) =~= self.stored());
        }
        Self::retain_dominating(&mut chains);
        sort_by_capacity(&mut chains);
        proof {
            let sorted = views(chains@);
            lemma_sorted_dominant(*self, sorted);
            assert forall|i: int, j: int| 0 <= i < j < chains.len() implies capacity_before(
                (#[trigger] chains[i])@,
                (#[trigger] chains[j])@,
            ) by {
                assert(capacity_before(sorted[i], sorted[j]));
            }
        }
        chains
    }
}

} // verus!
