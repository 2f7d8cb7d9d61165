//! The arena of the cheapest chains seen, one to a capacity fingerprint.

use crate::chain::{Chain, ChainView};
use crate::node_manipulation::lemma_injection_bound;
use crate::region_nodes::{table_len, RegionNodes};
use stable_vec::ExternStableVec;
use vstd::prelude::*;

verus! {

/// A stable vector of chains, `stable_vec::ExternStableVec<Chain>`: slots
/// that are filled or empty, where a chain keeps its slot for as long as it
/// is held. What the slots hold is named by `chain_slots`; nothing else of
/// the vector is known to the proofs.
#[verifier::external_body]
pub struct ChainStore {
    slots: ExternStableVec<Chain>,
}

/// A stable vector of indices, `stable_vec::ExternStableVec<usize>`. What
/// its slots hold is named by `index_slots`, and the slots it has room for
/// by `index_room`; nothing else of the vector is known to the proofs.
#[verifier::external_body]
pub struct IndexStore {
    slots: ExternStableVec<usize>,
}

/// The slots of a stable vector of chains up to the first slot that was
/// never filled: what each holds, `None` for an empty one.
pub uninterp spec fn chain_slots(store: ChainStore) -> Seq<Option<Chain>>;

/// The slots of a stable vector of indices up to the first slot that was
/// never filled: what each holds, `None` for an empty one.
pub uninterp spec fn index_slots(store: IndexStore) -> Seq<Option<usize>>;

/// A number of slots that a stable vector of indices is known to have room
/// for, filled or empty.
pub uninterp spec fn index_room(store: IndexStore) -> nat;

/// What `slots` holds at `index`; nothing behind the last slot.
pub open spec fn slot_at<T>(slots: Seq<Option<T>>, index: int) -> Option<T> {
    if 0 <= index < slots.len() {
        slots[index]
    } else {
        None
    }
}

/// `slots` after `value` was put at `index`: the slot is overwritten where
/// it exists, else empty slots are added up to it.
pub open spec fn slots_with<T>(slots: Seq<Option<T>>, index: int, value: T) -> Seq<Option<T>> {
    if index < slots.len() {
        slots.update(index, Some(value))
    } else {
        (slots + Seq::new((index - slots.len()) as nat, |i: int| None::<T>)).push(Some(value))
    }
}

/// `StableVecFacade::new` and `StableVecFacade::reserve`, for indices: an
/// empty stable vector with room for at least `room` slots. The
/// reservation panics where the slots take more than `isize::MAX` bytes; an
/// index takes no more than 8 bytes, so that is left out.
#[verifier::external_body]
fn new_index_store(room: usize) -> (store: IndexStore)
    requires
        room * 8 <= isize::MAX,
    ensures
        index_slots(store) == Seq::<Option<usize>>::empty(),
        index_room(store) >= room,
{
    let mut slots = ExternStableVec::<usize>::new();
    slots.reserve(room);
    IndexStore { slots }
}

/// `StableVecFacade::insert`, for indices: fills or overwrites the slot at
/// `key` and leaves the room as it was. The slots between the last one and
/// `key` stay empty. The call panics where the vector has no room for the
/// slot, so that is left out.
#[verifier::external_body]
fn set_index(store: &mut IndexStore, key: usize, index: usize)
    requires
        key < index_room(*old(store)),
    ensures
        index_slots(*final(store)) == slots_with(index_slots(*old(store)), key as int, index),
        index_room(*final(store)) == index_room(*old(store)),
{
    store.slots.insert(key, index);
}

/// `StableVecFacade::get`, for indices: what the slot at `key` holds.
#[verifier::external_body]
fn index_at(store: &IndexStore, key: usize) -> (index: Option<usize>)
    ensures
        index == slot_at(index_slots(*store), key as int),
{
    store.slots.get(key).copied()
}

/// `StableVecFacade::new`, for chains: a stable vector without slots.
#[verifier::external_body]
fn new_chain_store() -> (store: ChainStore)
    ensures
        chain_slots(store) == Seq::<Option<Chain>>::empty(),
{
    ChainStore { slots: ExternStableVec::<Chain>::new() }
}

/// `StableVecFacade::push`, for chains: fills a new slot behind the last one
/// and returns its index. Where the vector is full it doubles its room, and
/// panics where that takes more than `isize::MAX` bytes; a chain takes less
/// than 128 bytes, so a vector of fewer than `isize::MAX / 256` chains does
/// not come to that.
#[verifier::external_body]
fn push_chain(store: &mut ChainStore, chain: Chain) -> (index: usize)
    requires
        chain_slots(*old(store)).len() * 256 < isize::MAX,
    ensures
        index == chain_slots(*old(store)).len(),
        chain_slots(*final(store)) == chain_slots(*old(store)).push(Some(chain)),
{
    store.slots.push(chain)
}

/// `StableVecFacade::insert`, for chains, on a filled slot: the slot then
/// holds `chain`, and the other slots are as they were.
#[verifier::external_body]
fn replace_chain(store: &mut ChainStore, index: usize, chain: Chain)
    requires
        slot_at(chain_slots(*old(store)), index as int) is Some,
    ensures
        chain_slots(*final(store)) == chain_slots(*old(store)).update(index as int, Some(chain)),
{
    store.slots.insert(index, chain);
}

/// `StableVecFacade::values`, for chains: a copy of every chain held, by
/// ascending slot.
#[verifier::external_body]
fn stored_chains(store: &ChainStore) -> (chains: Vec<Chain>)
    ensures
        chains.len() == filled(chain_slots(*store)).len(),
        forall|i: int|
            0 <= i < chains.len() ==> (#[trigger] chains[i])@ == filled(chain_slots(*store))[i]@,
{
    store.slots.values().map(|chain| chain.snapshot()).collect()
}

/// What the filled slots hold, by ascending slot.
pub open spec fn filled<T>(slots: Seq<Option<T>>) -> Seq<T>
    decreases slots.len(),
{
    if slots.len() == 0 {
        Seq::empty()
    } else {
        match slots.last() {
            Some(value) => filled(slots.drop_last()).push(value),
            None => filled(slots.drop_last()),
        }
    }
}

/// The arena of the cheapest chains seen.
///
/// `cost[k]` is the cost of the cheapest chain seen with the fingerprint `k`,
/// or `usize::MAX` where none was seen; `keys` holds at `k` the slot of that
/// chain in `chains`.
pub struct ChainMap {
    pub cost: Vec<usize>,
    pub keys: IndexStore,
    pub chains: ChainStore,
}

/// `arena` after it was offered `chain`: the chain is kept where its
/// fingerprint is new or it is cheaper than the chain kept for it.
pub open spec fn offered(arena: Map<nat, ChainView>, chain: ChainView) -> Map<nat, ChainView> {
    if arena.contains_key(chain.key()) && arena[chain.key()].usage_counts.cost
        <= chain.usage_counts.cost {
        arena
    } else {
        arena.insert(chain.key(), chain)
    }
}

impl ChainMap {
    /// The slot in `chains` that `keys` holds for the fingerprint `key`.
    pub open spec fn slot(&self, key: int) -> Option<usize> {
        slot_at(index_slots(self.keys), key)
    }

    /// The chain in the slot `index` of the arena.
    pub open spec fn chain_in(&self, index: int) -> ChainView {
        chain_slots(self.chains)[index].unwrap()@
    }

    /// Number of chains in the arena.
    pub open spec fn count(&self) -> int {
        chain_slots(self.chains).len() as int
    }

    /// The chains of the arena in the order in which their fingerprints
    /// were first seen.
    pub open spec fn stored(&self) -> Seq<ChainView> {
        Seq::new(self.count() as nat, |i: int| self.chain_in(i))
    }

    /// Every fingerprint seen has one chain in the arena, of the cost the
    /// table holds, and every chain in the arena is the one of its
    /// fingerprint.
    pub open spec fn wf(&self) -> bool {
        &&& index_room(self.keys) >= self.cost.len()
        &&& self.cost.len() * 256 <= isize::MAX
        &&& forall|i: int|
            0 <= i < self.count() ==> {
                let chain = #[trigger] chain_slots(self.chains)[i];
                &&& chain is Some
                &&& chain.unwrap()@.key() < self.cost.len()
                &&& self.cost[chain.unwrap()@.key() as int] == chain.unwrap().usage_counts.cost
                &&& chain.unwrap().usage_counts.cost < usize::MAX
                &&& self.slot(chain.unwrap()@.key() as int) is Some
                &&& self.slot(chain.unwrap()@.key() as int).unwrap() == i
            }
        &&& forall|k: int|
            0 <= k < self.cost.len() && #[trigger] self.cost[k] != usize::MAX ==> {
                &&& self.slot(k) is Some
                &&& self.slot(k).unwrap() < self.count()
                &&& self.chain_in(self.slot(k).unwrap() as int).key() == k
            }
    }

    /// The arena as a map from each fingerprint seen to its chain.
    pub open spec fn view(&self) -> Map<nat, ChainView> {
        Map::new(
            |k: nat| k < self.cost.len() && self.cost[k as int] != usize::MAX,
            |k: nat| self.chain_in(self.slot(k as int).unwrap() as int),
        )
    }

    /// An empty arena with a table for every fingerprint of the region.
    pub fn new(region: &RegionNodes) -> (arena: Self)
        requires
            region.wf(),
        ensures
            arena.wf(),
            arena.cost.len() == table_len(region.capacity_bound()),
            arena@ == Map::<nat, ChainView>::empty(),
            arena.stored() == Seq::<ChainView>::empty(),
    {
        let bound = if region.max_worker_count >= region.max_warehouse_count {
            region.max_worker_count
        } else {
            region.max_warehouse_count
        };
        assert(bound + 1 <= (bound + 1) * (bound + 1)) by (nonlinear_arith)
            requires
                bound >= 0,
        ;
        let len = (bound + 1) * (bound + 1);
        let cost = vec![usize::MAX; len];
        let keys = new_index_store(len);
        let chains = new_chain_store();
        let arena = Self { cost, keys, chains };
        proof {
            assert(arena@ =~= Map::<nat, ChainView>::empty());
            assert(arena.stored() =~= Seq::<ChainView>::empty());
        }
        arena
    }

    /// Offers `chain` to the arena, which keeps a copy of it where its
    /// fingerprint is new or it is cheaper than the chain kept for it.
    pub fn insert_or_update(&mut self, chain: &Chain)
        requires
            old(self).wf(),
            chain@.key() < old(self).cost.len(),
            chain.usage_counts.cost < usize::MAX,
        ensures
            final(self).wf(),
            final(self).cost.len() == old(self).cost.len(),
            final(self)@ == offered(old(self)@, chain@),
            final(self).stored() == offered_in_order(old(self).stored(), chain@),
    {
        let key = chain.elegant_pair();
        let cost = chain.usage_counts.cost;
        if self.cost[key] == usize::MAX {
            proof {
                lemma_room_for_one(*self, key as int);
            }
            self.cost[key] = cost;
            let index = push_chain(&mut self.chains, chain.snapshot());
            set_index(&mut self.keys, key, index);
            proof {
                assert forall|i: int| 0 <= i < self.count() implies {
                    let held = #[trigger] chain_slots(self.chains)[i];
                    &&& held is Some
                    &&& held.unwrap()@.key() < self.cost.len()
                    &&& self.cost[held.unwrap()@.key() as int] == held.unwrap().usage_counts.cost
                    &&& held.unwrap().usage_counts.cost < usize::MAX
                    &&& self.slot(held.unwrap()@.key() as int) is Some
                    &&& self.slot(held.unwrap()@.key() as int).unwrap() == i
                } by {
                    if i < old(self).count() {
                        assert(chain_slots(self.chains)[i] == chain_slots(old(self).chains)[i]);
                    }
                }
                assert forall|k: int|
                    0 <= k < self.cost.len() && #[trigger] self.cost[k] != usize::MAX implies {
                    &&& self.slot(k) is Some
                    &&& self.slot(k).unwrap() < self.count()
                    &&& self.chain_in(self.slot(k).unwrap() as int).key() == k
                } by {
                    if k != key {
                        assert(old(self).cost[k] != usize::MAX);
                        assert(self.slot(k) == old(self).slot(k));
                    }
                }
                assert forall|k: nat| #[trigger] self@.contains_key(k) && k != key implies self@[k]
                    == old(self)@[k] by {
                    assert(old(self).cost[k as int] != usize::MAX);
                    assert(self.slot(k as int) == old(self).slot(k as int));
                }
                assert(self@ =~= old(self)@.insert(key as nat, chain@));
                assert(self.stored() =~= old(self).stored().push(chain@));
                lemma_slot_of(*old(self), key as nat);
            }
        } else if self.cost[key] > cost {
            self.cost[key] = cost;
            let index = index_at(&self.keys, key).unwrap();
            replace_chain(&mut self.chains, index, chain.snapshot());
            proof {
                assert forall|i: int| 0 <= i < self.count() implies {
                    let held = #[trigger] chain_slots(self.chains)[i];
                    &&& held is Some
                    &&& held.unwrap()@.key() < self.cost.len()
                    &&& self.cost[held.unwrap()@.key() as int] == held.unwrap().usage_counts.cost
                    &&& held.unwrap().usage_counts.cost < usize::MAX
                    &&& self.slot(held.unwrap()@.key() as int) is Some
                    &&& self.slot(held.unwrap()@.key() as int).unwrap() == i
                } by {
                    if i != index {
                        assert(chain_slots(self.chains)[i] == chain_slots(old(self).chains)[i]);
                    }
                }
                assert forall|k: int|
                    0 <= k < self.cost.len() && #[trigger] self.cost[k] != usize::MAX implies {
                    &&& self.slot(k) is Some
                    &&& self.slot(k).unwrap() < self.count()
                    &&& self.chain_in(self.slot(k).unwrap() as int).key() == k
                } by {
                    if k != key {
                        assert(old(self).cost[k] != usize::MAX);
                        let at = old(self).slot(k).unwrap() as int;
                        assert(chain_slots(old(self).chains)[at] is Some);
                    }
                }
                assert forall|k: nat| #[trigger] self@.contains_key(k) && k != key implies self@[k]
                    == old(self)@[k] by {
                    assert(old(self).cost[k as int] != usize::MAX);
                    let at = old(self).slot(k as int).unwrap() as int;
                    assert(chain_slots(old(self).chains)[at] is Some);
                }
                assert(old(self)@.contains_key(key as nat));
                assert(old(self)@[key as nat].usage_counts.cost == old(self).cost[key as int]) by {
                    assert(chain_slots(old(self).chains)[index as int] is Some);
                }
                assert(self@ =~= old(self)@.insert(key as nat, chain@));
                assert(self.stored() =~= old(self).stored().update(index as int, chain@));
                lemma_slot_of(*old(self), key as nat);
            }
        } else {
            proof {
                assert(old(self)@.contains_key(key as nat));
                let at = old(self).slot(key as int).unwrap() as int;
                assert(chain_slots(old(self).chains)[at] is Some);
                lemma_slot_of(*old(self), key as nat);
            }
        }
    }

    /// A copy of every chain of the arena, in the order in which their
    /// fingerprints were first seen.
    pub fn stored_copies(&self) -> (chains: Vec<Chain>)
        requires
            self.wf(),
        ensures
            chains.len() == self.count(),
            forall|i: int| 0 <= i < chains.len() ==> (#[trigger] chains[i])@ == self.chain_in(i),
    {
        let chains = stored_chains(&self.chains);
        proof {
            lemma_filled_all(chain_slots(self.chains));
        }
        chains
    }

    /// Offers every chain of `other` to the arena, in the order in which
    /// `other` holds them.
    pub fn merge(&mut self, other: &ChainMap)
        requires
            old(self).wf(),
            other.wf(),
            other.cost.len() == old(self).cost.len(),
        ensures
            final(self).wf(),
            final(self).cost.len() == old(self).cost.len(),
            final(self)@ == absorbed(old(self)@, other.stored()),
            final(self)@ == merged(old(self)@, other@),
            final(self).stored() == absorbed_in_order(old(self).stored(), other.stored()),
    {
        let chains = other.stored_copies();
        let mut i: usize = 0;
        proof {
            assert(other.stored().take(0) =~= Seq::<ChainView>::empty());
        }
        while i < chains.len()
            invariant
                i <= chains.len(),
                self.wf(),
                other.wf(),
                self.cost.len() == old(self).cost.len(),
                other.cost.len() == self.cost.len(),
                chains.len() == other.count(),
                forall|j: int| 0 <= j < chains.len() ==> (#[trigger] chains[j])@ == other.chain_in(j),
                self@ == absorbed(old(self)@, other.stored().take(i as int)),
                self.stored() == absorbed_in_order(
                    old(self).stored(),
                    other.stored().take(i as int),
                ),
            decreases chains.len() - i,
        {
            proof {
                assert(chain_slots(other.chains)[i as int] is Some);
                assert(other.stored().take(i + 1).drop_last() =~= other.stored().take(i as int));
            }
            self.insert_or_update(&chains[i]);
            i += 1;
        }
        proof {
            assert(other.stored().take(i as int) =~= other.stored());
            lemma_absorbed_is_merged(old(self)@, *other, other.count());
            assert(other.held_below(other.count()) =~= other@) by {
                assert forall|k: nat| other@.contains_key(k) implies #[trigger] other.held_below(
                    other.count(),
                ).contains_key(k) by {
                    assert(other.cost[k as int] != usize::MAX);
                }
            }
        }
    }

    /// The part of the arena that lies in the slots below `bound`.
    pub open spec fn held_below(&self, bound: int) -> Map<nat, ChainView> {
        Map::new(
            |k: nat| self@.contains_key(k) && self.slot(k as int).unwrap() < bound,
            |k: nat| self@[k],
        )
    }

    /// One arena of all of `chain_maps`: the first, offered the chains of each
    /// of the others in turn.
    pub fn flatten_many_by_insert_update(chain_maps: Vec<ChainMap>) -> (arena: ChainMap)
        requires
            chain_maps.len() > 0,
            forall|i: int| 0 <= i < chain_maps.len() ==> (#[trigger] chain_maps[i]).wf(),
            forall|i: int|
                0 <= i < chain_maps.len() ==> (#[trigger] chain_maps[i]).cost.len()
                    == chain_maps[0].cost.len(),
        ensures
            arena.wf(),
            arena.cost.len() == chain_maps[0].cost.len(),
            arena@ == merged_all(chain_maps@.map_values(|m: ChainMap| m@), chain_maps.len() as int),
            arena.stored() == merged_all_in_order(
                chain_maps@.map_values(|m: ChainMap| m.stored()),
                chain_maps.len() as int,
            ),
    {
        let ghost stores = chain_maps@.map_values(|m: ChainMap| m.stored());
        let ghost views = chain_maps@.map_values(|m: ChainMap| m@);
        let ghost all = chain_maps@;
        let mut rest = chain_maps;
        let mut arena = rest.remove(0);
        proof {
            reveal_with_fuel(merged_all, 2);
            reveal_with_fuel(merged_all_in_order, 2);
            lemma_merged_with_empty(arena@);
        }
        let mut i: usize = 0;
        while i < rest.len()
            invariant
                i <= rest.len(),
                arena.wf(),
                all.len() == rest.len() + 1,
                views == all.map_values(|m: ChainMap| m@),
                stores == all.map_values(|m: ChainMap| m.stored()),
                arena.stored() == merged_all_in_order(stores, i + 1),
                arena.cost.len() == all[0].cost.len(),
                forall|j: int| 0 <= j < rest.len() ==> #[trigger] rest[j] == all[j + 1],
                forall|j: int| 0 <= j < all.len() ==> (#[trigger] all[j]).wf(),
                forall|j: int|
                    0 <= j < all.len() ==> (#[trigger] all[j]).cost.len() == all[0].cost.len(),
                arena@ == merged_all(views, i + 1),
            decreases rest.len() - i,
        {
            arena.merge(&rest[i]);
            i += 1;
        }
        arena
    }
}

/// The slot of the chain with the fingerprint `key` among the chains of an
/// arena; nothing where none has that fingerprint.
pub open spec fn slot_of(stored: Seq<ChainView>, key: nat) -> Option<int> {
    if exists|i: int| 0 <= i < stored.len() && (#[trigger] stored[i]).key() == key {
        Some(choose|i: int| 0 <= i < stored.len() && (#[trigger] stored[i]).key() == key)
    } else {
        None
    }
}

/// The chains of an arena, by slot, after the arena was offered `chain`: a
/// new fingerprint adds the chain behind the others, a cheaper chain takes
/// the slot of the one it replaces.
pub open spec fn offered_in_order(stored: Seq<ChainView>, chain: ChainView) -> Seq<ChainView> {
    match slot_of(stored, chain.key()) {
        None => stored.push(chain),
        Some(slot) => if chain.usage_counts.cost < stored[slot].usage_counts.cost {
            stored.update(slot, chain)
        } else {
            stored
        },
    }
}

/// The chains of an arena, by slot, after the arena was offered each of
/// `chains` in turn.
pub open spec fn absorbed_in_order(stored: Seq<ChainView>, chains: Seq<ChainView>) -> Seq<
    ChainView,
>
    decreases chains.len(),
{
    if chains.len() == 0 {
        stored
    } else {
        offered_in_order(absorbed_in_order(stored, chains.drop_last()), chains.last())
    }
}

/// The chains, by slot, of the first of `count` arenas after it was offered
/// the chains of each later one in turn.
pub open spec fn merged_all_in_order(stores: Seq<Seq<ChainView>>, count: int) -> Seq<ChainView>
    decreases count,
{
    if count <= 0 {
        Seq::empty()
    } else if count == 1 {
        stores[0]
    } else {
        absorbed_in_order(merged_all_in_order(stores, count - 1), stores[count - 1])
    }
}

/// The slot of a fingerprint among the chains of an arena is the slot that
/// the arena keeps for it.
proof fn lemma_slot_of(arena: ChainMap, key: nat)
    requires
        arena.wf(),
        key < arena.cost.len(),
    ensures
        arena.cost[key as int] == usize::MAX ==> slot_of(arena.stored(), key) is None,
        arena.cost[key as int] != usize::MAX ==> slot_of(arena.stored(), key) == Some(
            arena.slot(key as int).unwrap() as int,
        ) && arena.stored()[arena.slot(key as int).unwrap() as int].usage_counts.cost
            == arena.cost[key as int],
{
    let stored = arena.stored();
    if arena.cost[key as int] == usize::MAX {
        if exists|i: int| 0 <= i < stored.len() && (#[trigger] stored[i]).key() == key {
            let i = choose|i: int| 0 <= i < stored.len() && (#[trigger] stored[i]).key() == key;
            assert(chain_slots(arena.chains)[i] is Some);
        }
    } else {
        let at = arena.slot(key as int).unwrap() as int;
        assert(chain_slots(arena.chains)[at] is Some);
        assert(stored[at].key() == key);
        let i = choose|i: int| 0 <= i < stored.len() && (#[trigger] stored[i]).key() == key;
        assert(chain_slots(arena.chains)[i] is Some);
    }
}

/// `arena` holds `chain`, as the chain of its fingerprint.
pub open spec fn holds(arena: Map<nat, ChainView>, chain: ChainView) -> bool {
    arena.contains_key(chain.key()) && arena[chain.key()] == chain
}

/// The chains in the slots of an arena are the chains that it holds by
/// fingerprint, each in one slot.
pub proof fn lemma_stored_holds(arena: ChainMap)
    requires
        arena.wf(),
    ensures
        forall|chain: ChainView| #[trigger] arena.stored().contains(chain) <==> holds(arena@, chain),
        arena.stored().no_duplicates(),
{
    let stored = arena.stored();
    assert forall|chain: ChainView| #[trigger] stored.contains(chain) implies holds(
        arena@,
        chain,
    ) by {
        let i = choose|i: int| 0 <= i < stored.len() && stored[i] == chain;
        assert(chain_slots(arena.chains)[i] is Some);
    }
    assert forall|chain: ChainView| holds(arena@, chain) implies #[trigger] stored.contains(
        chain,
    ) by {
        let key = chain.key() as int;
        assert(arena.cost[key] != usize::MAX);
        let at = arena.slot(key).unwrap() as int;
        assert(stored[at] == chain);
    }
    assert forall|i: int, j: int| 0 <= i < stored.len() && 0 <= j < stored.len() && i != j implies stored[i]
        != stored[j] by {
        assert(chain_slots(arena.chains)[i] is Some);
        assert(chain_slots(arena.chains)[j] is Some);
    }
}

/// `arena` after it was offered each of `chains` in turn.
pub open spec fn absorbed(arena: Map<nat, ChainView>, chains: Seq<ChainView>) -> Map<
    nat,
    ChainView,
>
    decreases chains.len(),
{
    if chains.len() == 0 {
        arena
    } else {
        offered(absorbed(arena, chains.drop_last()), chains.last())
    }
}

/// The cheaper chain of each fingerprint that `a` or `b` holds; where both
/// hold one of the same cost, that of `a`.
pub open spec fn merged(a: Map<nat, ChainView>, b: Map<nat, ChainView>) -> Map<nat, ChainView> {
    Map::new(
        |k: nat| a.contains_key(k) || b.contains_key(k),
        |k: nat|
            if a.contains_key(k) && (!b.contains_key(k) || a[k].usage_counts.cost
                <= b[k].usage_counts.cost) {
                a[k]
            } else {
                b[k]
            },
    )
}

/// The first `count` of `arenas` merged from the left.
pub open spec fn merged_all(arenas: Seq<Map<nat, ChainView>>, count: int) -> Map<nat, ChainView>
    decreases count,
{
    if count <= 0 {
        Map::empty()
    } else {
        merged(merged_all(arenas, count - 1), arenas[count - 1])
    }
}

/// Offering a chain a second time, or one of its fingerprint that is no
/// cheaper, changes nothing.
pub proof fn lemma_offer_again(arena: Map<nat, ChainView>, chain: ChainView, again: ChainView)
    requires
        again.key() == chain.key(),
        again.usage_counts.cost >= chain.usage_counts.cost,
    ensures
        offered(offered(arena, chain), again) == offered(arena, chain),
{
}

/// Merging two arenas keeps the same chains whichever is merged into the
/// other, unless they hold different chains of one fingerprint and one cost.
pub proof fn lemma_merge_commutes(a: Map<nat, ChainView>, b: Map<nat, ChainView>)
    requires
        forall|k: nat|
            a.contains_key(k) && b.contains_key(k) && a[k].usage_counts.cost
                == b[k].usage_counts.cost ==> a[k] == b[k],
    ensures
        merged(a, b) == merged(b, a),
{
    assert(merged(a, b) =~= merged(b, a));
}

/// Whichever of two arenas is merged into the other, the same fingerprints
/// are kept, each at the same cost.
pub proof fn lemma_merge_costs_commute(a: Map<nat, ChainView>, b: Map<nat, ChainView>)
    ensures
        merged(a, b).dom() == merged(b, a).dom(),
        forall|k: nat| #[trigger]
            merged(a, b).contains_key(k) ==> merged(a, b)[k].usage_counts.cost == merged(
                b,
                a,
            )[k].usage_counts.cost,
{
    assert(merged(a, b).dom() =~= merged(b, a).dom());
}

/// Merging into the empty arena gives the other arena.
proof fn lemma_merged_with_empty(a: Map<nat, ChainView>)
    ensures
        merged(Map::empty(), a) == a,
{
    assert(merged(Map::empty(), a) =~= a);
}

/// Where every slot is filled, the filled slots are all the slots.
proof fn lemma_filled_all<T>(slots: Seq<Option<T>>)
    requires
        forall|i: int| 0 <= i < slots.len() ==> #[trigger] slots[i] is Some,
    ensures
        filled(slots).len() == slots.len(),
        forall|i: int| 0 <= i < slots.len() ==> #[trigger] filled(slots)[i] == slots[i].unwrap(),
    decreases slots.len(),
{
    if slots.len() > 0 {
        let front = slots.drop_last();
        assert forall|i: int| 0 <= i < front.len() implies #[trigger] front[i] is Some by {
            assert(front[i] == slots[i]);
        }
        lemma_filled_all(front);
    }
}

/// An arena that has not seen a fingerprint of its table holds fewer chains
/// than the table has keys.
proof fn lemma_room_for_one(arena: ChainMap, key: int)
    requires
        arena.wf(),
        0 <= key < arena.cost.len(),
        arena.cost[key] == usize::MAX,
    ensures
        arena.count() < arena.cost.len(),
        arena.count() * 256 < isize::MAX,
{
    let keys = Seq::new(arena.count() as nat, |i: int| arena.chain_in(i).key() as int).push(key);
    assert forall|i: int| 0 <= i < keys.len() implies 0 <= #[trigger] keys[i]
        < arena.cost.len() by {
        if i < arena.count() {
            assert(chain_slots(arena.chains)[i] is Some);
        }
    }
    assert forall|i: int, j: int| 0 <= i < j < keys.len() implies keys[i] != keys[j] by {
        assert(chain_slots(arena.chains)[i] is Some);
        if j < arena.count() {
            assert(chain_slots(arena.chains)[j] is Some);
        }
    }
    lemma_injection_bound(keys, arena.cost.len() as int);
}

/// Offering an arena the chains in the first `count` slots of another is
/// merging it with what the other holds in those slots.
proof fn lemma_absorbed_is_merged(a: Map<nat, ChainView>, other: ChainMap, count: int)
    requires
        other.wf(),
        0 <= count <= other.count(),
    ensures
        absorbed(a, other.stored().take(count)) == merged(a, other.held_below(count)),
    decreases count,
{
    if count == 0 {
        assert(other.stored().take(0) =~= Seq::<ChainView>::empty());
        assert(merged(a, other.held_below(0)) =~= a);
    } else {
        lemma_absorbed_is_merged(a, other, count - 1);
        let chain = other.chain_in(count - 1);
        let key = chain.key();
        assert(chain_slots(other.chains)[count - 1] is Some);
        assert(other.stored().take(count).drop_last() =~= other.stored().take(count - 1));
        assert(other.stored().take(count).last() == chain);
        let before = merged(a, other.held_below(count - 1));
        let after = merged(a, other.held_below(count));
        assert(other@.contains_key(key));
        assert(other@[key] == chain);
        assert forall|k: nat| #[trigger] other.held_below(count).contains_key(k) && k != key implies (
        other.held_below(count - 1).contains_key(k)) by {
            assert(other.cost[k as int] != usize::MAX);
            let at = other.slot(k as int).unwrap() as int;
            assert(chain_slots(other.chains)[at] is Some);
        }
        assert(offered(before, chain) =~= after);
    }
}

} // verus!
