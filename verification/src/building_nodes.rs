//! The buildings of a region as a table of nodes, by ascending key.

use crate::houseinfo::Building;
use crate::houseinfo::BuildingMap;
use vstd::prelude::*;
use vstd::std_specs::cmp::OrdSpec;
use vstd::std_specs::iter::IteratorSpec;

verus! {

/// What the layout of a region reads of a building.
#[derive(Clone, Copy, Debug)]
pub struct Node {
    pub key: usize,
    pub parent_key: usize,
    pub cost: usize,
    pub warehouse_count: usize,
    pub worker_count: usize,
}

/// The node of a building.
pub open spec fn node_of(key: usize, building: Building) -> Node {
    Node {
        key,
        parent_key: building.need_key,
        cost: building.cost,
        warehouse_count: building.warehouse_count,
        worker_count: building.worker_count,
    }
}

/// `nodes` are the nodes of `buildings`, one of each building, by ascending
/// key.
pub open spec fn are_nodes_of(nodes: Seq<Node>, buildings: Map<usize, Building>) -> bool {
    &&& nodes.len() == buildings.len()
    &&& forall|i: int|
        0 <= i < nodes.len() ==> buildings.contains_key(#[trigger] nodes[i].key) && nodes[i]
            == node_of(nodes[i].key, buildings[nodes[i].key])
    &&& forall|i: int, j: int| 0 <= i < j < nodes.len() ==> nodes[i].key < nodes[j].key
    &&& forall|key: usize|
        buildings.contains_key(key) ==> exists|i: int|
            0 <= i < nodes.len() && #[trigger] nodes[i].key == key
}

/// The nodes of the buildings, by ascending key.
pub fn nodes_of(buildings: &BuildingMap) -> (nodes: Vec<Node>)
    ensures
        are_nodes_of(nodes@, buildings@),
{
    broadcast use vstd::std_specs::btree::group_btree_axioms;
    broadcast use vstd::laws_cmp::group_laws_cmp;

    let mut nodes: Vec<Node> = Vec::new();
    let entries = buildings.iter();
    let ghost all = entries.remaining();
    for entry in it: entries
        invariant
            it.seq() == all,
            nodes.len() == it.index(),
            forall|j: int|
                0 <= j < nodes.len() ==> #[trigger] nodes[j] == node_of(*all[j].0, *all[j].1),
    {
        let (key, building) = entry;
        nodes.push(
            Node {
                key: *key,
                parent_key: building.need_key,
                cost: building.cost,
                warehouse_count: building.warehouse_count,
                worker_count: building.worker_count,
            },
        );
    }
    proof {
        let keys = all.map_values(|kv: (&usize, &Building)| *kv.0);
        assert(vstd::std_specs::btree::increasing_seq(keys));
        assert forall|i: int, j: int| 0 <= i < j < nodes.len() implies nodes[i].key
            < nodes[j].key by {
            assert(keys[i] == nodes[i].key);
            assert(keys[j] == nodes[j].key);
            assert(keys[i].cmp_spec(&keys[j]) == core::cmp::Ordering::Less);
        }
        assert forall|key: usize| buildings@.contains_key(key) implies exists|i: int|
            0 <= i < nodes.len() && #[trigger] nodes[i].key == key by {
            assert(all.contains((&key, &buildings@[key])));
            let i = choose|i: int| 0 <= i < all.len() && all[i] == (&key, &buildings@[key]);
            assert(nodes[i].key == key);
        }
        assert forall|i: int| 0 <= i < nodes.len() implies buildings@.contains_key(
            #[trigger] nodes[i].key,
        ) && nodes[i] == node_of(nodes[i].key, buildings@[nodes[i].key]) by {
            assert(buildings@.contains_key(*all[i].0));
            assert(buildings@[*all[i].0] == *all[i].1);
        }
    }
    nodes
}

} // verus!
