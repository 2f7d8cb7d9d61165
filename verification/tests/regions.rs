use housecraft::chain::Chain;
use housecraft::generate::{enumerate_dominant, generate_all};
use housecraft::houseinfo::{Building, BuildingMap};
use housecraft::region_build::BuildError;
use housecraft::region_nodes::RegionNodes;

fn building(key: usize, need_key: usize, cost: usize, storage: usize, lodging: usize) -> Building {
    Building {
        key,
        need_key,
        node_key: 0,
        region_key: 0,
        building_name: String::new(),
        node_name: String::new(),
        region_name: String::new(),
        cost,
        worker_count: lodging,
        stable_count: 0,
        warehouse_count: storage,
        craft_list: vec![],
    }
}

fn map_of(buildings: Vec<Building>) -> BuildingMap {
    let mut map = BuildingMap::new();
    for b in buildings {
        map.insert(b.key, b);
    }
    map
}

fn scores(chains: &Vec<Chain>) -> Vec<(usize, usize, usize)> {
    chains
        .iter()
        .map(|c| {
            (c.usage_counts.warehouse_count, c.usage_counts.worker_count, c.usage_counts.cost)
        })
        .collect()
}

#[test]
fn single_node_region_yields_the_root_alone() {
    let region = RegionNodes::new(&map_of(vec![]), 7).unwrap();
    assert_eq!(region.num_nodes, 1);
    assert_eq!(region.children, vec![7]);
    assert_eq!(region.jump_indices, vec![1]);
    let chains = enumerate_dominant(&region, 1);
    assert_eq!(chains.len(), 1);
    assert_eq!(chains[0].indices, vec![0]);
    assert_eq!(chains[0].states, vec![0]);
    assert_eq!(scores(&chains), vec![(0, 0, 0)]);
}

#[test]
fn trivial_tree() {
    let region = RegionNodes::new(&map_of(vec![building(20, 10, 1, 3, 0)]), 10).unwrap();
    let chains = enumerate_dominant(&region, 1);
    assert_eq!(chains.len(), 2);
    assert_eq!(chains[0].usage_counts.worker_count, 0);
    assert_eq!(chains[0].usage_counts.warehouse_count, 0);
    assert_eq!(chains[0].usage_counts.cost, 0);
    assert_eq!(chains[0].building_keys(&region), vec![10]);
    assert_eq!(chains[0].states, vec![0]);
    assert_eq!(chains[1].usage_counts.worker_count, 0);
    assert_eq!(chains[1].usage_counts.warehouse_count, 3);
    assert_eq!(chains[1].usage_counts.cost, 1);
    assert_eq!(chains[1].building_keys(&region), vec![10, 20]);
    assert_eq!(chains[1].states, vec![0, 1]);
}

#[test]
fn two_node_region_with_lodging_only() {
    let region = RegionNodes::new(&map_of(vec![building(2, 1, 4, 0, 6)]), 1).unwrap();
    assert_eq!(region.states, vec![0, 2]);
    let all = generate_all(&region);
    assert_eq!(all.len(), 3);
    assert_eq!(all[0].states, vec![0, 2]);
    assert_eq!(all[1].states, vec![0, 1]);
    assert_eq!(all[2].states, vec![0]);
    let chains = enumerate_dominant(&region, 1);
    assert_eq!(scores(&chains), vec![(0, 0, 0), (0, 6, 4)]);
}

#[test]
fn two_node_region_with_both_capacities() {
    // a building with storage to give is put to storage
    let region = RegionNodes::new(&map_of(vec![building(2, 1, 4, 3, 6)]), 1).unwrap();
    assert_eq!(region.states, vec![0, 1]);
    let all = generate_all(&region);
    assert_eq!(all.len(), 2);
    let chains = enumerate_dominant(&region, 1);
    assert_eq!(scores(&chains), vec![(0, 0, 0), (3, 0, 4)]);
    // a building with nothing to give is still put to both uses
    let idle = RegionNodes::new(&map_of(vec![building(2, 1, 4, 0, 0)]), 1).unwrap();
    assert_eq!(idle.states, vec![0, 2]);
    assert_eq!(generate_all(&idle).len(), 3);
    assert_eq!(scores(&enumerate_dominant(&idle, 1)), vec![(0, 0, 0)]);
}

#[test]
fn two_child_tree() {
    let region = RegionNodes::new(
        &map_of(vec![building(2, 1, 2, 5, 0), building(3, 1, 3, 0, 4)]),
        1,
    )
    .unwrap();
    let chains = enumerate_dominant(&region, 1);
    assert_eq!(scores(&chains), vec![(0, 0, 0), (5, 0, 2), (0, 4, 3), (5, 4, 5)]);
}

#[test]
fn chain_requirement() {
    let region = RegionNodes::new(
        &map_of(vec![building(2, 1, 1, 3, 0), building(3, 2, 1, 5, 0), building(4, 3, 1, 0, 4)]),
        1,
    )
    .unwrap();
    assert_eq!(region.children, vec![1, 2, 3, 4]);
    assert_eq!(region.parents, vec![0, 1, 2, 3]);
    assert_eq!(region.jump_indices, vec![4, 4, 4, 4]);
    let chains = enumerate_dominant(&region, 1);
    assert_eq!(scores(&chains), vec![(0, 0, 0), (3, 0, 1), (8, 0, 2), (8, 4, 3)]);
    for chain in chains.iter() {
        if chain.indices.contains(&3) {
            assert!(chain.indices.contains(&2));
        }
    }
}

#[test]
fn children_are_ordered_by_subtree_size() {
    // 1 is the root; 2 is a leaf; 3 has the children 4 and 5; 6 is a leaf.
    let region = RegionNodes::new(
        &map_of(vec![
            building(2, 1, 1, 1, 0),
            building(3, 1, 1, 1, 0),
            building(4, 3, 1, 0, 1),
            building(5, 3, 1, 1, 0),
            building(6, 1, 1, 0, 1),
        ]),
        1,
    )
    .unwrap();
    assert_eq!(region.children, vec![1, 3, 4, 5, 2, 6]);
    assert_eq!(region.parents, vec![0, 1, 3, 3, 1, 1]);
    assert_eq!(region.jump_indices, vec![6, 4, 3, 4, 5, 6]);
    assert_eq!(region.states, vec![0, 1, 2, 1, 1, 2]);
    assert_eq!(region.costs, vec![0, 1, 1, 1, 1, 1]);
    assert_eq!(region.usage_counts.cost, 5);
    assert_eq!(region.usage_counts.warehouse_count, 3);
    assert_eq!(region.usage_counts.worker_count, 2);
    assert_eq!(region.max_warehouse_count, 3);
    assert_eq!(region.max_worker_count, 2);
}

#[test]
fn malformed_regions_are_refused() {
    // a building that needs one that is not there
    let missing = RegionNodes::new(&map_of(vec![building(2, 9, 1, 1, 0)]), 1);
    assert_eq!(missing.err(), Some(BuildError::MalformedArborescence));
    // two buildings that need each other
    let cycle = RegionNodes::new(
        &map_of(vec![building(2, 3, 1, 1, 0), building(3, 2, 1, 1, 0)]),
        1,
    );
    assert_eq!(cycle.err(), Some(BuildError::MalformedArborescence));
    // a building with the key of the root
    let root_again = RegionNodes::new(&map_of(vec![building(1, 1, 1, 1, 0)]), 1);
    assert_eq!(root_again.err(), Some(BuildError::MalformedArborescence));
}

#[test]
fn regions_beyond_the_machine_are_refused() {
    let costly = RegionNodes::new(
        &map_of(vec![building(2, 1, usize::MAX, 1, 0), building(3, 1, 1, 1, 0)]),
        1,
    );
    assert_eq!(costly.err(), Some(BuildError::CapacityOverflow));
    let roomy = RegionNodes::new(&map_of(vec![building(2, 1, 1, usize::MAX / 2, 0)]), 1);
    assert_eq!(roomy.err(), Some(BuildError::CapacityOverflow));
}

#[test]
fn walk_visits_every_chain_once() {
    let region = RegionNodes::new(
        &map_of(vec![building(2, 1, 2, 5, 0), building(3, 1, 3, 0, 4), building(4, 2, 1, 0, 2)]),
        1,
    )
    .unwrap();
    // 2 has the child 4: c(4) = 1 + 2 = 3, c(2) = 1 + 1 * 3 = 4, c(3) = 1 + 2 = 3
    let all = generate_all(&region);
    assert_eq!(all.len(), 12);
    for i in 0..all.len() {
        for j in 0..i {
            assert!(all[i].indices != all[j].indices || all[i].states != all[j].states);
        }
        let chain = &all[i];
        assert_eq!(chain.indices.len(), chain.states.len());
        let mut cost = 0;
        let mut storage = 0;
        let mut lodging = 0;
        for k in 1..chain.indices.len() {
            let node = chain.indices[k];
            cost += region.costs[node];
            if chain.states[k] == 1 {
                storage += region.warehouse_counts[node];
            }
            if chain.states[k] == 2 {
                lodging += region.worker_counts[node];
            }
            let parent = region.parents[node];
            assert!(chain.indices[..k].iter().any(|&p| region.children[p] == parent));
        }
        assert_eq!(chain.usage_counts.cost, cost);
        assert_eq!(chain.usage_counts.warehouse_count, storage);
        assert_eq!(chain.usage_counts.worker_count, lodging);
    }
    assert_eq!(all[all.len() - 1].indices, vec![0]);
}

#[test]
fn split_walk_gives_the_chains_of_the_whole_walk() {
    let region = RegionNodes::new(
        &map_of(vec![
            building(2, 1, 2, 5, 0),
            building(3, 1, 3, 0, 4),
            building(4, 2, 1, 0, 2),
            building(5, 2, 2, 3, 0),
            building(6, 3, 1, 0, 1),
            building(7, 6, 4, 8, 0),
        ]),
        1,
    )
    .unwrap();
    let one = enumerate_dominant(&region, 1);
    let eight = enumerate_dominant(&region, 8);
    assert_eq!(scores(&one), scores(&eight));
    assert!(one.len() > 4);
}
