use housecraft::chain::Chain;
use housecraft::chain_map::ChainMap;
use housecraft::houseinfo::{Building, BuildingMap, UsageCounters};
use housecraft::region_nodes::RegionNodes;

fn building(key: usize, need_key: usize, cost: usize, storage: usize, lodging: usize) -> Building {
    Building {
        key,
        need_key,
        node_key: 0,
        region_key: 0,
        building_name: String::new(),
        node_name: String::new(),
        region_name: String::new(),
        cost,
        worker_count: lodging,
        stable_count: 0,
        warehouse_count: storage,
        craft_list: vec![],
    }
}

fn small_region() -> RegionNodes {
    let mut map = BuildingMap::new();
    for b in vec![building(2, 1, 2, 5, 0), building(3, 1, 3, 0, 4), building(4, 2, 1, 0, 2)] {
        map.insert(b.key, b);
    }
    RegionNodes::new(&map, 1).unwrap()
}

fn chain_of(indices: Vec<usize>, states: Vec<usize>, cost: usize, storage: usize, lodging: usize) -> Chain {
    Chain {
        indices,
        states,
        usage_counts: UsageCounters { cost, warehouse_count: storage, worker_count: lodging },
    }
}

fn content(arena: &ChainMap) -> Vec<(Vec<usize>, Vec<usize>, usize, usize, usize)> {
    arena
        .stored_copies()
        .into_iter()
        .map(|c| {
            (
                c.indices,
                c.states,
                c.usage_counts.cost,
                c.usage_counts.warehouse_count,
                c.usage_counts.worker_count,
            )
        })
        .collect()
}

#[test]
fn new_arena_has_a_table_for_every_fingerprint() {
    let region = small_region();
    // storage 5, lodging 6: (6 + 1)^2 keys
    let arena = ChainMap::new(&region);
    assert_eq!(arena.cost.len(), 49);
    assert!(arena.cost.iter().all(|&c| c == usize::MAX));
    assert!(arena.stored_copies().is_empty());
}

#[test]
fn arena_keeps_the_cheapest_chain_of_a_fingerprint() {
    let region = small_region();
    let mut arena = ChainMap::new(&region);
    let dear = chain_of(vec![0, 1, 2], vec![0, 1, 2], 3, 5, 2);
    let cheap = chain_of(vec![0, 1], vec![0, 1], 2, 5, 2);
    let other = chain_of(vec![0, 3], vec![0, 2], 3, 0, 4);
    arena.insert_or_update(&dear);
    assert_eq!(content(&arena), vec![(vec![0, 1, 2], vec![0, 1, 2], 3, 5, 2)]);
    arena.insert_or_update(&other);
    arena.insert_or_update(&cheap);
    assert_eq!(
        content(&arena),
        vec![(vec![0, 1], vec![0, 1], 2, 5, 2), (vec![0, 3], vec![0, 2], 3, 0, 4)]
    );
    assert_eq!(arena.cost[dear.elegant_pair()], 2);
    assert_eq!(arena.cost[other.elegant_pair()], 3);
}

#[test]
fn offering_again_changes_nothing() {
    let region = small_region();
    let mut arena = ChainMap::new(&region);
    let first = chain_of(vec![0, 1], vec![0, 1], 2, 5, 0);
    let same_cost = chain_of(vec![0, 1, 2], vec![0, 1, 1], 2, 5, 0);
    let dearer = chain_of(vec![0, 1, 2], vec![0, 1, 1], 3, 5, 0);
    arena.insert_or_update(&first);
    let before = content(&arena);
    let table = arena.cost.clone();
    arena.insert_or_update(&first);
    arena.insert_or_update(&same_cost);
    arena.insert_or_update(&dearer);
    assert_eq!(content(&arena), before);
    assert_eq!(arena.cost, table);
}

#[test]
fn merge_keeps_the_same_chains_either_way() {
    let region = small_region();
    let a_chains = vec![
        chain_of(vec![0, 1], vec![0, 1], 2, 5, 0),
        chain_of(vec![0, 3], vec![0, 2], 3, 0, 4),
    ];
    let b_chains = vec![
        chain_of(vec![0, 1, 2], vec![0, 1, 1], 1, 5, 0),
        chain_of(vec![0, 1, 2], vec![0, 1, 2], 3, 5, 2),
        chain_of(vec![0, 3], vec![0, 2], 4, 0, 4),
    ];
    let fill = |chains: &Vec<Chain>| {
        let mut arena = ChainMap::new(&region);
        for chain in chains.iter() {
            arena.insert_or_update(chain);
        }
        arena
    };
    let mut ab = fill(&a_chains);
    ab.merge(&fill(&b_chains));
    let mut ba = fill(&b_chains);
    ba.merge(&fill(&a_chains));
    let mut left = content(&ab);
    let mut right = content(&ba);
    left.sort();
    right.sort();
    assert_eq!(left, right);
    assert_eq!(
        left,
        vec![
            (vec![0, 1, 2], vec![0, 1, 1], 1, 5, 0),
            (vec![0, 1, 2], vec![0, 1, 2], 3, 5, 2),
            (vec![0, 3], vec![0, 2], 3, 0, 4),
        ]
    );
    let flat = ChainMap::flatten_many_by_insert_update(vec![fill(&a_chains), fill(&b_chains)]);
    assert_eq!(content(&flat), content(&ab));
}

#[test]
fn dominance_filter_keeps_the_undominated_and_is_idempotent() {
    let mut chains = vec![
        chain_of(vec![0], vec![0], 0, 0, 0),
        chain_of(vec![0, 1], vec![0, 1], 2, 5, 0),
        chain_of(vec![0, 2], vec![0, 1], 3, 5, 0),
        chain_of(vec![0, 3], vec![0, 2], 3, 0, 4),
        chain_of(vec![0, 3], vec![0, 1], 3, 0, 0),
        chain_of(vec![0, 1, 3], vec![0, 1, 2], 5, 5, 4),
        chain_of(vec![0, 1, 2, 3], vec![0, 1, 2, 2], 5, 5, 4),
    ];
    ChainMap::retain_dominating(&mut chains);
    let once: Vec<Vec<usize>> = chains.iter().map(|c| c.indices.clone()).collect();
    assert_eq!(
        once,
        vec![vec![0], vec![0, 1], vec![0, 3], vec![0, 1, 3], vec![0, 1, 2, 3]]
    );
    ChainMap::retain_dominating(&mut chains);
    let twice: Vec<Vec<usize>> = chains.iter().map(|c| c.indices.clone()).collect();
    assert_eq!(twice, once);
}

#[test]
fn dominant_chains_come_sorted_by_lodging_then_storage() {
    let region = small_region();
    let mut arena = ChainMap::new(&region);
    for chain in vec![
        chain_of(vec![0, 3], vec![0, 2], 3, 0, 4),
        chain_of(vec![0, 1, 3], vec![0, 1, 2], 5, 5, 4),
        chain_of(vec![0, 1], vec![0, 1], 2, 5, 0),
        chain_of(vec![0, 1, 2], vec![0, 1, 2], 9, 5, 2),
        chain_of(vec![0], vec![0], 0, 0, 0),
    ] {
        arena.insert_or_update(&chain);
    }
    let chains = arena.retain_dominating_to_vec();
    let got: Vec<(usize, usize, usize)> = chains
        .iter()
        .map(|c| (c.usage_counts.worker_count, c.usage_counts.warehouse_count, c.usage_counts.cost))
        .collect();
    assert_eq!(got, vec![(0, 0, 0), (0, 5, 2), (4, 0, 3), (4, 5, 5)]);
}

#[test]
fn a_chain_dominates_what_is_no_better_and_not_equal() {
    let a = chain_of(vec![0], vec![0], 2, 5, 4);
    assert!(a.dominates(&chain_of(vec![0], vec![0], 2, 5, 3)));
    assert!(a.dominates(&chain_of(vec![0], vec![0], 3, 5, 4)));
    assert!(a.dominates(&chain_of(vec![0], vec![0], 2, 4, 4)));
    assert!(!a.dominates(&chain_of(vec![0], vec![0], 2, 5, 4)));
    assert!(!a.dominates(&chain_of(vec![0], vec![0], 1, 5, 4)));
    assert!(!a.dominates(&chain_of(vec![0], vec![0], 2, 6, 0)));
    assert!(!a.dominates(&chain_of(vec![0], vec![0], 9, 0, 5)));
}
