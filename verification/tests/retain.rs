use housecraft::chain::Chain;
use housecraft::houseinfo::UsageCounters;
use housecraft::list_buildings::filter_by_storage_and_lodging;
use housecraft::retain_traits::{EnumeratedRetain, SplitLastRetain};

fn chain_of(cost: usize, storage: usize, lodging: usize) -> Chain {
    Chain {
        indices: vec![0],
        states: vec![0],
        usage_counts: UsageCounters { cost, warehouse_count: storage, worker_count: lodging },
    }
}

fn scores(chains: &Vec<Chain>) -> Vec<(usize, usize, usize)> {
    chains
        .iter()
        .map(|c| (c.usage_counts.cost, c.usage_counts.warehouse_count, c.usage_counts.worker_count))
        .collect()
}

#[test]
fn retain_enumerate_sees_the_index() {
    let mut v = vec![10, 11, 12, 13, 14, 15];
    v.retain_enumerate(|i, x| i % 2 == 0 || *x == 15);
    assert_eq!(v, vec![10, 12, 14, 15]);
    let mut all = vec![1, 2, 3];
    all.retain_enumerate(|_, _| true);
    assert_eq!(all, vec![1, 2, 3]);
    let mut none = vec![1, 2, 3];
    none.retain_enumerate(|_, _| false);
    assert_eq!(none, Vec::<i32>::new());
    let mut empty: Vec<i32> = vec![];
    empty.retain_enumerate(|_, _| true);
    assert!(empty.is_empty());
}

#[test]
fn retain_split_last_sees_what_stands_behind() {
    // keep the entries that no later entry exceeds
    let mut v = vec![3, 9, 4, 7, 7, 1];
    v.retain_split_last(|x, rest| rest.iter().all(|y| y <= x));
    assert_eq!(v, vec![9, 7, 7, 1]);
    let mut w = vec![1, 2, 3];
    w.retain_split_last(|_, rest| rest.len() != 1);
    assert_eq!(w, vec![1, 3]);
}

#[test]
fn listing_keeps_the_cheapest_chains_that_give_enough() {
    let all = || {
        vec![
            chain_of(0, 0, 0),
            chain_of(4, 8, 2),
            chain_of(3, 8, 1),
            chain_of(5, 9, 2),
            chain_of(4, 3, 6),
            chain_of(9, 12, 6),
        ]
    };
    let mut chains = all();
    filter_by_storage_and_lodging(&mut chains, None, None);
    assert_eq!(scores(&chains), scores(&all()));
    let mut chains = all();
    filter_by_storage_and_lodging(&mut chains, Some(8), None);
    assert_eq!(scores(&chains), vec![(3, 8, 1)]);
    let mut chains = all();
    filter_by_storage_and_lodging(&mut chains, Some(8), Some(2));
    assert_eq!(scores(&chains), vec![(4, 8, 2)]);
    let mut chains = all();
    filter_by_storage_and_lodging(&mut chains, None, Some(2));
    assert_eq!(scores(&chains), vec![(4, 8, 2), (4, 3, 6)]);
    let mut chains = all();
    filter_by_storage_and_lodging(&mut chains, Some(13), Some(0));
    assert!(chains.is_empty());
}
