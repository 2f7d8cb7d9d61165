use housecraft::chain::Chain;
use housecraft::houseinfo::UsageCounters;

fn chain_of(lodging: usize, storage: usize) -> Chain {
    Chain {
        indices: vec![0],
        states: vec![0],
        usage_counts: UsageCounters { cost: 0, warehouse_count: storage, worker_count: lodging },
    }
}

#[test]
fn fingerprint_of_small_pairs() {
    assert_eq!(chain_of(0, 0).elegant_pair(), 0);
    assert_eq!(chain_of(1, 0).elegant_pair(), 2);
    assert_eq!(chain_of(0, 1).elegant_pair(), 1);
    assert_eq!(chain_of(1, 1).elegant_pair(), 3);
    assert_eq!(chain_of(2, 3).elegant_pair(), 11);
    assert_eq!(chain_of(3, 2).elegant_pair(), 14);
}

#[test]
fn fingerprint_is_unique_up_to_200() {
    let mut seen = vec![false; 201 * 201];
    for x in 0..=200usize {
        for y in 0..=200usize {
            let key = chain_of(x, y).elegant_pair();
            assert!(key < 201 * 201);
            assert!(!seen[key]);
            seen[key] = true;
        }
    }
}
