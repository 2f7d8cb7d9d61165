use housecraft::chain::Chain;
use housecraft::generate::{
    generate_all, generate_dominating, generate_dominating_jobs, generate_dominating_par_worker,
};
use housecraft::houseinfo::{Building, BuildingMap};
use housecraft::job_control::JobControl;
use housecraft::region_nodes::RegionNodes;
use housecraft::subtree_counts::{count_subtrees, count_subtrees_multistate};

fn building(key: usize, need_key: usize, cost: usize, storage: usize, lodging: usize) -> Building {
    Building {
        key,
        need_key,
        node_key: 0,
        region_key: 0,
        building_name: String::new(),
        node_name: String::new(),
        region_name: String::new(),
        cost,
        worker_count: lodging,
        stable_count: 0,
        warehouse_count: storage,
        craft_list: vec![],
    }
}

fn region_of(buildings: Vec<Building>) -> RegionNodes {
    let mut map = BuildingMap::new();
    for b in buildings {
        map.insert(b.key, b);
    }
    RegionNodes::new(&map, 1).unwrap()
}

fn wide_region() -> RegionNodes {
    region_of(vec![
        building(2, 1, 2, 5, 0),
        building(3, 1, 3, 0, 4),
        building(4, 2, 1, 0, 2),
        building(5, 2, 2, 3, 0),
        building(6, 3, 1, 0, 1),
        building(7, 6, 4, 8, 0),
    ])
}

fn stacks(chains: &Vec<Chain>) -> Vec<(Vec<usize>, Vec<usize>)> {
    chains.iter().map(|c| (c.indices.clone(), c.states.clone())).collect()
}

#[test]
fn counts_follow_the_recurrence() {
    // root 1; 2 with the leaves 4 (lodging) and 5 (storage); 3 with 6 with 7
    let region = wide_region();
    assert_eq!(region.children, vec![1, 2, 4, 5, 3, 6, 7]);
    assert_eq!(region.states, vec![0, 1, 2, 1, 2, 2, 1]);
    // c(4) = 3, c(5) = 2, c(2) = 1 + 1 * 6 = 7; c(7) = 2, c(6) = 1 + 2 * 2 = 5, c(3) = 1 + 2 * 5 = 11
    assert_eq!(count_subtrees_multistate(&region), Some(77));
    // without modes: c(2) = 1 + 4 = 5, c(3) = 1 + 3 = 4
    assert_eq!(count_subtrees(&region), Some(20));
    assert_eq!(generate_all(&region).len(), 77);
    let single = region_of(vec![]);
    assert_eq!(count_subtrees_multistate(&single), Some(1));
    assert_eq!(count_subtrees(&single), Some(1));
}

#[test]
fn prefixes_fit_the_number_of_jobs() {
    let region = wide_region();
    // the window of two nodes has the chains [0, 1] and [0]; three nodes give four, and so on
    let two = JobControl::prefixes_for(&region, 2);
    assert_eq!(stacks(&two), vec![(vec![0, 1], vec![0, 1]), (vec![0], vec![0])]);
    let three = JobControl::prefixes_for(&region, 3);
    assert_eq!(stacks(&three), stacks(&two));
    let four = JobControl::prefixes_for(&region, 4);
    assert_eq!(four.len(), 4);
    assert_eq!(four[0].indices, vec![0, 1, 2]);
    let none = JobControl::prefixes_for(&region, 0);
    assert_eq!(stacks(&none), vec![(vec![0], vec![0])]);
    let one = JobControl::prefixes_for(&region, 1);
    assert_eq!(stacks(&one), vec![(vec![0], vec![0])]);
}

#[test]
fn first_job_stops_at_the_window() {
    let region = wide_region();
    let jobs = JobControl::many_for(&region, 4);
    assert_eq!(jobs.len(), 4);
    // the largest prefix leaves nothing out
    assert_eq!(jobs[0].stop_value, 3);
    assert_eq!(jobs[0].stop_index, 3);
    assert_eq!(jobs[0].chain.indices, vec![0, 1, 2, 3, 4, 5, 6]);
    assert_eq!(jobs[0].job_id, 0);
    // [0, 1, 2] with 2 in storage mode
    assert_eq!(jobs[1].chain.states[..3], [0, 1, 1]);
    assert_eq!(jobs[1].stop_value, 3);
    // [0, 1]: node 2 is left out, which ends at 3
    assert_eq!(jobs[2].chain.indices, vec![0, 1, 3, 4, 5, 6]);
    assert_eq!(jobs[2].stop_index, 2);
    assert_eq!(jobs[2].stop_value, 3);
    // [0]: node 1 is left out, whose subtree ends at 4
    assert_eq!(jobs[3].chain.indices, vec![0, 4, 5, 6]);
    assert_eq!(jobs[3].stop_index, 1);
    assert_eq!(jobs[3].stop_value, 4);
    assert_eq!(jobs[3].stop_state, 2);
    assert_eq!(jobs[3].chain.usage_counts.cost, 8);
    assert_eq!(jobs[3].chain.usage_counts.warehouse_count, 8);
    assert_eq!(jobs[3].chain.usage_counts.worker_count, 5);
}

#[test]
fn stop_value_is_behind_every_subtree_left_out() {
    let region = wide_region();
    assert_eq!(JobControl::stop_value(&region, &vec![], 3), 3);
    assert_eq!(JobControl::stop_value(&region, &vec![2], 3), 3);
    assert_eq!(JobControl::stop_value(&region, &vec![1, 2], 3), 4);
    assert_eq!(JobControl::stop_value(&region, &vec![4], 2), 7);
    let chain = Chain::new(&region);
    assert_eq!(chain.indices_difference_from_set(&vec![0, 1, 2]), Vec::<usize>::new());
    let jobs = JobControl::many_for(&region, 4);
    assert_eq!(jobs[3].chain.indices_difference_from_set(&vec![0, 1, 2, 3, 4]), vec![1, 2, 3]);
}

#[test]
fn jobs_share_no_chain_and_leave_none_out() {
    let region = wide_region();
    for num_jobs in 0..9 {
        let jobs = JobControl::many_for(&region, num_jobs);
        assert!(num_jobs == 0 || jobs.len() <= num_jobs);
        let mut visited: Vec<(Vec<usize>, Vec<usize>)> = vec![];
        for job in jobs.iter() {
            let mut chain = Chain::new_par(&region, job);
            assert_eq!(chain.usage_counts.cost, job.chain.usage_counts.cost);
            while chain.indices.len() > job.stop_index
                && chain.indices[job.stop_index] >= job.stop_value
            {
                visited.push((chain.indices.clone(), chain.states.clone()));
                chain.next_state(&region);
            }
            visited.push((chain.indices.clone(), chain.states.clone()));
        }
        let mut all = stacks(&generate_all(&region));
        visited.sort();
        all.sort();
        assert_eq!(visited, all);
    }
}

#[test]
fn arena_of_the_jobs_is_the_arena_of_the_walk() {
    let region = wide_region();
    let whole = generate_dominating(&region);
    let jobs = JobControl::many_for(&region, 4);
    let worker = generate_dominating_par_worker(&region, &jobs[3]);
    assert!(worker.stored_copies().len() > 1);
    let merged = generate_dominating_jobs(&region, &jobs);
    assert_eq!(whole.cost, merged.cost);
    let by_request = JobControl::many_from_region(&region, Some(4));
    assert!(by_request.len() >= 1 && by_request.len() <= 4);
    assert_eq!(JobControl::job_count(Some(4), 16), 4);
    assert_eq!(JobControl::job_count(Some(4), 2), 2);
    assert_eq!(JobControl::job_count(None, 12), 12);
    assert_eq!(JobControl::job_count(None, 300), 44);
}

#[test]
fn next_state_pops_jumps_and_pushes() {
    let region = wide_region();
    let mut chain = Chain::new(&region);
    assert_eq!(chain.indices, vec![0, 1, 2, 3, 4, 5, 6]);
    assert_eq!(chain.usage_counts.cost, 13);
    assert_eq!(chain.usage_counts.warehouse_count, 16);
    assert_eq!(chain.usage_counts.worker_count, 7);
    // node 6 is in storage mode: it is taken off
    chain.next_state(&region);
    assert_eq!(chain.indices, vec![0, 1, 2, 3, 4, 5]);
    assert_eq!(chain.usage_counts.warehouse_count, 8);
    // node 5 is in lodging mode: it is turned, and node 6 comes back
    chain.next_state(&region);
    assert_eq!(chain.indices, vec![0, 1, 2, 3, 4, 5, 6]);
    assert_eq!(chain.states, vec![0, 1, 2, 1, 2, 1, 1]);
    assert_eq!(chain.usage_counts.worker_count, 6);
    assert_eq!(chain.usage_counts.warehouse_count, 16);
    // the prefix of the region has the sums of its nodes
    let prefix = region.prefix(3);
    assert_eq!(prefix.jump_indices, vec![3, 3, 3]);
    assert_eq!(prefix.usage_counts.cost, 3);
    assert_eq!(prefix.max_warehouse_count, 5);
    assert_eq!(prefix.max_worker_count, 2);
}
