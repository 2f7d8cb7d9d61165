use housecraft::chain::Chain;
use housecraft::houseinfo::{Building, BuildingMap};
use housecraft::optimize::{
    optimize_step, parent_position, storage_limit, SolveStatus, SolverFailure, SubsetModel,
    WorkerStep,
};
use housecraft::region_nodes::RegionNodes;

fn building(key: usize, need_key: usize, cost: usize, storage: usize, lodging: usize) -> Building {
    Building {
        key,
        need_key,
        node_key: 0,
        region_key: 0,
        building_name: String::new(),
        node_name: String::new(),
        region_name: String::new(),
        cost,
        worker_count: lodging,
        stable_count: 0,
        warehouse_count: storage,
        craft_list: vec![],
    }
}

fn region() -> RegionNodes {
    let mut map = BuildingMap::new();
    for b in vec![building(2, 1, 2, 5, 0), building(3, 1, 3, 0, 4), building(4, 2, 1, 0, 2)] {
        map.insert(b.key, b);
    }
    RegionNodes::new(&map, 1).unwrap()
}

#[test]
fn program_has_the_rows_of_the_region() {
    let region = region();
    assert_eq!(region.children, vec![1, 2, 4, 3]);
    assert_eq!(parent_position(&region, 1), 0);
    assert_eq!(parent_position(&region, 2), 1);
    assert_eq!(parent_position(&region, 3), 0);
    let mut model = SubsetModel::new(&region);
    assert_eq!(model.column_costs, vec![2, 0, 0, 1, 0, 0, 3, 0, 0]);
    assert_eq!(model.rows.len(), 6);
    // building 4 at index 2 is selected only with building 2 at index 1
    assert_eq!(model.rows[0].indices, vec![3, 0]);
    assert_eq!(model.rows[0].coefficients, vec![1, -1]);
    assert_eq!((model.rows[0].lower, model.rows[0].upper), (None, Some(0)));
    for i in 1..4 {
        let row = &model.rows[i];
        assert_eq!(row.indices, vec![3 * (i - 1) + 1, 3 * (i - 1) + 2, 3 * (i - 1)]);
        assert_eq!(row.coefficients, vec![1, 1, -1]);
        assert_eq!((row.lower, row.upper), (Some(0), Some(0)));
    }
    assert_eq!(model.rows[4].indices, vec![1]);
    assert_eq!(model.rows[4].coefficients, vec![5]);
    assert_eq!(model.rows[5].indices, vec![5, 8]);
    assert_eq!(model.rows[5].coefficients, vec![2, 4]);
    assert_eq!((model.rows[4].lower, model.rows[4].upper), (Some(0), None));
    model.set_lower_bounds(3, 4);
    assert_eq!(model.rows[4].lower, Some(3));
    assert_eq!(model.rows[5].lower, Some(4));
    assert_eq!(model.rows[3].lower, Some(0));
    assert_eq!(model.rows[5].indices, vec![5, 8]);
}

#[test]
fn solution_becomes_a_chain() {
    let region = region();
    // building 2 in storage mode, building 4 not selected, building 3 in lodging mode
    let chain = Chain::from_highs(&vec![1, 1, 0, 0, 0, 0, 1, 0, 1], &region);
    assert_eq!(chain.indices, vec![0, 1, 3]);
    assert_eq!(chain.states, vec![0, 1, 2]);
    assert_eq!(chain.usage_counts.cost, 5);
    assert_eq!(chain.usage_counts.warehouse_count, 5);
    assert_eq!(chain.usage_counts.worker_count, 4);
    let none = Chain::from_highs(&vec![0, 1, 0, 1, 0, 0, 0, 0, 1], &region);
    assert_eq!(none.indices, vec![0]);
    assert_eq!(none.usage_counts.cost, 0);
    // a solution that is cut short selects nothing behind its last whole building
    let short = Chain::from_highs(&vec![1, 0, 1, 1, 1], &region);
    assert_eq!(short.indices, vec![0, 1]);
    assert_eq!(short.states, vec![0, 2]);
    assert_eq!(short.usage_counts.worker_count, 0);
    assert_eq!(Chain::from_highs(&vec![], &region).indices, vec![0]);
}

#[test]
fn worker_asks_for_more_storage_after_each_solution() {
    let region = region();
    assert_eq!(storage_limit(&region, false), 5);
    assert_eq!(storage_limit(&region, true), 5);
    let mut chains: Vec<Chain> = vec![];
    let root_only = vec![0; 9];
    let step = optimize_step(&region, 5, 0, 2, SolveStatus::Optimal, &root_only, &mut chains);
    assert_eq!(step, Ok(WorkerStep::Solve(1)));
    assert_eq!(chains.len(), 1);
    let with_storage = vec![1, 1, 0, 0, 0, 0, 0, 0, 0];
    let step = optimize_step(&region, 5, 1, 2, SolveStatus::Optimal, &with_storage, &mut chains);
    assert_eq!(step, Ok(WorkerStep::Done));
    assert_eq!(chains.len(), 2);
    assert_eq!(chains[1].usage_counts.warehouse_count, 5);
    let step = optimize_step(&region, 5, 6, 2, SolveStatus::Infeasible, &vec![], &mut chains);
    assert_eq!(step, Ok(WorkerStep::Done));
    let step = optimize_step(&region, 5, 6, 2, SolveStatus::Failed, &vec![], &mut chains);
    assert_eq!(step, Err(SolverFailure { storage_lb: 6, lodging_lb: 2 }));
    assert_eq!(chains.len(), 2);
}
