//! The totals of a region: what all its buildings cost and give.

use crate::building_nodes::nodes_of;
use crate::houseinfo::BuildingMap;
use crate::region_build::{lemma_nodes_total, sum_nodes, total};
use vstd::prelude::*;

verus! {

/// Cost, storage and lodging of all the buildings of a region, or of all
/// regions.
#[derive(Clone, Copy, Debug)]
pub struct Stats {
    pub cost: usize,
    pub warehouse_count: usize,
    pub worker_count: usize,
}

impl Stats {
    /// The totals of no building.
    pub fn new() -> (stats: Self)
        ensures
            stats.cost == 0,
            stats.warehouse_count == 0,
            stats.worker_count == 0,
    {
        Self { cost: 0, warehouse_count: 0, worker_count: 0 }
    }

    /// The sum of two totals; nothing where it is beyond the numbers of the
    /// machine.
    pub fn plus(&self, other: &Stats) -> (sum: Option<Stats>)
        ensures
            sum is Some <==> self.cost + other.cost <= usize::MAX && self.warehouse_count
                + other.warehouse_count <= usize::MAX && self.worker_count + other.worker_count
                <= usize::MAX,
            sum matches Some(stats) ==> stats.cost == self.cost + other.cost
                && stats.warehouse_count == self.warehouse_count + other.warehouse_count
                && stats.worker_count == self.worker_count + other.worker_count,
    {
        match (
            self.cost.checked_add(other.cost),
            self.warehouse_count.checked_add(other.warehouse_count),
            self.worker_count.checked_add(other.worker_count),
        ) {
            (Some(cost), Some(warehouse_count), Some(worker_count)) => Some(
                Stats { cost, warehouse_count, worker_count },
            ),
            _ => None,
        }
    }
}

/// The totals of the buildings of one region; nothing where one of them is
/// beyond the numbers of the machine.
pub fn summarize_region(buildings: &BuildingMap) -> (stats: Option<Stats>)
    ensures
        stats is Some <==> total(buildings@, 0) <= usize::MAX && total(buildings@, 1)
            <= usize::MAX && total(buildings@, 2) <= usize::MAX,
        stats matches Some(stats) ==> stats.cost == total(buildings@, 0)
            && stats.warehouse_count == total(buildings@, 1) && stats.worker_count == total(
            buildings@,
            2,
        ),
{
    let nodes = nodes_of(buildings);
    proof {
        lemma_nodes_total(nodes@, buildings@, 0);
        lemma_nodes_total(nodes@, buildings@, 1);
        lemma_nodes_total(nodes@, buildings@, 2);
    }
    match (sum_nodes(&nodes, 0), sum_nodes(&nodes, 1), sum_nodes(&nodes, 2)) {
        (Some(cost), Some(warehouse_count), Some(worker_count)) => Some(
            Stats { cost, warehouse_count, worker_count },
        ),
        _ => None,
    }
}

} // verus!
