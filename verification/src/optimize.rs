//! The integer program of a region: select buildings, and a mode for each,
//! at the least cost that gives a wanted storage and lodging.
//!
//! The library describes the program and reads its solutions; solving it is
//! left to a solver.

use crate::chain::{
    ascends_below, counters_of, lemma_stack_cost_bound, lemma_stack_mode_sum_bound, stack_cost,
    stack_mode_sum, Chain,
};
use crate::houseinfo::UsageCounters;
use crate::region_nodes::{lemma_sum_upto_monotonic, sum_upto, RegionNodes};
use vstd::prelude::*;

verus! {

/// One constraint of the program: the sum of the columns at `indices`, each
/// times its coefficient, lies between `lower` and `upper`; a bound that is
/// `None` is absent.
#[derive(Debug)]
pub struct Row {
    pub lower: Option<i64>,
    pub upper: Option<i64>,
    pub indices: Vec<usize>,
    pub coefficients: Vec<i64>,
}

/// A constraint as plain values.
pub struct RowView {
    pub lower: Option<i64>,
    pub upper: Option<i64>,
    pub indices: Seq<usize>,
    pub coefficients: Seq<i64>,
}

impl View for Row {
    type V = RowView;

    open spec fn view(&self) -> RowView {
        RowView {
            lower: self.lower,
            upper: self.upper,
            indices: self.indices@,
            coefficients: self.coefficients@,
        }
    }
}

/// The program of a region.
///
/// Every building `i` has three columns that take the values 0 and 1: at
/// `3 * (i - 1)` whether it is selected, behind it whether it is in storage
/// mode and whether it is in lodging mode. `column_costs` is the cost of each
/// column, which is to be minimised. The last two rows bound the storage and
/// the lodging from below.
#[derive(Debug)]
pub struct SubsetModel {
    pub column_costs: Vec<usize>,
    pub rows: Vec<Row>,
}

/// The column that says whether building `i` is selected.
pub open spec fn item_column(i: int) -> int {
    3 * (i - 1)
}

/// The column that says whether building `i` is in storage mode.
pub open spec fn storage_column(i: int) -> int {
    3 * (i - 1) + 1
}

/// The column that says whether building `i` is in lodging mode.
pub open spec fn lodging_column(i: int) -> int {
    3 * (i - 1) + 2
}

/// Building `i` is selected only with its parent.
pub open spec fn requirement_row(region: &RegionNodes, i: int) -> RowView {
    RowView {
        lower: None,
        upper: Some(0i64),
        indices: seq![
            item_column(i) as usize,
            item_column(region.parent_index(i)) as usize,
        ],
        coefficients: seq![1i64, -1i64],
    }
}

/// Building `i` is in one mode where it is selected, and in none where it
/// is not.
pub open spec fn selection_row(i: int) -> RowView {
    RowView {
        lower: Some(0i64),
        upper: Some(0i64),
        indices: seq![
            storage_column(i) as usize,
            lodging_column(i) as usize,
            item_column(i) as usize,
        ],
        coefficients: seq![1i64, 1i64, -1i64],
    }
}

/// The requirement rows of the buildings `1 .. count` whose parent is not
/// the root, which is always selected.
pub open spec fn requirement_rows(region: &RegionNodes, count: int) -> Seq<RowView>
    decreases count,
{
    if count <= 1 {
        Seq::empty()
    } else if region.parent_index(count - 1) != 0 {
        requirement_rows(region, count - 1).push(requirement_row(region, count - 1))
    } else {
        requirement_rows(region, count - 1)
    }
}

/// The selection rows of the buildings `1 .. count`.
pub open spec fn selection_rows(count: int) -> Seq<RowView>
    decreases count,
{
    if count <= 1 {
        Seq::empty()
    } else {
        selection_rows(count - 1).push(selection_row(count - 1))
    }
}

/// The columns of a sum row over the buildings `1 .. count`: the mode column
/// of every building that has something to give in that mode.
pub open spec fn sum_indices(values: Seq<usize>, offset: int, count: int) -> Seq<usize>
    decreases count,
{
    if count <= 1 {
        Seq::empty()
    } else if values[count - 1] > 0 {
        sum_indices(values, offset, count - 1).push((item_column(count - 1) + offset) as usize)
    } else {
        sum_indices(values, offset, count - 1)
    }
}

/// The coefficients of a sum row over the buildings `1 .. count`: what each
/// building gives that has something to give.
pub open spec fn sum_coefficients(values: Seq<usize>, count: int) -> Seq<i64>
    decreases count,
{
    if count <= 1 {
        Seq::empty()
    } else if values[count - 1] > 0 {
        sum_coefficients(values, count - 1).push(values[count - 1] as i64)
    } else {
        sum_coefficients(values, count - 1)
    }
}

/// What the buildings give in one mode is at least `lower`.
pub open spec fn sum_row(values: Seq<usize>, offset: int, count: int, lower: i64) -> RowView {
    RowView {
        lower: Some(lower),
        upper: None,
        indices: sum_indices(values, offset, count),
        coefficients: sum_coefficients(values, count),
    }
}

/// The rows of the program of a region, with the storage and the lodging
/// bounded from below.
pub open spec fn model_rows(region: &RegionNodes, storage: i64, lodging: i64) -> Seq<RowView> {
    let count = region.num_nodes as int;
    (requirement_rows(region, count) + selection_rows(count)).push(
        sum_row(region.warehouse_counts@, 1, count, storage),
    ).push(sum_row(region.worker_counts@, 2, count, lodging))
}

/// The costs of the columns of the buildings `1 .. count`.
pub open spec fn model_costs(region: &RegionNodes, count: int) -> Seq<usize>
    decreases count,
{
    if count <= 1 {
        Seq::empty()
    } else {
        model_costs(region, count - 1).push(region.costs[count - 1]).push(0).push(0)
    }
}

/// The rows as plain values.
pub open spec fn row_views(rows: Seq<Row>) -> Seq<RowView> {
    rows.map_values(|row: Row| row@)
}

/// The index of the parent of node `i`.
pub fn parent_position(region: &RegionNodes, i: usize) -> (parent: usize)
    requires
        region.wf(),
        1 <= i < region.num_nodes,
    ensures
        parent == region.parent_index(i as int),
{
    let wanted = region.parents[i];
    let ghost target = region.parent_index(i as int);
    let mut p: usize = 0;
    while p < i && region.children[p] != wanted
        invariant
            region.wf(),
            1 <= i < region.num_nodes,
            p <= target,
            target == region.parent_index(i as int),
            wanted == region.parents[i as int],
        decreases i - p,
    {
        p += 1;
    }
    p
}

/// No entry is more than the sum of all.
proof fn lemma_entry_within_sum(values: Seq<usize>, i: int, count: int)
    requires
        0 <= i < count,
    ensures
        values[i] <= sum_upto(values, count),
    decreases count,
{
    lemma_sum_upto_monotonic(values, i, count - 1);
    if i < count - 1 {
        lemma_entry_within_sum(values, i, count - 1);
    }
}

impl SubsetModel {
    /// A row over the mode columns of the buildings that give something in
    /// that mode.
    fn build_sum_row(region: &RegionNodes, storage: bool) -> (row: Row)
        requires
            region.wf(),
            3 * region.num_nodes <= usize::MAX,
        ensures
            row@ == sum_row(
                if storage {
                    region.warehouse_counts@
                } else {
                    region.worker_counts@
                },
                if storage {
                    1
                } else {
                    2
                },
                region.num_nodes as int,
                0,
            ),
    {
        let mut indices: Vec<usize> = Vec::new();
        let mut coefficients: Vec<i64> = Vec::new();
        let ghost values = if storage {
            region.warehouse_counts@
        } else {
            region.worker_counts@
        };
        let ghost offset: int = if storage {
            1
        } else {
            2
        };
        let mut i: usize = 1;
        while i < region.num_nodes
            invariant
                region.wf(),
                3 * region.num_nodes <= usize::MAX,
                1 <= i <= region.num_nodes,
                values == if storage {
                    region.warehouse_counts@
                } else {
                    region.worker_counts@
                },
                offset == if storage {
                    1int
                } else {
                    2int
                },
                indices@ == sum_indices(values, offset, i as int),
                coefficients@ == sum_coefficients(values, i as int),
            decreases region.num_nodes - i,
        {
            let value = if storage {
                region.warehouse_counts[i]
            } else {
                region.worker_counts[i]
            };
            if value > 0 {
                proof {
                    lemma_entry_within_sum(values, i as int, region.num_nodes as int);
                    let bound = region.capacity_bound();
                    assert(bound <= (bound + 1) * (bound + 1) * 256) by (nonlinear_arith)
                        requires
                            bound >= 0,
                    ;
                }
                indices.push(3 * (i - 1) + if storage { 1 } else { 2 });
                coefficients.push(value as i64);
            }
            i += 1;
        }
        Row { lower: Some(0), upper: None, indices, coefficients }
    }

    /// The program of the region, with no storage and no lodging asked for.
    pub fn new(region: &RegionNodes) -> (model: Self)
        requires
            region.wf(),
            3 * region.num_nodes <= usize::MAX,
        ensures
            model.column_costs@ == model_costs(region, region.num_nodes as int),
            row_views(model.rows@) == model_rows(region, 0, 0),
            model.rows.len() >= 2,
    {
        let count = region.num_nodes;
        let mut column_costs: Vec<usize> = Vec::new();
        let mut rows: Vec<Row> = Vec::new();
        let mut i: usize = 1;
        while i < count
            invariant
                region.wf(),
                count == region.num_nodes,
                3 * count <= usize::MAX,
                1 <= i <= count,
                column_costs@ == model_costs(region, i as int),
                row_views(rows@) == requirement_rows(region, i as int),
            decreases count - i,
        {
            column_costs.push(region.costs[i]);
            column_costs.push(0);
            column_costs.push(0);
            let parent = parent_position(region, i);
            if parent != 0 {
                let ghost before = rows@;
                let mut indices: Vec<usize> = Vec::new();
                indices.push(3 * (i - 1));
                indices.push(3 * (parent - 1));
                let mut coefficients: Vec<i64> = Vec::new();
                coefficients.push(1);
                coefficients.push(-1);
                rows.push(Row { lower: None, upper: Some(0), indices, coefficients });
                proof {
                    assert(rows@.last()@.indices =~= requirement_row(region, i as int).indices);
                    assert(rows@.last()@.coefficients =~= requirement_row(
                        region,
                        i as int,
                    ).coefficients);
                    assert(row_views(rows@) =~= row_views(before).push(
                        requirement_row(region, i as int),
                    ));
                }
            }
            i += 1;
        }
        let mut i: usize = 1;
        while i < count
            invariant
                count == region.num_nodes,
                3 * count <= usize::MAX,
                1 <= i <= count,
                row_views(rows@) == requirement_rows(region, count as int) + selection_rows(
                    i as int,
                ),
            decreases count - i,
        {
            let ghost before = rows@;
            let mut indices: Vec<usize> = Vec::new();
            indices.push(3 * (i - 1) + 1);
            indices.push(3 * (i - 1) + 2);
            indices.push(3 * (i - 1));
            let mut coefficients: Vec<i64> = Vec::new();
            coefficients.push(1);
            coefficients.push(1);
            coefficients.push(-1);
            rows.push(Row { lower: Some(0), upper: Some(0), indices, coefficients });
            proof {
                assert(rows@.last()@.indices =~= selection_row(i as int).indices);
                assert(rows@.last()@.coefficients =~= selection_row(i as int).coefficients);
                assert(row_views(rows@) =~= row_views(before).push(selection_row(i as int)));
                assert(row_views(rows@) =~= requirement_rows(region, count as int)
                    + selection_rows(i + 1));
            }
            i += 1;
        }
        let ghost before = rows@;
        let storage_row = Self::build_sum_row(region, true);
        let lodging_row = Self::build_sum_row(region, false);
        rows.push(storage_row);
        rows.push(lodging_row);
        proof {
            assert(row_views(rows@) =~= row_views(before).push(storage_row@).push(lodging_row@));
        }
        SubsetModel { column_costs, rows }
    }

    /// Asks for at least `storage` storage and `lodging` lodging: the lower
    /// bounds of the last two rows.
    pub fn set_lower_bounds(&mut self, storage: i64, lodging: i64)
        requires
            old(self).rows.len() >= 2,
        ensures
            final(self).column_costs@ == old(self).column_costs@,
            final(self).rows.len() == old(self).rows.len(),
            forall|r: int|
                0 <= r < final(self).rows.len() ==> (#[trigger] final(self).rows[r])@ == (RowView {
                    lower: if r == old(self).rows.len() - 2 {
                        Some(storage)
                    } else if r == old(self).rows.len() - 1 {
                        Some(lodging)
                    } else {
                        old(self).rows[r].lower
                    },
                    ..old(self).rows[r]@
                }),
    {
        let last = self.rows.len() - 1;
        self.rows[last - 1].lower = Some(storage);
        self.rows[last].lower = Some(lodging);
    }
}

/// The mode that a solution gives building `i`: storage (1), lodging (2),
/// or none (0) where the building is not selected, or the solution has no
/// columns for it.
pub open spec fn solution_mode(columns: Seq<u32>, i: int) -> usize {
    if lodging_column(i) >= columns.len() {
        0
    } else if columns[item_column(i)] != 1 {
        0
    } else if columns[storage_column(i)] == 1 {
        1
    } else if columns[lodging_column(i)] == 1 {
        2
    } else {
        0
    }
}

/// The buildings among `1 .. count` that a solution gives a mode, in
/// ascending order.
pub open spec fn solution_indices(columns: Seq<u32>, count: int) -> Seq<usize>
    decreases count,
{
    if count <= 1 {
        Seq::empty()
    } else if solution_mode(columns, count - 1) != 0 {
        solution_indices(columns, count - 1).push((count - 1) as usize)
    } else {
        solution_indices(columns, count - 1)
    }
}

/// The modes of the buildings among `1 .. count` that a solution gives a
/// mode, in ascending order of the buildings.
pub open spec fn solution_states(columns: Seq<u32>, count: int) -> Seq<usize>
    decreases count,
{
    if count <= 1 {
        Seq::empty()
    } else if solution_mode(columns, count - 1) != 0 {
        solution_states(columns, count - 1).push(solution_mode(columns, count - 1))
    } else {
        solution_states(columns, count - 1)
    }
}

impl Chain {
    /// The chain that a solution of the program describes: the root, and
    /// every building that the solution selects in one of the modes.
    pub fn from_highs(col_values: &Vec<u32>, region: &RegionNodes) -> (chain: Chain)
        requires
            region.wf(),
        ensures
            chain.indices@ == seq![0usize] + solution_indices(
                col_values@,
                region.num_nodes as int,
            ),
            chain.states@ == seq![0usize] + solution_states(col_values@, region.num_nodes as int),
            chain.usage_counts == counters_of(region, chain.indices@, chain.states@),
            chain.counted(region),
    {
        let mut chain = Chain {
            indices: Vec::new(),
            states: Vec::new(),
            usage_counts: UsageCounters::new(),
        };
        chain.indices.push(0);
        chain.states.push(0);
        proof {
            assert(chain.indices@.drop_last() =~= Seq::<usize>::empty());
            assert(chain.states@.drop_last() =~= Seq::<usize>::empty());
            reveal_with_fuel(stack_cost, 2);
            reveal_with_fuel(stack_mode_sum, 2);
            assert(chain.indices@ =~= seq![0usize] + solution_indices(col_values@, 1));
            assert(chain.states@ =~= seq![0usize] + solution_states(col_values@, 1));
        }
        let mut i: usize = 1;
        while i < region.num_nodes
            invariant
                region.wf(),
                1 <= i <= region.num_nodes,
                chain.indices@ == seq![0usize] + solution_indices(col_values@, i as int),
                chain.states@ == seq![0usize] + solution_states(col_values@, i as int),
                chain.indices.len() == chain.states.len(),
                ascends_below(chain.indices@, i as int),
                chain.counted(region),
            decreases region.num_nodes - i,
        {
            let state: usize = match (i - 1).checked_mul(3) {
                Some(at) => if at >= col_values.len() || col_values.len() - at <= 2 {
                    0
                } else if col_values[at] != 1 {
                    0
                } else if col_values[at + 1] == 1 {
                    1
                } else if col_values[at + 2] == 1 {
                    2
                } else {
                    0
                },
                None => 0,
            };
            assert(col_values@.len() == col_values.len());
            assert(state == solution_mode(col_values@, i as int));
            if state != 0 {
                let ghost before = chain;
                proof {
                    let n = region.num_nodes as int;
                    let indices = before.indices@.push(i);
                    let states = before.states@.push(state);
                    assert(indices.drop_last() =~= before.indices@);
                    assert(states.drop_last() =~= before.states@);
                    assert(ascends_below(indices, n));
                    lemma_stack_cost_bound(region.costs@, indices, n);
                    lemma_stack_mode_sum_bound(region.warehouse_counts@, indices, states, 1, n);
                    lemma_stack_mode_sum_bound(region.worker_counts@, indices, states, 2, n);
                }
                chain.indices.push(i);
                chain.states.push(state);
                chain.usage_counts.cost += region.costs[i];
                if state == 1 {
                    chain.usage_counts.warehouse_count += region.warehouse_counts[i];
                } else {
                    chain.usage_counts.worker_count += region.worker_counts[i];
                }
                proof {
                    assert(chain.indices@.drop_last() =~= before.indices@);
                    assert(chain.states@.drop_last() =~= before.states@);
                    assert(chain.indices@ =~= seq![0usize] + solution_indices(col_values@, i + 1));
                    assert(chain.states@ =~= seq![0usize] + solution_states(col_values@, i + 1));
                }
            } else {
                proof {
                    assert(chain.indices@ =~= seq![0usize] + solution_indices(col_values@, i + 1));
                    assert(chain.states@ =~= seq![0usize] + solution_states(col_values@, i + 1));
                }
            }
            i += 1;
        }
        chain
    }
}

/// How the solver left the program.
#[derive(Clone, Copy, Debug, PartialEq, Eq, Structural)]
pub enum SolveStatus {
    /// A cheapest selection was found.
    Optimal,
    /// No selection gives what was asked for.
    Infeasible,
    /// Anything else.
    Failed,
}

/// The solver failed on the program with these lower bounds.
#[derive(Clone, Copy, Debug, PartialEq, Eq, Structural)]
pub struct SolverFailure {
    pub storage_lb: usize,
    pub lodging_lb: usize,
}

/// What a worker does next.
#[derive(Clone, Copy, Debug, PartialEq, Eq, Structural)]
pub enum WorkerStep {
    /// Solve the program for at least this much storage.
    Solve(usize),
    /// Nothing: the worker is done.
    Done,
}

/// The storage up to which chains are looked for: all that the region can
/// give, or no more than 172 slots where the storage is limited.
pub fn storage_limit(region: &RegionNodes, limit_warehouse: bool) -> (limit: usize)
    ensures
        limit == if limit_warehouse && region.max_warehouse_count > 172 {
            172
        } else {
            region.max_warehouse_count
        },
{
    if limit_warehouse && region.max_warehouse_count > 172 {
        172
    } else {
        region.max_warehouse_count
    }
}

/// What a worker does after a solve for at least `storage_lb` storage and
/// `lodging_lb` lodging.
///
/// A solution is kept as a chain, and the next solve asks for more storage
/// than that chain gives, for as long as that is within `limit`. The worker
/// is done when nothing gives what was asked for. Any other end of the solve
/// is a failure.
pub fn optimize_step(
    region: &RegionNodes,
    limit: usize,
    storage_lb: usize,
    lodging_lb: usize,
    status: SolveStatus,
    col_values: &Vec<u32>,
    chains: &mut Vec<Chain>,
) -> (step: Result<WorkerStep, SolverFailure>)
    requires
        region.wf(),
    ensures
        status == SolveStatus::Failed ==> step == Err::<WorkerStep, SolverFailure>(
            SolverFailure { storage_lb, lodging_lb },
        ) && final(chains)@ == old(chains)@,
        status == SolveStatus::Infeasible ==> step == Ok::<WorkerStep, SolverFailure>(
            WorkerStep::Done,
        ) && final(chains)@ == old(chains)@,
        status == SolveStatus::Optimal ==> {
            let found = final(chains)@.last();
            &&& final(chains)@.len() == old(chains)@.len() + 1
            &&& final(chains)@.drop_last() == old(chains)@
            &&& found.indices@ == seq![0usize] + solution_indices(
                col_values@,
                region.num_nodes as int,
            )
            &&& found.states@ == seq![0usize] + solution_states(
                col_values@,
                region.num_nodes as int,
            )
            &&& found.counted(region)
            &&& step == Ok::<WorkerStep, SolverFailure>(
                if found.usage_counts.warehouse_count < limit {
                    WorkerStep::Solve((found.usage_counts.warehouse_count + 1) as usize)
                } else {
                    WorkerStep::Done
                },
            )
        },
{
    match status {
        SolveStatus::Failed => Err(SolverFailure { storage_lb, lodging_lb }),
        SolveStatus::Infeasible => Ok(WorkerStep::Done),
        SolveStatus::Optimal => {
            let chain = Chain::from_highs(col_values, region);
            let storage = chain.usage_counts.warehouse_count;
            let ghost before = chains@;
            chains.push(chain);
            proof {
                assert(chains@.drop_last() =~= before);
            }
            if storage < limit {
                Ok(WorkerStep::Solve(storage + 1))
            } else {
                Ok(WorkerStep::Done)
            }
        },
    }
}

} // verus!
