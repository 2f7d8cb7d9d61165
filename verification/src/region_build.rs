//! Building a region: from the buildings of the game data to the pre-order
//! layout of their tree.

use crate::building_nodes::{are_nodes_of, nodes_of, Node};
use crate::houseinfo::{Building, BuildingMap, UsageCounters};
use crate::node_manipulation::{
    arrange_by_traversal_pre_order, arrange_largest_subtrees, is_tree, reaches_root, rooted,
    Layout,
};
use crate::region_nodes::{initial_mode, sum_in_mode, sum_upto, table_len, RegionNodes};
use vstd::prelude::*;

verus! {

/// Why no region was built.
#[derive(Clone, Copy, Debug, PartialEq, Eq, Structural)]
pub enum BuildError {
    /// The buildings form no tree around the root: one of them has the key
    /// of the root, or needs a building that is not there, or does not come
    /// to the root by way of the buildings it needs.
    MalformedArborescence,
    /// The buildings are too many, or cost or give too much, for the
    /// machine's integers.
    CapacityOverflow,
}

/// Following the needed buildings from the building `key` arrives at the
/// root within `steps` steps.
pub open spec fn key_reaches(
    buildings: Map<usize, Building>,
    root: usize,
    key: usize,
    steps: nat,
) -> bool
    decreases steps,
{
    key == root || (steps > 0 && buildings.contains_key(key) && key_reaches(
        buildings,
        root,
        buildings[key].need_key,
        (steps - 1) as nat,
    ))
}

/// Following the needed buildings from the building `key` arrives at the
/// root.
pub open spec fn key_rooted(buildings: Map<usize, Building>, root: usize, key: usize) -> bool {
    exists|steps: nat| key_reaches(buildings, root, key, steps)
}

/// The buildings form a tree around the root.
pub open spec fn forms_tree(buildings: Map<usize, Building>, root: usize) -> bool {
    &&& !buildings.contains_key(root)
    &&& forall|key: usize|
        buildings.contains_key(key) ==> #[trigger] key_rooted(buildings, root, key)
}

/// The parent of each node by index: the root has index 0 and the node
/// `nodes[i]` the index `i + 1`.
pub open spec fn are_parents_of(parents: Seq<usize>, nodes: Seq<Node>, root: usize) -> bool {
    &&& parents.len() == nodes.len() + 1
    &&& parents[0] == 0
    &&& forall|id: int|
        1 <= id < parents.len() ==> {
            let above = #[trigger] parents[id];
            &&& above <= nodes.len()
            &&& above == 0 ==> nodes[id - 1].parent_key == root
            &&& above > 0 ==> nodes[above - 1].key == nodes[id - 1].parent_key
        }
}

/// The index of the parent of each node; nothing where a node needs a
/// building that is not among the nodes.
pub fn resolve_parents(nodes: &Vec<Node>, root: usize) -> (resolved: Option<Vec<usize>>)
    requires
        nodes.len() < usize::MAX,
    ensures
        resolved is Some ==> are_parents_of(resolved.unwrap()@, nodes@, root),
        resolved is None ==> exists|i: int|
            0 <= i < nodes.len() && (#[trigger] nodes[i]).parent_key != root && forall|j: int|
                0 <= j < nodes.len() ==> (#[trigger] nodes[j]).key != nodes[i].parent_key,
{
    let mut parents: Vec<usize> = Vec::new();
    parents.push(0);
    let mut i: usize = 0;
    while i < nodes.len()
        invariant
            i <= nodes.len() < usize::MAX,
            parents.len() == i + 1,
            parents[0] == 0,
            forall|id: int|
                1 <= id < parents.len() ==> {
                    let above = #[trigger] parents[id];
                    &&& above <= nodes.len()
                    &&& above == 0 ==> nodes[id - 1].parent_key == root
                    &&& above > 0 ==> nodes[above - 1].key == nodes[id - 1].parent_key
                },
        decreases nodes.len() - i,
    {
        let wanted = nodes[i].parent_key;
        if wanted == root {
            parents.push(0);
        } else {
            let mut found: usize = 0;
            let mut j: usize = 0;
            while j < nodes.len()
                invariant
                    j <= nodes.len() < usize::MAX,
                    found <= nodes.len(),
                    found > 0 ==> nodes[found - 1].key == wanted,
                    found == 0 ==> forall|k: int| 0 <= k < j ==> (#[trigger] nodes[k]).key != wanted,
                decreases nodes.len() - j,
            {
                if nodes[j].key == wanted {
                    found = j + 1;
                }
                j += 1;
            }
            if found == 0 {
                return None;
            }
            parents.push(found);
        }
        i += 1;
    }
    Some(parents)
}

/// A node arrives at the root by way of its parents where its building does
/// so by way of the buildings it needs.
proof fn lemma_reaches_by_key(
    parents: Seq<usize>,
    nodes: Seq<Node>,
    buildings: Map<usize, Building>,
    root: usize,
    id: int,
    steps: nat,
)
    requires
        are_nodes_of(nodes, buildings),
        are_parents_of(parents, nodes, root),
        !buildings.contains_key(root),
        0 <= id < parents.len(),
    ensures
        reaches_root(parents, id, steps) <==> key_reaches(
            buildings,
            root,
            if id == 0 {
                root
            } else {
                nodes[id - 1].key
            },
            steps,
        ),
    decreases steps,
{
    if id > 0 && steps > 0 {
        let above = parents[id] as int;
        assert(buildings.contains_key(nodes[id - 1].key));
        lemma_reaches_by_key(parents, nodes, buildings, root, above, (steps - 1) as nat);
    } else if id > 0 {
        assert(buildings.contains_key(nodes[id - 1].key));
    }
}

/// The nodes form a tree where the buildings do.
proof fn lemma_tree_by_key(
    parents: Seq<usize>,
    nodes: Seq<Node>,
    buildings: Map<usize, Building>,
    root: usize,
)
    requires
        are_nodes_of(nodes, buildings),
        are_parents_of(parents, nodes, root),
        !buildings.contains_key(root),
    ensures
        is_tree(parents) <==> forms_tree(buildings, root),
{
    if is_tree(parents) {
        assert forall|key: usize| buildings.contains_key(key) implies #[trigger] key_rooted(
            buildings,
            root,
            key,
        ) by {
            let i = choose|i: int| 0 <= i < nodes.len() && #[trigger] nodes[i].key == key;
            let id = i + 1;
            assert(rooted(parents, id));
            let steps = choose|steps: nat| reaches_root(parents, id, steps);
            lemma_reaches_by_key(parents, nodes, buildings, root, id, steps);
        }
    }
    if forms_tree(buildings, root) {
        assert forall|id: int| 0 <= id < parents.len() implies #[trigger] rooted(parents, id) by {
            if id == 0 {
                assert(reaches_root(parents, 0, 0));
            } else {
                let key = nodes[id - 1].key;
                assert(buildings.contains_key(key));
                assert(key_rooted(buildings, root, key));
                let steps = choose|steps: nat| key_reaches(buildings, root, key, steps);
                lemma_reaches_by_key(parents, nodes, buildings, root, id, steps);
            }
        }
        assert forall|id: int| 0 <= id < parents.len() implies #[trigger] parents[id]
            < parents.len() by {
            if id > 0 {
                assert(parents[id] <= nodes.len());
            }
        }
    }
}

/// A building that needs one that is not there does not arrive at the root.
proof fn lemma_missing_parent(buildings: Map<usize, Building>, root: usize, key: usize, steps: nat)
    requires
        buildings.contains_key(key),
        key != root,
        buildings[key].need_key != root,
        !buildings.contains_key(buildings[key].need_key),
    ensures
        !key_reaches(buildings, root, key, steps),
{
    if steps > 0 {
        assert(!key_reaches(buildings, root, buildings[key].need_key, (steps - 1) as nat));
    }
}

/// What a building counts for: its cost (0), its storage (1) or its
/// lodging (2).
pub open spec fn amount(building: Building, what: int) -> usize {
    if what == 0 {
        building.cost
    } else if what == 1 {
        building.warehouse_count
    } else {
        building.worker_count
    }
}

/// What a node counts for: its cost (0), its storage (1) or its lodging (2).
pub open spec fn node_amount(node: Node, what: int) -> usize {
    if what == 0 {
        node.cost
    } else if what == 1 {
        node.warehouse_count
    } else {
        node.worker_count
    }
}

/// What the buildings with keys below `bound` count for together.
pub open spec fn total_below(buildings: Map<usize, Building>, what: int, bound: int) -> int
    decreases bound,
{
    if bound <= 0 {
        0
    } else {
        total_below(buildings, what, bound - 1) + if buildings.contains_key((bound - 1) as usize) {
            amount(buildings[(bound - 1) as usize], what) as int
        } else {
            0
        }
    }
}

/// What all the buildings count for together.
pub open spec fn total(buildings: Map<usize, Building>, what: int) -> int {
    total_below(buildings, what, usize::MAX + 1)
}

/// What the first `count` nodes count for together.
pub open spec fn nodes_sum(nodes: Seq<Node>, what: int, count: int) -> int
    decreases count,
{
    if count <= 0 {
        0
    } else {
        nodes_sum(nodes, what, count - 1) + node_amount(nodes[count - 1], what)
    }
}

/// The root and the buildings can be counted.
pub open spec fn count_fits(buildings: Map<usize, Building>) -> bool {
    buildings.len() + 1 < usize::MAX
}

/// The cost of all buildings is a number of the machine that is not its
/// largest, and there is room for a table of the capacities.
pub open spec fn sums_fit(buildings: Map<usize, Building>) -> bool {
    let storage = total(buildings, 1);
    let lodging = total(buildings, 2);
    let bound = if lodging >= storage {
        lodging
    } else {
        storage
    };
    &&& total(buildings, 0) < usize::MAX
    &&& table_len(bound) * 256 <= isize::MAX
}

/// Keys that no building has add nothing to a total.
proof fn lemma_total_gap(buildings: Map<usize, Building>, what: int, from: int, to: int)
    requires
        0 <= from <= to <= usize::MAX + 1,
        forall|key: usize| from <= key < to ==> !buildings.contains_key(key),
    ensures
        total_below(buildings, what, to) == total_below(buildings, what, from),
    decreases to - from,
{
    if from < to {
        lemma_total_gap(buildings, what, from, to - 1);
    }
}

/// The nodes count for what the buildings count for.
proof fn lemma_nodes_sum_is_total(
    nodes: Seq<Node>,
    buildings: Map<usize, Building>,
    what: int,
    count: int,
)
    requires
        are_nodes_of(nodes, buildings),
        0 <= count <= nodes.len(),
    ensures
        nodes_sum(nodes, what, count) == total_below(
            buildings,
            what,
            if count == 0 {
                0
            } else {
                nodes[count - 1].key + 1
            },
        ),
        count == nodes.len() ==> nodes_sum(nodes, what, count) == total(buildings, what),
    decreases count,
{
    let behind = if count == 0 {
        0
    } else {
        nodes[count - 1].key + 1
    };
    if count > 0 {
        lemma_nodes_sum_is_total(nodes, buildings, what, count - 1);
        let before = if count == 1 {
            0
        } else {
            nodes[count - 2].key + 1
        };
        let key = nodes[count - 1].key;
        assert forall|other: usize| before <= other < key implies !buildings.contains_key(
            other,
        ) by {
            if buildings.contains_key(other) {
                let i = choose|i: int| 0 <= i < nodes.len() && #[trigger] nodes[i].key == other;
                if i < count - 1 {
                    assert(count >= 2);
                    if i < count - 2 {
                        assert(nodes[i].key < nodes[count - 2].key);
                    }
                } else if i > count - 1 {
                    assert(nodes[count - 1].key < nodes[i].key);
                }
            }
        }
        lemma_total_gap(buildings, what, before, key as int);
        assert(buildings.contains_key(key));
        assert(nodes[count - 1] == crate::building_nodes::node_of(key, buildings[key]));
    }
    if count == nodes.len() {
        assert forall|other: usize| behind <= other < usize::MAX + 1 implies !buildings.contains_key(
            other,
        ) by {
            if buildings.contains_key(other) {
                let i = choose|i: int| 0 <= i < nodes.len() && #[trigger] nodes[i].key == other;
                if i < count - 1 {
                    assert(nodes[i].key < nodes[count - 1].key);
                }
            }
        }
        lemma_total_gap(buildings, what, behind, usize::MAX + 1);
    }
}

/// All the nodes count for what all the buildings count for.
pub proof fn lemma_nodes_total(nodes: Seq<Node>, buildings: Map<usize, Building>, what: int)
    requires
        are_nodes_of(nodes, buildings),
    ensures
        nodes_sum(nodes, what, nodes.len() as int) == total(buildings, what),
{
    lemma_nodes_sum_is_total(nodes, buildings, what, nodes.len() as int);
}

/// The nodes count for no less with more of them.
proof fn lemma_nodes_sum_monotonic(nodes: Seq<Node>, what: int, m: int, n: int)
    requires
        0 <= m <= n,
    ensures
        0 <= nodes_sum(nodes, what, m) <= nodes_sum(nodes, what, n),
    decreases n,
{
    if m < n {
        lemma_nodes_sum_monotonic(nodes, what, m, n - 1);
    } else if n > 0 {
        lemma_nodes_sum_monotonic(nodes, what, m - 1, n - 1);
    }
}

/// What the nodes count for together, where that is a number of the
/// machine.
pub fn sum_nodes(nodes: &Vec<Node>, what: u8) -> (sum: Option<usize>)
    requires
        what <= 2,
    ensures
        sum is Some <==> nodes_sum(nodes@, what as int, nodes.len() as int) <= usize::MAX,
        sum is Some ==> sum.unwrap() == nodes_sum(nodes@, what as int, nodes.len() as int),
{
    let mut sum: usize = 0;
    let mut i: usize = 0;
    while i < nodes.len()
        invariant
            i <= nodes.len(),
            what <= 2,
            sum == nodes_sum(nodes@, what as int, i as int),
        decreases nodes.len() - i,
    {
        let value = if what == 0 {
            nodes[i].cost
        } else if what == 1 {
            nodes[i].warehouse_count
        } else {
            nodes[i].worker_count
        };
        proof {
            lemma_nodes_sum_monotonic(nodes@, what as int, i + 1, nodes.len() as int);
        }
        if value > usize::MAX - sum {
            return None;
        }
        sum += value;
        i += 1;
    }
    Some(sum)
}

/// The key of the node `id`: the root has index 0 and `nodes[i]` the index
/// `i + 1`.
pub open spec fn key_of(nodes: Seq<Node>, root: usize, id: int) -> usize {
    if id == 0 {
        root
    } else {
        nodes[id - 1].key
    }
}

/// What the node `id` counts for; the root counts for nothing.
pub open spec fn amount_of(nodes: Seq<Node>, id: int, what: int) -> usize {
    if id == 0 {
        0
    } else {
        node_amount(nodes[id - 1], what)
    }
}

/// What the nodes `1 .. count` that stand before position `a` count for
/// together.
pub open spec fn placed_sum(nodes: Seq<Node>, what: int, position: Seq<usize>, a: int, count: int)
    -> int
    decreases count,
{
    if count <= 1 {
        0
    } else {
        placed_sum(nodes, what, position, a, count - 1) + if position[count - 1] < a {
            node_amount(nodes[count - 2], what) as int
        } else {
            0
        }
    }
}

/// The arrays of `region` hold the nodes in the order of `layout`.
pub open spec fn is_laid_out(region: &RegionNodes, layout: Layout, nodes: Seq<Node>, root: usize)
    -> bool {
    let count = nodes.len() + 1;
    &&& region.num_nodes == count
    &&& region.root == root
    &&& region.parents.len() == count
    &&& region.children.len() == count
    &&& region.costs.len() == count
    &&& region.states.len() == count
    &&& region.warehouse_counts.len() == count
    &&& region.worker_counts.len() == count
    &&& region.jump_indices.len() == count
    &&& forall|a: int| 0 <= a < count ==> #[trigger] holds_node(region, layout, nodes, root, a)
}

/// At position `a` the arrays of `region` hold the node that `layout` has
/// there.
pub open spec fn holds_node(
    region: &RegionNodes,
    layout: Layout,
    nodes: Seq<Node>,
    root: usize,
    a: int,
) -> bool {
    let id = layout.order[a] as int;
    &&& region.children[a] == key_of(nodes, root, id)
    &&& region.parents[a] == if id == 0 {
        0
    } else {
        nodes[id - 1].parent_key
    }
    &&& region.costs[a] == amount_of(nodes, id, 0)
    &&& region.warehouse_counts[a] == amount_of(nodes, id, 1)
    &&& region.worker_counts[a] == amount_of(nodes, id, 2)
    &&& region.states[a] == if id == 0 {
        0
    } else {
        initial_mode(amount_of(nodes, id, 1))
    }
    &&& region.jump_indices[a] == layout.jump[a]
}

/// With the node of the next position, the nodes before count for what
/// that node counts for more.
proof fn lemma_placed_sum_step(
    nodes: Seq<Node>,
    what: int,
    layout: Layout,
    parents: Seq<usize>,
    a: int,
    count: int,
)
    requires
        layout.places_wf(parents),
        parents.len() == nodes.len() + 1,
        forall|id: int| 0 <= id < parents.len() ==> #[trigger] layout.placed[id],
        0 <= a < layout.len(),
        1 <= count <= parents.len(),
    ensures
        placed_sum(nodes, what, layout.position@, a + 1, count) == placed_sum(
            nodes,
            what,
            layout.position@,
            a,
            count,
        ) + if 1 <= layout.order[a] < count {
            amount_of(nodes, layout.order[a] as int, what) as int
        } else {
            0
        },
    decreases count,
{
    if count > 1 {
        lemma_placed_sum_step(nodes, what, layout, parents, a, count - 1);
        assert(layout.placed[count - 1]);
        assert(layout.position[layout.order[a] as int] == a);
    }
}

/// No node stands before the first position.
proof fn lemma_placed_sum_none(nodes: Seq<Node>, what: int, position: Seq<usize>, count: int)
    ensures
        placed_sum(nodes, what, position, 0, count) == 0,
    decreases count,
{
    if count > 1 {
        lemma_placed_sum_none(nodes, what, position, count - 1);
    }
}

/// The nodes before a position count for no more than all nodes.
proof fn lemma_placed_sum_bound(
    nodes: Seq<Node>,
    what: int,
    position: Seq<usize>,
    a: int,
    count: int,
)
    requires
        1 <= count,
    ensures
        0 <= placed_sum(nodes, what, position, a, count) <= nodes_sum(nodes, what, count - 1),
        (forall|id: int| 1 <= id < count ==> #[trigger] position[id] < a) ==> placed_sum(
            nodes,
            what,
            position,
            a,
            count,
        ) == nodes_sum(nodes, what, count - 1),
    decreases count,
{
    if count > 1 {
        lemma_placed_sum_bound(nodes, what, position, a, count - 1);
        if forall|id: int| 1 <= id < count ==> #[trigger] position[id] < a {
            assert(position[count - 1] < a);
        }
    }
}

/// The arrays of a region in the order of a layout of its tree, with the
/// sums of its nodes as totals.
fn lay_out(nodes: &Vec<Node>, root: usize, parents: &Vec<usize>, layout: &Layout) -> (region:
    RegionNodes)
    requires
        are_parents_of(parents@, nodes@, root),
        layout.wf(parents@),
        layout.len() == parents.len(),
        forall|id: int| 0 <= id < parents.len() ==> #[trigger] layout.placed[id],
        nodes_sum(nodes@, 0, nodes.len() as int) <= usize::MAX,
        nodes_sum(nodes@, 1, nodes.len() as int) <= usize::MAX,
        nodes_sum(nodes@, 2, nodes.len() as int) <= usize::MAX,
    ensures
        is_laid_out(&region, *layout, nodes@, root),
        region.usage_counts.cost == sum_upto(region.costs@, region.num_nodes as int),
        region.usage_counts.cost == nodes_sum(nodes@, 0, nodes.len() as int),
        region.max_warehouse_count == sum_upto(region.warehouse_counts@, region.num_nodes as int),
        region.max_warehouse_count == nodes_sum(nodes@, 1, nodes.len() as int),
        region.max_worker_count == sum_upto(region.worker_counts@, region.num_nodes as int),
        region.max_worker_count == nodes_sum(nodes@, 2, nodes.len() as int),
        region.usage_counts.warehouse_count == sum_in_mode(
            region.warehouse_counts@,
            region.states@,
            1,
            region.num_nodes as int,
        ),
        region.usage_counts.worker_count == sum_in_mode(
            region.worker_counts@,
            region.states@,
            2,
            region.num_nodes as int,
        ),
{
    let count = parents.len();
    let mut region = RegionNodes {
        num_nodes: count,
        root,
        parents: Vec::new(),
        children: Vec::new(),
        costs: Vec::new(),
        states: Vec::new(),
        warehouse_counts: Vec::new(),
        worker_counts: Vec::new(),
        jump_indices: Vec::new(),
        usage_counts: UsageCounters::new(),
        max_warehouse_count: 0,
        max_worker_count: 0,
    };
    let mut a: usize = 0;
    proof {
        lemma_placed_sum_none(nodes@, 0, layout.position@, count as int);
        lemma_placed_sum_none(nodes@, 1, layout.position@, count as int);
        lemma_placed_sum_none(nodes@, 2, layout.position@, count as int);
    }
    while a < count
        invariant
            a <= count,
            count == parents.len(),
            count == nodes.len() + 1,
            layout.wf(parents@),
            layout.len() == count,
            forall|id: int| 0 <= id < parents.len() ==> #[trigger] layout.placed[id],
            nodes_sum(nodes@, 0, nodes.len() as int) <= usize::MAX,
            nodes_sum(nodes@, 1, nodes.len() as int) <= usize::MAX,
            nodes_sum(nodes@, 2, nodes.len() as int) <= usize::MAX,
            region.num_nodes == count,
            region.root == root,
            region.parents.len() == a,
            region.children.len() == a,
            region.costs.len() == a,
            region.states.len() == a,
            region.warehouse_counts.len() == a,
            region.worker_counts.len() == a,
            region.jump_indices.len() == a,
            forall|b: int| 0 <= b < a ==> #[trigger] holds_node(&region, *layout, nodes@, root, b),
            region.usage_counts.cost == sum_upto(region.costs@, a as int),
            region.usage_counts.cost == placed_sum(
                nodes@,
                0,
                layout.position@,
                a as int,
                count as int,
            ),
            region.max_warehouse_count == sum_upto(region.warehouse_counts@, a as int),
            region.max_warehouse_count == placed_sum(
                nodes@,
                1,
                layout.position@,
                a as int,
                count as int,
            ),
            region.max_worker_count == sum_upto(region.worker_counts@, a as int),
            region.max_worker_count == placed_sum(
                nodes@,
                2,
                layout.position@,
                a as int,
                count as int,
            ),
            region.usage_counts.warehouse_count == sum_in_mode(
                region.warehouse_counts@,
                region.states@,
                1,
                a as int,
            ),
            region.usage_counts.worker_count == sum_in_mode(
                region.worker_counts@,
                region.states@,
                2,
                a as int,
            ),
        decreases count - a,
    {
        let ghost before = region;
        let id = layout.order[a];
        let (key, parent_key, cost, storage, lodging, state) = if id == 0 {
            (root, 0, 0, 0, 0, 0)
        } else {
            let node = &nodes[id - 1];
            (
                node.key,
                node.parent_key,
                node.cost,
                node.warehouse_count,
                node.worker_count,
                if node.warehouse_count > 0 {
                    1
                } else {
                    2
                },
            )
        };
        proof {
            lemma_placed_sum_step(nodes@, 0, *layout, parents@, a as int, count as int);
            lemma_placed_sum_step(nodes@, 1, *layout, parents@, a as int, count as int);
            lemma_placed_sum_step(nodes@, 2, *layout, parents@, a as int, count as int);
            lemma_placed_sum_bound(nodes@, 0, layout.position@, a + 1, count as int);
            lemma_placed_sum_bound(nodes@, 1, layout.position@, a + 1, count as int);
            lemma_placed_sum_bound(nodes@, 2, layout.position@, a + 1, count as int);
            crate::region_nodes::lemma_sum_in_mode_bound(
                before.warehouse_counts@.push(storage),
                before.states@.push(state),
                1,
                a + 1,
            );
            crate::region_nodes::lemma_sum_in_mode_bound(
                before.worker_counts@.push(lodging),
                before.states@.push(state),
                2,
                a + 1,
            );
            lemma_sums_after_push(before.costs@, cost, before.states@, state, 1);
            lemma_sums_after_push(before.warehouse_counts@, storage, before.states@, state, 1);
            lemma_sums_after_push(before.worker_counts@, lodging, before.states@, state, 2);
        }
        region.children.push(key);
        region.parents.push(parent_key);
        region.costs.push(cost);
        region.warehouse_counts.push(storage);
        region.worker_counts.push(lodging);
        region.states.push(state);
        region.jump_indices.push(layout.jump[a]);
        region.usage_counts.cost += cost;
        region.max_warehouse_count += storage;
        region.max_worker_count += lodging;
        if state == 1 {
            region.usage_counts.warehouse_count += storage;
        }
        if state == 2 {
            region.usage_counts.worker_count += lodging;
        }
        proof {
            assert forall|b: int| 0 <= b < a + 1 implies #[trigger] holds_node(
                &region,
                *layout,
                nodes@,
                root,
                b,
            ) by {
                if b < a {
                    assert(holds_node(&before, *layout, nodes@, root, b));
                }
            }
        }
        a += 1;
    }
    proof {
        assert forall|id: int| 1 <= id < count implies #[trigger] layout.position[id] < count by {
            assert(layout.placed[id]);
        }
        lemma_placed_sum_bound(nodes@, 0, layout.position@, count as int, count as int);
        lemma_placed_sum_bound(nodes@, 1, layout.position@, count as int, count as int);
        lemma_placed_sum_bound(nodes@, 2, layout.position@, count as int, count as int);
    }
    region
}

/// The sums over a sequence with one more value.
proof fn lemma_sums_after_push(
    values: Seq<usize>,
    value: usize,
    states: Seq<usize>,
    state: usize,
    mode: usize,
)
    requires
        values.len() == states.len(),
    ensures
        sum_upto(values.push(value), values.len() as int + 1) == sum_upto(values, values.len() as int)
            + value,
        sum_in_mode(values.push(value), states.push(state), mode, values.len() as int + 1) == sum_in_mode(
            values,
            states,
            mode,
            values.len() as int,
        ) + if state == mode {
            value as int
        } else {
            0
        },
{
    lemma_sums_prefix(values, value, states, state, mode, values.len() as int);
}

/// The sums over the first values are not changed by one more value behind
/// them.
proof fn lemma_sums_prefix(
    values: Seq<usize>,
    value: usize,
    states: Seq<usize>,
    state: usize,
    mode: usize,
    count: int,
)
    requires
        values.len() == states.len(),
        0 <= count <= values.len(),
    ensures
        sum_upto(values.push(value), count) == sum_upto(values, count),
        sum_in_mode(values.push(value), states.push(state), mode, count) == sum_in_mode(
            values,
            states,
            mode,
            count,
        ),
    decreases count,
{
    if count > 0 {
        lemma_sums_prefix(values, value, states, state, mode, count - 1);
    }
}

/// The keys of the nodes by index.
pub open spec fn keys_of(nodes: Seq<Node>, root: usize) -> Seq<usize> {
    Seq::new(nodes.len() + 1, |id: int| key_of(nodes, root, id))
}

/// The arrays laid out from a layout of the tree of the buildings are a
/// region that holds the buildings.
proof fn lemma_laid_out(
    region: &RegionNodes,
    layout: Layout,
    parents: Seq<usize>,
    nodes: Seq<Node>,
    buildings: Map<usize, Building>,
    root: usize,
)
    requires
        is_laid_out(region, layout, nodes, root),
        are_nodes_of(nodes, buildings),
        are_parents_of(parents, nodes, root),
        !buildings.contains_key(root),
        layout.wf(parents),
        layout.len() == parents.len(),
        forall|id: int| 0 <= id < parents.len() ==> #[trigger] layout.placed[id],
        layout.siblings_sorted(parents, keys_of(nodes, root)),
    ensures
        region.shape_wf(),
        region.tree_wf(),
        region.holds(buildings),
        region.siblings_sorted(),
        forall|i: int|
            1 <= i < region.num_nodes ==> #[trigger] region.states[i] == initial_mode(
                region.warehouse_counts[i],
            ),
{
    let count = nodes.len() + 1;
    assert(holds_node(region, layout, nodes, root, 0));
    assert forall|a: int| 1 <= a < count implies layout.order[a] >= 1 by {
        assert(layout.position[layout.order[a] as int] == a);
        assert(layout.position[layout.order[0] as int] == 0);
    }
    assert forall|i: int, j: int| 0 <= i < count && 0 <= j < count && i != j implies region.children[i]
        != region.children[j] by {
        lemma_keys_differ(region, layout, parents, nodes, buildings, root, i, j);
    }
    assert forall|i: int| 1 <= i < count implies region.parent_index(i) == layout.parent_position(
        parents,
        i,
    ) by {
        let above = layout.parent_position(parents, i);
        assert(layout.below_parent(parents, i));
        assert(holds_node(region, layout, nodes, root, i));
        assert(holds_node(region, layout, nodes, root, above));
        let id = layout.order[i] as int;
        assert(layout.order[above] == parents[id]);
        assert(region.children[above] == region.parents[i]);
        let chosen = region.parent_index(i);
        assert(0 <= chosen < count && region.children[chosen] == region.parents[i]);
    }
    assert(region.shape_wf());
    assert(region.tree_wf()) by {
        assert forall|i: int| 0 <= i < count implies i < #[trigger] region.jump_indices[i]
            <= count by {
            assert(holds_node(region, layout, nodes, root, i));
        }
        assert forall|i: int, j: int|
            0 <= i < j < count && j < #[trigger] region.jump_indices[i] implies #[trigger] region.jump_indices[j]
            <= region.jump_indices[i] by {
            assert(holds_node(region, layout, nodes, root, i));
            assert(holds_node(region, layout, nodes, root, j));
        }
        assert forall|i: int| 1 <= i < count implies 0 <= #[trigger] region.parent_index(i) < i
            && region.is_ancestor(region.parent_index(i), i)
            && region.children[region.parent_index(i)] == region.parents[i] by {
            let above = layout.parent_position(parents, i);
            assert(layout.below_parent(parents, i));
            assert(holds_node(region, layout, nodes, root, above));
            assert(holds_node(region, layout, nodes, root, i));
        }
        assert forall|i: int, q: int|
            1 <= i < count && region.parent_index(i) < q < i implies !#[trigger] region.is_ancestor(
            q,
            i,
        ) by {
            assert(holds_node(region, layout, nodes, root, q));
            assert(!layout.encloses(q, i));
        }
        assert(holds_node(region, layout, nodes, root, 0));
    }
    assert forall|i: int| 1 <= i < count implies #[trigger] region.states[i] == initial_mode(
        region.warehouse_counts[i],
    ) by {
        assert(holds_node(region, layout, nodes, root, i));
    }
    assert(region.holds(buildings)) by {
        assert forall|i: int| 1 <= i < count implies {
            let key = #[trigger] region.children[i];
            &&& buildings.contains_key(key)
            &&& region.parents[i] == buildings[key].need_key
            &&& region.costs[i] == buildings[key].cost
            &&& region.warehouse_counts[i] == buildings[key].warehouse_count
            &&& region.worker_counts[i] == buildings[key].worker_count
        } by {
            assert(holds_node(region, layout, nodes, root, i));
            let id = layout.order[i] as int;
            assert(buildings.contains_key(nodes[id - 1].key));
        }
        assert forall|key: usize| buildings.contains_key(key) implies exists|i: int|
            1 <= i < count && #[trigger] region.children[i] == key by {
            let at = choose|at: int| 0 <= at < nodes.len() && #[trigger] nodes[at].key == key;
            let id = at + 1;
            assert(layout.placed[id]);
            let i = layout.position[id] as int;
            assert(holds_node(region, layout, nodes, root, i));
            assert(layout.position[layout.order[0] as int] == 0);
            assert(region.children[i] == key);
        }
    }
    assert forall|x: int, y: int|
        1 <= x < y < count && #[trigger] region.parents[x]
            == #[trigger] region.parents[y] implies region.jump_indices[x] - x
        > region.jump_indices[y] - y || (region.jump_indices[x] - x == region.jump_indices[y] - y
        && region.children[x] < region.children[y]) by {
        assert(holds_node(region, layout, nodes, root, x));
        assert(holds_node(region, layout, nodes, root, y));
        let u = layout.order[x] as int;
        let v = layout.order[y] as int;
        let above_x = layout.parent_position(parents, x);
        let above_y = layout.parent_position(parents, y);
        assert(layout.below_parent(parents, x));
        assert(layout.below_parent(parents, y));
        assert(region.children[region.parent_index(x)] == region.children[region.parent_index(y)]);
        assert(above_x == above_y);
        assert(layout.order[above_x] == parents[u]);
        assert(layout.order[above_y] == parents[v]);
        assert(parents[u] == parents[v]);
        let keys = keys_of(nodes, root);
        assert(crate::node_manipulation::ranks_before(layout.sizes(), keys, u, v));
        assert(layout.position[u] == x && layout.position[v] == y);
        assert(holds_node(region, layout, nodes, root, x));
    }
}

/// Two positions of the region hold two keys.
proof fn lemma_keys_differ(
    region: &RegionNodes,
    layout: Layout,
    parents: Seq<usize>,
    nodes: Seq<Node>,
    buildings: Map<usize, Building>,
    root: usize,
    i: int,
    j: int,
)
    requires
        is_laid_out(region, layout, nodes, root),
        are_nodes_of(nodes, buildings),
        !buildings.contains_key(root),
        layout.places_wf(parents),
        layout.len() == nodes.len() + 1,
        parents.len() == nodes.len() + 1,
        0 <= i < layout.len(),
        0 <= j < layout.len(),
        i != j,
    ensures
        region.children[i] != region.children[j],
{
    assert(holds_node(region, layout, nodes, root, i));
    assert(holds_node(region, layout, nodes, root, j));
    let u = layout.order[i] as int;
    let v = layout.order[j] as int;
    assert(layout.position[u] == i && layout.position[v] == j);
    if u > 0 {
        assert(buildings.contains_key(nodes[u - 1].key));
    }
    if v > 0 {
        assert(buildings.contains_key(nodes[v - 1].key));
    }
    if u > 0 && v > 0 {
        if u < v {
            assert(nodes[u - 1].key < nodes[v - 1].key);
        } else {
            assert(nodes[v - 1].key < nodes[u - 1].key);
        }
    }
}

/// Whether a table of the capacities up to `bound` has room.
fn table_fits(bound: usize) -> (fits: bool)
    ensures
        fits == (table_len(bound as int) * 256 <= isize::MAX),
{
    assert(bound + 1 <= (bound + 1) * (bound + 1)) by (nonlinear_arith)
        requires
            bound >= 0,
    ;
    assert((bound + 1) * (bound + 1) <= (bound + 1) * (bound + 1) * 256) by (nonlinear_arith)
        requires
            bound >= 0,
    ;
    match bound.checked_add(1) {
        Some(side) => match side.checked_mul(side) {
            Some(square) => match square.checked_mul(256) {
                Some(scaled) => scaled <= isize::MAX as usize,
                None => false,
            },
            None => false,
        },
        None => false,
    }
}

impl RegionNodes {
    /// The region of the buildings around the root: the tree that the
    /// buildings form by the building each needs, in pre-order, with the
    /// children of each node by descending size of their subtrees and, where
    /// these are as large, by ascending key.
    ///
    /// No region is built where the buildings form no tree around the root,
    /// or where they are too many or count for too much.
    pub fn new(buildings: &BuildingMap, root: usize) -> (built: Result<RegionNodes, BuildError>)
        ensures
            built is Ok <==> count_fits(buildings@) && forms_tree(buildings@, root) && sums_fit(
                buildings@,
            ),
            built == Err::<RegionNodes, BuildError>(BuildError::MalformedArborescence)
                <==> count_fits(buildings@) && !forms_tree(buildings@, root),
            built matches Ok(region) ==> {
                &&& region.wf()
                &&& region.root == root
                &&& region.holds(buildings@)
                &&& region.siblings_sorted()
            },
    {
        let nodes = nodes_of(buildings);
        if nodes.len() >= usize::MAX - 1 {
            return Err(BuildError::CapacityOverflow);
        }
        let mut i: usize = 0;
        while i < nodes.len()
            invariant
                i <= nodes.len() < usize::MAX - 1,
                are_nodes_of(nodes@, buildings@),
                forall|k: int| 0 <= k < i ==> (#[trigger] nodes[k]).key != root,
            decreases nodes.len() - i,
        {
            if nodes[i].key == root {
                proof {
                    assert(buildings@.contains_key(nodes[i as int].key));
                }
                return Err(BuildError::MalformedArborescence);
            }
            i += 1;
        }
        proof {
            if buildings@.contains_key(root) {
                let at = choose|at: int| 0 <= at < nodes.len() && #[trigger] nodes[at].key == root;
                assert(nodes[at].key != root);
            }
        }
        let parents = match resolve_parents(&nodes, root) {
            Some(parents) => parents,
            None => {
                proof {
                    let at = choose|at: int|
                        0 <= at < nodes.len() && (#[trigger] nodes[at]).parent_key != root
                            && forall|j: int|
                            0 <= j < nodes.len() ==> (#[trigger] nodes[j]).key
                                != nodes[at].parent_key;
                    let key = nodes[at].key;
                    assert(buildings@.contains_key(key));
                    let needed = buildings@[key].need_key;
                    if buildings@.contains_key(needed) {
                        let j = choose|j: int|
                            0 <= j < nodes.len() && #[trigger] nodes[j].key == needed;
                        assert(nodes[j].key != nodes[at].parent_key);
                    }
                    assert forall|steps: nat| !key_reaches(buildings@, root, key, steps) by {
                        lemma_missing_parent(buildings@, root, key, steps);
                    }
                    assert(!key_rooted(buildings@, root, key));
                }
                return Err(BuildError::MalformedArborescence);
            },
        };
        proof {
            lemma_tree_by_key(parents@, nodes@, buildings@, root);
            assert forall|id: int| 0 <= id < parents.len() implies #[trigger] parents[id]
                < parents.len() by {
                if id > 0 {
                    assert(parents[id] <= nodes.len());
                }
            }
        }
        let first = match arrange_by_traversal_pre_order(&parents) {
            Some(first) => first,
            None => {
                return Err(BuildError::MalformedArborescence);
            },
        };
        let mut keys: Vec<usize> = Vec::new();
        keys.push(root);
        let mut k: usize = 0;
        while k < nodes.len()
            invariant
                k <= nodes.len(),
                keys.len() == k + 1,
                forall|id: int| 0 <= id < keys.len() ==> #[trigger] keys[id] == key_of(nodes@, root, id),
            decreases nodes.len() - k,
        {
            keys.push(nodes[k].key);
            k += 1;
        }
        proof {
            assert(keys@ =~= keys_of(nodes@, root));
            assert forall|a: int, b: int| 0 <= a < b < keys.len() implies keys[a] != keys[b] by {
                assert(buildings@.contains_key(nodes[b - 1].key));
                if a > 0 {
                    assert(nodes[a - 1].key < nodes[b - 1].key);
                }
            }
        }
        let second = arrange_largest_subtrees(&first, &parents, &keys);
        let cost = sum_nodes(&nodes, 0);
        let storage = sum_nodes(&nodes, 1);
        let lodging = sum_nodes(&nodes, 2);
        proof {
            lemma_nodes_sum_is_total(nodes@, buildings@, 0, nodes.len() as int);
            lemma_nodes_sum_is_total(nodes@, buildings@, 1, nodes.len() as int);
            lemma_nodes_sum_is_total(nodes@, buildings@, 2, nodes.len() as int);
            lemma_nodes_sum_monotonic(nodes@, 1, 0, nodes.len() as int);
            lemma_nodes_sum_monotonic(nodes@, 2, 0, nodes.len() as int);
            let most = if total(buildings@, 2) >= total(buildings@, 1) {
                total(buildings@, 2)
            } else {
                total(buildings@, 1)
            };
            assert(most + 1 <= table_len(most) * 256) by (nonlinear_arith)
                requires
                    most >= 0,
            ;
        }
        let (cost, storage, lodging) = match (cost, storage, lodging) {
            (Some(cost), Some(storage), Some(lodging)) => (cost, storage, lodging),
            _ => {
                return Err(BuildError::CapacityOverflow);
            },
        };
        let bound = if lodging >= storage {
            lodging
        } else {
            storage
        };
        if cost == usize::MAX || !table_fits(bound) {
            return Err(BuildError::CapacityOverflow);
        }
        let region = lay_out(&nodes, root, &parents, &second);
        proof {
            lemma_laid_out(&region, second, parents@, nodes@, buildings@, root);
        }
        Ok(region)
    }
}

} // verus!
