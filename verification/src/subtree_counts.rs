//! Counting the chains of a region without walking them.

use crate::region_nodes::RegionNodes;
use vstd::prelude::*;

verus! {

impl RegionNodes {
    /// The number of modes that node `i` can be selected in: one where only
    /// the selection counts, else the number of its initial mode.
    pub open spec fn weight(&self, i: int, multistate: bool) -> int {
        if multistate {
            self.states[i] as int
        } else {
            1
        }
    }

    /// The number of ways to select nodes from the subtrees that stand side
    /// by side in `from .. to`, each node with its parent where that stands
    /// there too: the product over those subtrees of `1 + s * c`, where `s`
    /// is the number of modes of the node at the top and `c` the number of
    /// ways of the subtrees of its children.
    pub open spec fn forest_count(&self, from: int, to: int, multistate: bool) -> int
        decreases to - from,
    {
        if 0 <= from < to && from < self.jump_indices.len() && from < self.jump_indices[from]
            <= to {
            (1 + self.weight(from, multistate) * self.forest_count(
                from + 1,
                self.jump_indices[from] as int,
                multistate,
            )) * self.forest_count(self.jump_indices[from] as int, to, multistate)
        } else {
            1
        }
    }

    /// Subtrees stand side by side from `from` up to `to`.
    pub open spec fn tiles(&self, from: int, to: int) -> bool
        decreases to - from,
    {
        from == to || (0 <= from < to && from < self.jump_indices.len() && from
            < self.jump_indices[from] <= to && self.tiles(self.jump_indices[from] as int, to))
    }
}

/// The subtrees of the children of a node stand side by side up to the end
/// of its subtree.
pub proof fn lemma_children_tile(region: &RegionNodes, node: int, from: int)
    requires
        region.wf(),
        0 <= node < from <= region.jump_indices[node],
        node < region.num_nodes,
        from == node + 1 || exists|before: int|
            node < before < from && from == #[trigger] region.jump_indices[before],
    ensures
        region.tiles(from, region.jump_indices[node] as int),
    decreases region.jump_indices[node] - from,
{
    if from < region.jump_indices[node] {
        assert(region.jump_indices[from] <= region.jump_indices[node]);
        lemma_children_tile(region, node, region.jump_indices[from] as int);
    }
}

/// A count of ways is at least one.
pub proof fn lemma_forest_count_positive(region: &RegionNodes, from: int, to: int, multistate: bool)
    requires
        region.wf(),
    ensures
        region.forest_count(from, to, multistate) >= 1,
    decreases to - from,
{
    if 0 <= from < to && from < region.jump_indices.len() && from < region.jump_indices[from]
        <= to {
        let jump = region.jump_indices[from] as int;
        lemma_forest_count_positive(region, from + 1, jump, multistate);
        lemma_forest_count_positive(region, jump, to, multistate);
        let weight = region.weight(from, multistate);
        let below = region.forest_count(from + 1, jump, multistate);
        let beside = region.forest_count(jump, to, multistate);
        assert((1 + weight * below) * beside >= 1) by (nonlinear_arith)
            requires
                weight >= 0,
                below >= 1,
                beside >= 1,
        ;
    }
}

/// The ways to go on from a node are the ways of the subtrees up to a later
/// node, times the ways to go on from there.
pub proof fn lemma_completions_factor(region: &RegionNodes, from: int, to: int)
    requires
        region.wf(),
        1 <= from <= to <= region.num_nodes,
        region.tiles(from, to),
    ensures
        region.completions(from) == region.forest_count(from, to, true) * region.completions(to),
    decreases to - from,
{
    if from < to {
        let jump = region.jump_indices[from] as int;
        lemma_children_tile(region, from, from + 1);
        lemma_completions_factor(region, from + 1, jump);
        lemma_completions_factor(region, jump, to);
        let weight = region.states[from] as int;
        let below = region.forest_count(from + 1, jump, true);
        let beside = region.forest_count(jump, to, true);
        let after_jump = region.completions(jump) as int;
        let after = region.completions(to) as int;
        assert(weight * (below * after_jump) + after_jump == (1 + weight * below) * after_jump)
            by (nonlinear_arith);
        assert((1 + weight * below) * (beside * after) == ((1 + weight * below) * beside) * after)
            by (nonlinear_arith);
    } else {
        assert(region.forest_count(from, to, true) == 1);
    }
}

/// The walk over a region visits as many chains as there are ways to select
/// nodes from the subtrees of the children of the root, each node with its
/// parent and in one of its modes.
pub proof fn lemma_walk_length(region: &RegionNodes)
    requires
        region.wf(),
    ensures
        region.completions(1) == region.forest_count(1, region.num_nodes as int, true),
{
    lemma_children_tile(region, 0, 1);
    lemma_completions_factor(region, 1, region.num_nodes as int);
}

/// The number of ways to select nodes from the subtrees that stand side by
/// side in `from .. to`; nothing where that is no number of the machine.
pub fn count_subtrees_at(region: &RegionNodes, from: usize, to: usize, multistate: bool) -> (count:
    Option<usize>)
    requires
        region.wf(),
        from <= to <= region.num_nodes,
        region.tiles(from as int, to as int),
    ensures
        count is Some <==> region.forest_count(from as int, to as int, multistate) <= usize::MAX,
        count is Some ==> count.unwrap() == region.forest_count(
            from as int,
            to as int,
            multistate,
        ),
    decreases to - from,
{
    let mut product: usize = 1;
    let mut at = from;
    let ghost whole = region.forest_count(from as int, to as int, multistate);
    while at < to
        invariant
            region.wf(),
            from <= at <= to <= region.num_nodes,
            region.tiles(at as int, to as int),
            whole == region.forest_count(from as int, to as int, multistate),
            whole == product * region.forest_count(at as int, to as int, multistate),
            product >= 1,
        decreases to - at,
    {
        let jump = region.jump_indices[at];
        proof {
            if at >= 1 {
                lemma_children_tile(region, at as int, at + 1);
            } else {
                lemma_children_tile(region, 0, 1);
            }
            lemma_forest_count_positive(region, at + 1, jump as int, multistate);
            lemma_forest_count_positive(region, jump as int, to as int, multistate);
        }
        let ghost below_ways = region.forest_count(at + 1, jump as int, multistate);
        let ghost beside = region.forest_count(jump as int, to as int, multistate);
        let ghost weight = region.weight(at as int, multistate);
        let weight_here = if multistate {
            region.states[at]
        } else {
            1
        };
        let below = count_subtrees_at(region, at + 1, jump, multistate);
        let here = match below {
            Some(below) => match weight_here.checked_mul(below) {
                Some(with) => with.checked_add(1),
                None => None,
            },
            None => None,
        };
        proof {
            assert(whole == product * ((1 + weight * below_ways) * beside));
            assert(product * ((1 + weight * below_ways) * beside) == (product * (1 + weight
                * below_ways)) * beside) by (nonlinear_arith);
            assert((product * (1 + weight * below_ways)) * beside >= product * (1 + weight
                * below_ways)) by (nonlinear_arith)
                requires
                    product >= 1,
                    weight >= 0,
                    below_ways >= 1,
                    beside >= 1,
            ;
            assert(product * (1 + weight * below_ways) >= 1 + weight * below_ways)
                by (nonlinear_arith)
                requires
                    product >= 1,
                    weight >= 0,
                    below_ways >= 1,
            ;
            if weight >= 1 {
                assert(weight * below_ways >= below_ways) by (nonlinear_arith)
                    requires
                        weight >= 1,
                        below_ways >= 1,
                ;
            }
        }
        let here = match here {
            Some(here) => here,
            None => {
                proof {
                    if weight == 0 {
                        assert(weight * below_ways == 0);
                    }
                }
                if weight_here == 0 {
                    1
                } else {
                    return None;
                }
            },
        };
        proof {
            if weight == 0 {
                assert(weight * below_ways == 0);
            }
        }
        product = match product.checked_mul(here) {
            Some(product) => product,
            None => {
                return None;
            },
        };
        at = jump;
    }
    Some(product)
}

/// The number of connected sets of buildings around the root, the root
/// alone among them; nothing where that is no number of the machine.
pub fn count_subtrees(region: &RegionNodes) -> (count: Option<usize>)
    requires
        region.wf(),
    ensures
        count is Some <==> region.forest_count(1, region.num_nodes as int, false) <= usize::MAX,
        count is Some ==> count.unwrap() == region.forest_count(1, region.num_nodes as int, false),
{
    proof {
        lemma_children_tile(region, 0, 1);
    }
    count_subtrees_at(region, 1, region.num_nodes, false)
}

/// The number of chains of the region, which is the number of chains that a
/// walk over it visits; nothing where that is no number of the machine.
pub fn count_subtrees_multistate(region: &RegionNodes) -> (count: Option<usize>)
    requires
        region.wf(),
    ensures
        count is Some <==> region.completions(1) <= usize::MAX,
        count is Some ==> count.unwrap() == region.completions(1),
{
    proof {
        lemma_children_tile(region, 0, 1);
        lemma_walk_length(region);
    }
    count_subtrees_at(region, 1, region.num_nodes, true)
}

} // verus!
