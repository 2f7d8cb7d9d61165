//! Arranging the nodes of a tree, which is given by the parent of each node,
//! in pre-order.

use vstd::prelude::*;

verus! {

/// A sequence of distinct numbers below `bound` has at most `bound` entries.
pub proof fn lemma_injection_bound(f: Seq<int>, bound: int)
    requires
        0 <= bound,
        forall|i: int| 0 <= i < f.len() ==> 0 <= #[trigger] f[i] < bound,
        forall|i: int, j: int| 0 <= i < j < f.len() ==> f[i] != f[j],
    ensures
        f.len() <= bound,
    decreases bound,
{
    if f.len() > 0 {
        if bound <= 0 {
            assert(0 <= f[0] < bound);
        } else if exists|i: int| 0 <= i < f.len() && f[i] == bound - 1 {
            let at = choose|i: int| 0 <= i < f.len() && f[i] == bound - 1;
            let g = f.remove(at);
            assert forall|i: int| 0 <= i < g.len() implies 0 <= #[trigger] g[i] < bound - 1 by {
                if i < at {
                    assert(g[i] == f[i]);
                } else {
                    assert(g[i] == f[i + 1]);
                }
            }
            assert forall|i: int, j: int| 0 <= i < j < g.len() implies g[i] != g[j] by {
                let fi = if i < at { i } else { i + 1 };
                let fj = if j < at { j } else { j + 1 };
                assert(g[i] == f[fi] && g[j] == f[fj]);
            }
            lemma_injection_bound(g, bound - 1);
        } else {
            assert forall|i: int| 0 <= i < f.len() implies 0 <= #[trigger] f[i] < bound - 1 by {
                assert(f[i] != bound - 1);
            }
            lemma_injection_bound(f, bound - 1);
        }
    }
}

/// Following the parents from node `id` arrives at the root within `steps`
/// steps.
pub open spec fn reaches_root(parents: Seq<usize>, id: int, steps: nat) -> bool
    decreases steps,
{
    id == 0 || (steps > 0 && 0 < id < parents.len() && reaches_root(
        parents,
        parents[id] as int,
        (steps - 1) as nat,
    ))
}

/// Following the parents from node `id` arrives at the root.
pub open spec fn rooted(parents: Seq<usize>, id: int) -> bool {
    exists|steps: nat| reaches_root(parents, id, steps)
}

/// The parents describe a tree around node 0: every node has a parent among
/// the nodes, and arrives at the root by way of its parents.
pub open spec fn is_tree(parents: Seq<usize>) -> bool {
    &&& parents.len() >= 1
    &&& forall|id: int| 0 <= id < parents.len() ==> #[trigger] parents[id] < parents.len()
    &&& forall|id: int| 0 <= id < parents.len() ==> #[trigger] rooted(parents, id)
}

/// Some nodes of a tree in pre-order.
///
/// The tree is given from outside, as the parent of each node; node 0 is the
/// root. `order` holds the nodes that are placed, `jump[a]` is the position
/// behind the subtree of the node at position `a`, and `position` holds for
/// each placed node where it stands.
pub struct Layout {
    pub order: Vec<usize>,
    pub jump: Vec<usize>,
    pub position: Vec<usize>,
    pub placed: Vec<bool>,
}

impl Layout {
    /// Number of nodes placed.
    pub open spec fn len(&self) -> int {
        self.order.len() as int
    }

    /// The position of the parent of the node at position `a`.
    pub open spec fn parent_position(&self, parents: Seq<usize>, a: int) -> int {
        self.position[parents[self.order[a] as int] as int] as int
    }

    /// Positions and nodes correspond one to one.
    pub open spec fn places_wf(&self, parents: Seq<usize>) -> bool {
        &&& self.order.len() == self.jump.len()
        &&& 1 <= self.order.len() <= parents.len() < usize::MAX
        &&& self.position.len() == parents.len()
        &&& self.placed.len() == parents.len()
        &&& self.order[0] == 0
        &&& forall|a: int|
            0 <= a < self.order.len() ==> {
                &&& #[trigger] self.order[a] < parents.len()
                &&& self.placed[self.order[a] as int]
                &&& self.position[self.order[a] as int] == a
            }
        &&& forall|id: int|
            0 <= id < parents.len() && #[trigger] self.placed[id] ==> {
                &&& self.position[id] < self.order.len()
                &&& self.order[self.position[id] as int] == id
            }
    }

    /// The subtrees are nested.
    pub open spec fn jumps_wf(&self) -> bool {
        &&& self.jump[0] == self.order.len()
        &&& forall|a: int| 0 <= a < self.jump.len() ==> a < #[trigger] self.jump[a] <= self.jump.len()
        &&& forall|a: int, b: int|
            0 <= a < b < self.jump.len() && b < #[trigger] self.jump[a] ==> #[trigger] self.jump[b]
                <= self.jump[a]
    }

    /// Every node but the root stands in the subtree of its parent, and in
    /// that of no node between the two.
    pub open spec fn parents_wf(&self, parents: Seq<usize>) -> bool {
        &&& forall|a: int| 1 <= a < self.order.len() ==> #[trigger] self.below_parent(parents, a)
        &&& forall|a: int, b: int|
            1 <= a < self.order.len() && self.parent_position(parents, a) < b < a
                ==> !#[trigger] self.encloses(b, a)
    }

    /// The parent of the node at position `a` is placed, before `a`, and its
    /// subtree holds `a`.
    pub open spec fn below_parent(&self, parents: Seq<usize>, a: int) -> bool {
        let p = self.parent_position(parents, a);
        &&& parents[self.order[a] as int] < parents.len()
        &&& self.placed[parents[self.order[a] as int] as int]
        &&& p < a < self.jump[p]
    }

    /// The subtree of the node at position `b` holds position `a`.
    pub open spec fn encloses(&self, b: int, a: int) -> bool {
        b < a < self.jump[b]
    }

    /// The layout is a pre-order of the nodes placed.
    pub open spec fn wf(&self, parents: Seq<usize>) -> bool {
        &&& self.places_wf(parents)
        &&& self.jumps_wf()
        &&& self.parents_wf(parents)
    }

    /// `at` is where a child of the node at `parent` can be put: where a
    /// child of it stands, or behind its subtree.
    pub open spec fn is_child_boundary(&self, parents: Seq<usize>, parent: int, at: int) -> bool {
        &&& 0 <= parent < self.len()
        &&& parent < at <= self.jump[parent]
        &&& at < self.jump[parent] ==> self.parent_position(parents, at) == parent
    }

    /// The end of the subtree at position `a` once a node is put at `at`
    /// under the node at `parent`; `a` counts positions after that.
    pub open spec fn jump_after(&self, parent: int, at: int, a: int) -> int {
        if a < at {
            if a <= parent && self.jump[a] > parent {
                self.jump[a] + 1
            } else {
                self.jump[a] as int
            }
        } else if a == at {
            at + 1
        } else {
            self.jump[a - 1] + 1
        }
    }

    /// `self` is `before` with the node `id` put at position `at`, as a child
    /// of the node at position `parent`.
    pub open spec fn is_with_child(&self, before: Layout, parent: int, at: int, id: int) -> bool {
        &&& self.order@ == before.order@.insert(at, id as usize)
        &&& self.jump.len() == before.jump.len() + 1
        &&& forall|a: int|
            0 <= a < self.jump.len() ==> #[trigger] self.jump[a] == before.jump_after(parent, at, a)
        &&& self.placed@ == before.placed@.update(id, true)
        &&& self.position.len() == before.position.len()
        &&& forall|k: int|
            0 <= k < self.position.len() ==> #[trigger] self.position[k] == if k == id {
                at as usize
            } else if before.placed[k] && before.position[k] >= at {
                (before.position[k] + 1) as usize
            } else {
                before.position[k]
            }
    }

    /// Size of the subtree of the node `id`.
    pub open spec fn size_of(&self, id: int) -> int {
        self.jump[self.position[id] as int] - self.position[id]
    }

    /// The sizes of the subtrees by node.
    pub open spec fn sizes(&self) -> Seq<usize> {
        Seq::new(self.position.len() as nat, |id: int| self.size_of(id) as usize)
    }

    /// Of two children of one node, the first has the larger subtree, or one
    /// as large and the smaller key.
    pub open spec fn siblings_sorted(&self, parents: Seq<usize>, keys: Seq<usize>) -> bool {
        self.sorted_by(parents, self.sizes(), keys)
    }

    /// Of two children of one node, the first comes before the second by
    /// `sizes` and `keys`.
    pub open spec fn sorted_by(&self, parents: Seq<usize>, sizes: Seq<usize>, keys: Seq<usize>)
        -> bool {
        forall|x: int, y: int|
            1 <= x < y < self.len() && parents[#[trigger] self.order[x] as int]
                == parents[#[trigger] self.order[y] as int] ==> ranks_before(
                sizes,
                keys,
                self.order[x] as int,
                self.order[y] as int,
            )
    }

    /// The node `id` has in `self` the part of its subtree in `first` that
    /// lies before position `limit` of `first`.
    pub open spec fn tracks(&self, first: Layout, limit: int, id: int) -> bool {
        let a = first.position[id] as int;
        let end = if first.jump[a] <= limit {
            first.jump[a] as int
        } else {
            limit
        };
        self.size_of(id) == end - a
    }

    /// The subtree of `u` holds `v` in `self` where it does so in `first`.
    pub open spec fn agrees(&self, first: Layout, u: int, v: int) -> bool {
        self.encloses(self.position[u] as int, self.position[v] as int) <==> first.encloses(
            first.position[u] as int,
            first.position[v] as int,
        )
    }

    /// `self` holds the nodes of the first `limit` positions of `first`, with
    /// the same subtrees among them.
    pub open spec fn follows(&self, first: Layout, limit: int) -> bool {
        &&& forall|id: int|
            0 <= id < self.placed.len() && self.placed[id] ==> #[trigger] self.tracks(
                first,
                limit,
                id,
            )
        &&& forall|u: int, v: int|
            0 <= u < self.placed.len() && 0 <= v < self.placed.len() && self.placed[u]
                && self.placed[v] ==> #[trigger] self.agrees(first, u, v)
    }

    /// The sizes of the subtrees by node.
    pub fn subtree_sizes(&self, parents: &Vec<usize>) -> (sizes: Vec<usize>)
        requires
            self.wf(parents@),
            forall|id: int| 0 <= id < parents.len() ==> #[trigger] self.placed[id],
        ensures
            sizes.len() == parents.len(),
            forall|id: int| 0 <= id < parents.len() ==> #[trigger] sizes[id] == self.size_of(id),
    {
        let mut sizes: Vec<usize> = Vec::new();
        let mut id: usize = 0;
        while id < parents.len()
            invariant
                id <= parents.len(),
                self.wf(parents@),
                forall|id: int| 0 <= id < parents.len() ==> #[trigger] self.placed[id],
                sizes.len() == id,
                forall|k: int| 0 <= k < id ==> #[trigger] sizes[k] == self.size_of(k),
            decreases parents.len() - id,
        {
            proof {
                assert(self.placed[id as int]);
            }
            let at = self.position[id];
            sizes.push(self.jump[at] - at);
            id += 1;
        }
        sizes
    }

    /// The layout of the root alone, for a tree of `parents.len()` nodes.
    pub fn new(parents: &Vec<usize>) -> (layout: Self)
        requires
            1 <= parents.len() < usize::MAX,
        ensures
            layout.wf(parents@),
            layout.len() == 1,
            forall|id: int| 0 <= id < parents.len() ==> layout.placed[id] == (id == 0),
    {
        let mut position: Vec<usize> = Vec::new();
        let mut placed: Vec<bool> = Vec::new();
        let mut id: usize = 0;
        while id < parents.len()
            invariant
                id <= parents.len(),
                position.len() == id,
                placed.len() == id,
                forall|k: int| 0 <= k < id ==> #[trigger] placed[k] == (k == 0),
                forall|k: int| 0 <= k < id ==> #[trigger] position[k] == 0,
            decreases parents.len() - id,
        {
            position.push(0);
            placed.push(id == 0);
            id += 1;
        }
        let mut order: Vec<usize> = Vec::new();
        order.push(0);
        let mut jump: Vec<usize> = Vec::new();
        jump.push(1);
        Layout { order, jump, position, placed }
    }

    /// Puts the node `id` at position `at`, as a child of the node at
    /// position `parent`.
    pub fn insert_child(&mut self, parents: &Vec<usize>, parent: usize, at: usize, id: usize)
        requires
            old(self).wf(parents@),
            old(self).is_child_boundary(parents@, parent as int, at as int),
            id < parents.len(),
            !old(self).placed[id as int],
            parents[id as int] == old(self).order[parent as int],
        ensures
            final(self).wf(parents@),
            final(self).is_with_child(*old(self), parent as int, at as int, id as int),
    {
        let ghost before = *self;
        let len = self.order.len();
        proof {
            lemma_room_to_place(before, parents@, id as int);
        }
        let mut jump: Vec<usize> = Vec::new();
        let mut a: usize = 0;
        while a <= len
            invariant
                before.wf(parents@),
                len == before.order.len(),
                len < parents.len(),
                parent < at <= len,
                a <= len + 1,
                jump.len() == a,
                self.jump == before.jump,
                forall|k: int|
                    0 <= k < a ==> #[trigger] jump[k] == before.jump_after(
                        parent as int,
                        at as int,
                        k,
                    ),
            decreases len + 1 - a,
        {
            if a < at {
                if a <= parent && self.jump[a] > parent {
                    jump.push(self.jump[a] + 1);
                } else {
                    jump.push(self.jump[a]);
                }
            } else if a == at {
                jump.push(at + 1);
            } else {
                jump.push(self.jump[a - 1] + 1);
            }
            a += 1;
        }
        self.jump = jump;
        self.order.insert(at, id);
        let ghost moved = *self;
        let mut k: usize = 0;
        while k < self.position.len()
            invariant
                before.wf(parents@),
                k <= self.position.len(),
                self.position.len() == before.position.len(),
                self.placed == before.placed,
                self.order == moved.order,
                self.jump == moved.jump,
                at <= len,
                len == before.order.len(),
                len < parents.len(),
                forall|j: int|
                    0 <= j < k ==> #[trigger] self.position[j] == if before.placed[j]
                        && before.position[j] >= at {
                        (before.position[j] + 1) as usize
                    } else {
                        before.position[j]
                    },
                forall|j: int| k <= j < self.position.len() ==> self.position[j] == before.position[j],
            decreases self.position.len() - k,
        {
            if self.placed[k] && self.position[k] >= at {
                self.position[k] = self.position[k] + 1;
            }
            k += 1;
        }
        self.position[id] = at;
        self.placed[id] = true;
        proof {
            lemma_insert_keeps_wf(before, *self, parents@, parent as int, at as int, id as int);
        }
    }
}

/// The nodes of the tree in pre-order, each node behind the earlier
/// children of its parent: nothing where the parents describe no tree.
pub fn arrange_by_traversal_pre_order(parents: &Vec<usize>) -> (arranged: Option<Layout>)
    requires
        1 <= parents.len() < usize::MAX,
        forall|id: int| 0 <= id < parents.len() ==> #[trigger] parents[id] < parents.len(),
    ensures
        arranged is Some <==> is_tree(parents@),
        arranged is Some ==> {
            let layout = arranged.unwrap();
            &&& layout.wf(parents@)
            &&& layout.len() == parents.len()
            &&& forall|id: int| 0 <= id < parents.len() ==> #[trigger] layout.placed[id]
        },
{
    let count = parents.len();
    let mut layout = Layout::new(parents);
    let mut done = false;
    proof {
        assert(reaches_root(parents@, 0, 0));
    }
    while !done
        invariant
            count == parents.len(),
            1 <= count < usize::MAX,
            forall|id: int| 0 <= id < parents.len() ==> #[trigger] parents[id] < parents.len(),
            layout.wf(parents@),
            forall|id: int| 0 <= id < count && #[trigger] layout.placed[id] ==> rooted(parents@, id),
            done ==> forall|id: int|
                1 <= id < count ==> #[trigger] layout.placed[id] || !layout.placed[parents[id] as int],
        decreases count - layout.len(), if done { 0int } else { 1int },
    {
        let ghost start = layout.len();
        let mut progress = false;
        let mut id: usize = 1;
        while id < count
            invariant
                count == parents.len(),
                1 <= id <= count < usize::MAX,
                forall|id: int| 0 <= id < parents.len() ==> #[trigger] parents[id] < parents.len(),
                layout.wf(parents@),
                forall|id: int|
                    0 <= id < count && #[trigger] layout.placed[id] ==> rooted(parents@, id),
                progress ==> layout.len() > start,
                !progress ==> layout.len() == start,
                !progress ==> forall|k: int|
                    1 <= k < id ==> #[trigger] layout.placed[k] || !layout.placed[parents[k] as int],
            decreases count - id,
        {
            if !layout.placed[id] && layout.placed[parents[id]] {
                let parent = layout.position[parents[id]];
                let at = layout.jump[parent];
                proof {
                    let above = parents[id as int] as int;
                    let steps = choose|steps: nat| reaches_root(parents@, above, steps);
                    assert(reaches_root(parents@, id as int, steps + 1));
                    assert(rooted(parents@, id as int));
                }
                let ghost before = layout;
                layout.insert_child(parents, parent, at, id);
                progress = true;
                proof {
                    assert forall|k: int| 0 <= k < count && #[trigger] layout.placed[k] implies rooted(
                        parents@,
                        k,
                    ) by {
                        if k != id {
                            assert(before.placed[k]);
                        }
                    }
                }
            }
            id += 1;
        }
        if !progress {
            done = true;
        }
    }
    let mut all = true;
    let mut id: usize = 0;
    while id < count
        invariant
            id <= count,
            count == parents.len(),
            layout.placed.len() == count,
            all == forall|k: int| 0 <= k < id ==> #[trigger] layout.placed[k],
        decreases count - id,
    {
        if !layout.placed[id] {
            all = false;
        }
        id += 1;
    }
    if all {
        proof {
            let places = Seq::new(count as nat, |k: int| layout.position[k] as int);
            assert forall|i: int, j: int| 0 <= i < j < places.len() implies places[i] != places[j] by {
                assert(layout.placed[i] && layout.placed[j]);
            }
            assert forall|i: int| 0 <= i < places.len() implies 0 <= #[trigger] places[i]
                < layout.len() by {
                assert(layout.placed[i]);
            }
            lemma_injection_bound(places, layout.len());
            assert forall|k: int| 0 <= k < parents.len() implies #[trigger] rooted(parents@, k) by {
                assert(layout.placed[k]);
            }
        }
        Some(layout)
    } else {
        proof {
            let lost = choose|k: int| 0 <= k < count && !layout.placed[k];
            assert(layout.placed[layout.order[0] as int]);
            assert forall|steps: nat| !reaches_root(parents@, lost, steps) by {
                lemma_lost_stays_lost(layout, parents@, lost, steps);
            }
            assert(!rooted(parents@, lost));
        }
        None
    }
}

/// Where no node that is not placed has a placed parent, none of them
/// arrives at the root.
proof fn lemma_lost_stays_lost(layout: Layout, parents: Seq<usize>, id: int, steps: nat)
    requires
        layout.placed.len() == parents.len(),
        layout.placed[0],
        forall|id: int| 0 <= id < parents.len() ==> #[trigger] parents[id] < parents.len(),
        forall|k: int|
            1 <= k < parents.len() ==> #[trigger] layout.placed[k] || !layout.placed[parents[k] as int],
        0 <= id < parents.len(),
        !layout.placed[id],
    ensures
        !reaches_root(parents, id, steps),
    decreases steps,
{
    if steps > 0 {
        assert(layout.placed[id] || !layout.placed[parents[id] as int]);
        lemma_lost_stays_lost(layout, parents, parents[id] as int, (steps - 1) as nat);
    }
}

/// Node `x` comes before its sibling `y`: it has the larger subtree, or one
/// as large and the smaller key.
pub open spec fn ranks_before(sizes: Seq<usize>, keys: Seq<usize>, x: int, y: int) -> bool {
    sizes[x] > sizes[y] || (sizes[x] == sizes[y] && keys[x] < keys[y])
}

/// No two nodes have one key.
pub open spec fn distinct(keys: Seq<usize>) -> bool {
    forall|i: int, j: int| 0 <= i < j < keys.len() ==> keys[i] != keys[j]
}

/// Whether node `x` comes before its sibling `y`.
fn comes_before(sizes: &Vec<usize>, keys: &Vec<usize>, x: usize, y: usize) -> (before: bool)
    requires
        x < sizes.len(),
        y < sizes.len(),
        sizes.len() == keys.len(),
    ensures
        before == ranks_before(sizes@, keys@, x as int, y as int),
{
    sizes[x] > sizes[y] || (sizes[x] == sizes[y] && keys[x] < keys[y])
}

/// The nodes of the tree in pre-order, the children of each node by
/// descending size of their subtrees, and by ascending key where the
/// subtrees are as large. `first` is any pre-order of the tree, from which
/// the sizes are taken.
pub fn arrange_largest_subtrees(first: &Layout, parents: &Vec<usize>, keys: &Vec<usize>) -> (second:
    Layout)
    requires
        first.wf(parents@),
        first.len() == parents.len(),
        forall|id: int| 0 <= id < parents.len() ==> #[trigger] first.placed[id],
        keys.len() == parents.len(),
        distinct(keys@),
    ensures
        second.wf(parents@),
        second.len() == parents.len(),
        forall|id: int| 0 <= id < parents.len() ==> #[trigger] second.placed[id],
        forall|id: int| 0 <= id < parents.len() ==> #[trigger] second.size_of(id) == first.size_of(id),
        second.siblings_sorted(parents@, keys@),
{
    let count = parents.len();
    let sizes = first.subtree_sizes(parents);
    let mut second = Layout::new(parents);
    let mut i: usize = 1;
    proof {
        assert(first.position[first.order[0] as int] == 0);
        assert forall|id: int| 0 <= id < count implies #[trigger] second.placed[id] == (
        first.position[id] < 1) by {
            assert(first.placed[id]);
        }
    }
    while i < count
        invariant
            1 <= i <= count,
            count == parents.len(),
            first.wf(parents@),
            first.len() == count,
            forall|id: int| 0 <= id < count ==> #[trigger] first.placed[id],
            keys.len() == count,
            distinct(keys@),
            sizes.len() == count,
            forall|id: int| 0 <= id < count ==> #[trigger] sizes[id] == first.size_of(id),
            second.wf(parents@),
            second.len() == i,
            forall|id: int| 0 <= id < count ==> #[trigger] second.placed[id] == (first.position[id] < i),
            second.follows(*first, i as int),
            second.sorted_by(parents@, sizes@, keys@),
        decreases count - i,
    {
        let id = first.order[i];
        let above = parents[id];
        proof {
            assert(first.below_parent(parents@, i as int));
            assert(first.position[id as int] == i);
            assert(second.placed[above as int]);
            lemma_first_child(second, parents@, second.position[above as int] as int);
        }
        let parent = second.position[above];
        let mut at = parent + 1;
        while at < second.jump[parent] && comes_before(&sizes, keys, second.order[at], id)
            invariant
                second.wf(parents@),
                sizes.len() == count,
                keys.len() == count,
                count == parents.len(),
                id < count,
                second.is_child_boundary(parents@, parent as int, at as int),
                forall|x: int|
                    parent < x < at && parents[#[trigger] second.order[x] as int]
                        == second.order[parent as int] ==> ranks_before(
                        sizes@,
                        keys@,
                        second.order[x] as int,
                        id as int,
                    ),
            decreases second.jump[parent as int] - at,
        {
            proof {
                lemma_next_boundary(second, parents@, parent as int, at as int);
            }
            at = second.jump[at];
        }
        let ghost before = second;
        second.insert_child(parents, parent, at, id);
        proof {
            assert forall|k: int| 0 <= k < count implies #[trigger] second.placed[k] == (
            first.position[k] < i + 1) by {
                assert(first.placed[k]);
                assert(before.placed[k] == (first.position[k] < i));
            }
            lemma_insert_follows(before, second, *first, parents@, parent as int, at as int, i as int);
            lemma_insert_sorted(
                before,
                second,
                parents@,
                sizes@,
                keys@,
                parent as int,
                at as int,
                id as int,
            );
        }
        i += 1;
    }
    proof {
        assert forall|id: int| 0 <= id < parents.len() implies #[trigger] second.placed[id] by {
            assert(first.placed[id]);
        }
        assert forall|id: int| 0 <= id < parents.len() implies #[trigger] second.size_of(id)
            == first.size_of(id) by {
            assert(second.placed[id]);
            assert(first.placed[id]);
            assert(second.tracks(*first, count as int, id));
        }
        assert forall|x: int, y: int|
            1 <= x < y < second.len() && parents[#[trigger] second.order[x] as int]
                == parents[#[trigger] second.order[y] as int] implies ranks_before(
            second.sizes(),
            keys@,
            second.order[x] as int,
            second.order[y] as int,
        ) by {
            let u = second.order[x] as int;
            let v = second.order[y] as int;
            assert(second.size_of(u) == first.size_of(u));
            assert(second.size_of(v) == first.size_of(v));
            assert(ranks_before(sizes@, keys@, u, v));
        }
    }
    second
}

/// Right behind a node stands its first child, or its subtree ends there.
proof fn lemma_first_child(layout: Layout, parents: Seq<usize>, parent: int)
    requires
        layout.wf(parents),
        0 <= parent < layout.len(),
    ensures
        layout.is_child_boundary(parents, parent, parent + 1),
{
    if parent + 1 < layout.jump[parent] {
        assert(layout.below_parent(parents, parent + 1));
        if layout.parent_position(parents, parent + 1) < parent {
            assert(layout.encloses(parent, parent + 1));
        }
    }
}

/// Behind the subtree of a child of a node stands the next child of that
/// node, or its subtree ends there; within the subtree of the child stands
/// no child of the node.
proof fn lemma_next_boundary(layout: Layout, parents: Seq<usize>, parent: int, at: int)
    requires
        layout.wf(parents),
        layout.is_child_boundary(parents, parent, at),
        at < layout.jump[parent],
    ensures
        layout.is_child_boundary(parents, parent, layout.jump[at] as int),
        forall|x: int|
            at < x < layout.jump[at] ==> parents[#[trigger] layout.order[x] as int]
                != layout.order[parent],
{
    let next = layout.jump[at] as int;
    assert(layout.jump[at] <= layout.jump[parent]);
    assert forall|x: int| at < x < next implies parents[#[trigger] layout.order[x] as int]
        != layout.order[parent] by {
        assert(layout.below_parent(parents, x));
        let above = layout.parent_position(parents, x);
        if above < at {
            assert(layout.encloses(at, x));
        }
        assert(layout.position[layout.order[parent] as int] == parent);
    }
    if next < layout.jump[parent] {
        assert(layout.below_parent(parents, next));
        let above = layout.parent_position(parents, next);
        if above < parent {
            assert(layout.encloses(parent, next));
        } else if parent < above < at {
            assert(layout.encloses(above, at));
        } else if at <= above {
            assert(layout.jump[above] <= layout.jump[at]);
        }
    }
}

/// A layout that lacks a node has fewer nodes than the tree.
proof fn lemma_room_to_place(layout: Layout, parents: Seq<usize>, id: int)
    requires
        layout.places_wf(parents),
        0 <= id < parents.len(),
        !layout.placed[id],
    ensures
        layout.len() < parents.len(),
{
    let nodes = Seq::new(layout.order.len() as nat, |a: int| layout.order[a] as int).push(id);
    assert forall|i: int, j: int| 0 <= i < j < nodes.len() implies nodes[i] != nodes[j] by {
        assert(layout.position[layout.order[i] as int] == i);
        if j < layout.order.len() {
            assert(layout.position[layout.order[j] as int] == j);
        }
    }
    lemma_injection_bound(nodes, parents.len() as int);
}

/// A layout with one more node, put where a child of its parent can be put,
/// is a layout.
proof fn lemma_insert_keeps_wf(
    before: Layout,
    after: Layout,
    parents: Seq<usize>,
    parent: int,
    at: int,
    id: int,
)
    requires
        before.wf(parents),
        before.is_child_boundary(parents, parent, at),
        0 <= id < parents.len(),
        !before.placed[id],
        parents[id] == before.order[parent],
        after.is_with_child(before, parent, at, id),
    ensures
        after.wf(parents),
{
    lemma_room_to_place(before, parents, id);
    assert forall|b: int| parent < b < at implies #[trigger] before.jump[b] <= at by {
        if at < before.jump[parent] {
            assert(before.parent_position(parents, at) == parent);
            assert(!before.encloses(b, at));
        } else {
            assert(before.jump[b] <= before.jump[parent]);
        }
    }
    assert forall|a: int| 0 <= a <= parent && #[trigger] before.jump[a] > parent implies before.jump[a]
        >= at by {
        if a < parent {
            assert(before.jump[parent] <= before.jump[a]);
        }
    }
    assert(after.places_wf(parents)) by {
        assert forall|a: int| 0 <= a < after.order.len() implies {
            &&& #[trigger] after.order[a] < parents.len()
            &&& after.placed[after.order[a] as int]
            &&& after.position[after.order[a] as int] == a
        } by {
            if a < at {
                assert(after.order[a] == before.order[a]);
            } else if a > at {
                assert(after.order[a] == before.order[a - 1]);
            }
        }
        assert forall|k: int| 0 <= k < parents.len() && #[trigger] after.placed[k] implies {
            &&& after.position[k] < after.order.len()
            &&& after.order[after.position[k] as int] == k
        } by {
            if k != id {
                assert(before.placed[k]);
            }
        }
    }
    assert(after.jumps_wf()) by {
        assert forall|a: int, b: int|
            0 <= a < b < after.jump.len() && b < #[trigger] after.jump[a] implies #[trigger] after.jump[b]
            <= after.jump[a] by {
            let a_was = if a < at { a } else { a - 1 };
            let b_was = if b < at { b } else { b - 1 };
            if a != at && b != at {
                assert(before.jump[b_was] <= before.jump[a_was] || b_was >= before.jump[a_was]);
            }
        }
    }
    assert forall|a: int| 1 <= a < after.order.len() implies #[trigger] after.below_parent(
        parents,
        a,
    ) by {
        if a == at {
            assert(after.order[a] == id);
            assert(before.position[before.order[parent] as int] == parent);
            assert(after.parent_position(parents, a) == parent);
        } else {
            lemma_parent_moves(before, after, parents, parent, at, id, a);
        }
    }
    assert forall|a: int, b: int|
        1 <= a < after.order.len() && after.parent_position(parents, a) < b
            < a implies !#[trigger] after.encloses(b, a) by {
        if a == at {
            assert(after.order[a] == id);
            assert(before.position[before.order[parent] as int] == parent);
            assert(after.parent_position(parents, a) == parent);
            assert(before.jump[b] <= at);
        } else if b != at {
            lemma_parent_moves(before, after, parents, parent, at, id, a);
            let a_was = if a < at { a } else { a - 1 };
            let b_was = if b < at { b } else { b - 1 };
            let parent_was = before.parent_position(parents, a_was);
            assert(before.below_parent(parents, a_was));
            assert(parent_was < b_was < a_was);
            assert(!before.encloses(b_was, a_was));
            if b < at && a < at && b <= parent && before.jump[b] > parent {
                assert(before.jump[b] >= at);
            }
        }
    }
}

/// The parent of a node that was placed before stands where it stood, or
/// one further where it stood at or behind the new node.
proof fn lemma_parent_moves(
    before: Layout,
    after: Layout,
    parents: Seq<usize>,
    parent: int,
    at: int,
    id: int,
    a: int,
)
    requires
        before.wf(parents),
        before.is_child_boundary(parents, parent, at),
        0 <= id < parents.len(),
        !before.placed[id],
        parents[id] == before.order[parent],
        after.is_with_child(before, parent, at, id),
        1 <= a < after.order.len(),
        a != at,
        forall|b: int| parent < b < at ==> #[trigger] before.jump[b] <= at,
        forall|a: int|
            0 <= a <= parent && #[trigger] before.jump[a] > parent ==> before.jump[a] >= at,
    ensures
        ({
            let a_was = if a < at { a } else { a - 1 };
            let parent_was = before.parent_position(parents, a_was);
            let p = after.parent_position(parents, a);
            &&& 1 <= a_was < before.order.len()
            &&& p == if parent_was >= at { parent_was + 1 } else { parent_was }
            &&& parents[after.order[a] as int] < parents.len()
            &&& after.placed[parents[after.order[a] as int] as int]
            &&& p < a < after.jump[p]
        }),
{
    let a_was = if a < at { a } else { a - 1 };
    assert(after.order[a] == before.order[a_was]);
    let node = before.order[a_was] as int;
    let above = parents[node] as int;
    let parent_was = before.parent_position(parents, a_was);
    assert(before.below_parent(parents, a_was));
    assert(parent_was < a_was < before.jump[parent_was]);
    assert(before.placed[above]);
    assert(above != id);
    assert(before.position[above] == parent_was);
    let p = after.parent_position(parents, a);
    assert(p == after.position[above]);
    if parent_was < at && a > at {
        if parent_was > parent {
            assert(before.jump[parent_was] <= at);
        }
    }
}

/// A layout that follows another up to a position follows it one position
/// further once it holds the node of that position as well.
proof fn lemma_insert_follows(
    before: Layout,
    after: Layout,
    first: Layout,
    parents: Seq<usize>,
    parent: int,
    at: int,
    i: int,
)
    requires
        first.wf(parents),
        first.len() == parents.len(),
        forall|id: int| 0 <= id < parents.len() ==> #[trigger] first.placed[id],
        1 <= i < first.len(),
        before.wf(parents),
        after.wf(parents),
        before.is_child_boundary(parents, parent, at),
        after.is_with_child(before, parent, at, first.order[i] as int),
        parent == before.position[parents[first.order[i] as int] as int],
        forall|id: int|
            0 <= id < parents.len() ==> #[trigger] before.placed[id] == (first.position[id] < i),
        before.follows(first, i),
    ensures
        after.follows(first, i + 1),
{
    let id = first.order[i] as int;
    let above = parents[id] as int;
    assert(first.below_parent(parents, i));
    assert(first.position[id] == i);
    let top = first.position[above] as int;
    assert(before.placed[above]);
    assert forall|b: int| parent < b < at implies #[trigger] before.jump[b] <= at by {
        if at < before.jump[parent] {
            assert(!before.encloses(b, at));
        } else {
            assert(before.jump[b] <= before.jump[parent]);
        }
    }
    assert forall|a: int| 0 <= a <= parent && #[trigger] before.jump[a] > parent implies before.jump[a]
        >= at by {
        if a < parent {
            assert(before.jump[parent] <= before.jump[a]);
        }
    }
    // Which nodes hold the new node in their subtree.
    assert forall|u: int| 0 <= u < parents.len() && before.placed[u] implies (first.encloses(
        first.position[u] as int,
        i,
    ) <==> (before.position[u] <= parent && before.jump[before.position[u] as int] > parent)) by {
        let a = first.position[u] as int;
        let x = before.position[u] as int;
        assert(before.agrees(first, u, above));
        assert(first.placed[u] && first.placed[above]);
        assert(first.order[a] == u && first.order[top] == above);
        assert(before.order[x] == u && before.order[parent] == above);
        if first.encloses(a, i) {
            if top < a {
                assert(!first.encloses(a, i));
            }
            if a < top {
                assert(first.encloses(a, top));
            }
        }
        if x <= parent && before.jump[x] > parent {
            if x < parent {
                assert(before.encloses(x, parent));
                assert(first.encloses(a, top));
                assert(first.jump[top] <= first.jump[a]);
            }
        }
    }
    assert forall|u: int| 0 <= u < after.placed.len() && after.placed[u] implies #[trigger] after.tracks(
        first,
        i + 1,
        u,
    ) by {
        if u != id {
            assert(before.placed[u]);
            assert(before.tracks(first, i, u));
            let x = before.position[u] as int;
            let moved = after.position[u] as int;
            assert(after.jump[moved] == before.jump_after(parent, at, moved));
        } else {
            assert(after.jump[at] == before.jump_after(parent, at, at));
        }
    }
    assert forall|u: int, v: int|
        0 <= u < after.placed.len() && 0 <= v < after.placed.len() && after.placed[u]
            && after.placed[v] implies #[trigger] after.agrees(first, u, v) by {
        let xu = after.position[u] as int;
        let xv = after.position[v] as int;
        assert(after.jump[xu] == before.jump_after(parent, at, xu));
        if u != id && v != id {
            assert(before.placed[u] && before.placed[v]);
            assert(before.agrees(first, u, v));
        } else if u != id {
            assert(before.placed[u]);
        } else if v != id {
            assert(before.placed[v]);
        }
    }
}

/// A layout whose siblings stand in order keeps them in order with a node
/// put behind the siblings that come before it and before the others.
proof fn lemma_insert_sorted(
    before: Layout,
    after: Layout,
    parents: Seq<usize>,
    sizes: Seq<usize>,
    keys: Seq<usize>,
    parent: int,
    at: int,
    id: int,
)
    requires
        before.wf(parents),
        after.wf(parents),
        before.is_child_boundary(parents, parent, at),
        after.is_with_child(before, parent, at, id),
        0 <= id < parents.len(),
        !before.placed[id],
        parents[id] == before.order[parent],
        sizes.len() == parents.len(),
        keys.len() == parents.len(),
        distinct(keys),
        before.sorted_by(parents, sizes, keys),
        forall|x: int|
            parent < x < at && parents[#[trigger] before.order[x] as int] == before.order[parent]
                ==> ranks_before(sizes, keys, before.order[x] as int, id),
        at < before.jump[parent] ==> !ranks_before(sizes, keys, before.order[at] as int, id),
    ensures
        after.sorted_by(parents, sizes, keys),
{
    assert forall|x: int, y: int|
        1 <= x < y < after.len() && parents[#[trigger] after.order[x] as int]
            == parents[#[trigger] after.order[y] as int] implies ranks_before(
        sizes,
        keys,
        after.order[x] as int,
        after.order[y] as int,
    ) by {
        let x_was = if x < at { x } else { x - 1 };
        let y_was = if y < at { y } else { y - 1 };
        if x != at && y != at {
            assert(after.order[x] == before.order[x_was]);
            assert(after.order[y] == before.order[y_was]);
        } else if y == at {
            assert(after.order[x] == before.order[x]);
            assert(before.below_parent(parents, x));
            assert(before.position[before.order[parent] as int] == parent);
        } else {
            assert(after.order[y] == before.order[y_was]);
            assert(before.below_parent(parents, y_was));
            assert(before.position[before.order[parent] as int] == parent);
            let sibling = before.order[y_was] as int;
            let here = before.order[at] as int;
            assert(before.placed[sibling]);
            if y_was > at {
                assert(before.parent_position(parents, at) == parent);
                assert(before.below_parent(parents, at));
                assert(before.position[parents[here] as int] == parent);
                assert(before.placed[parents[here] as int]);
                assert(parents[here] == before.order[parent]);
                assert(ranks_before(sizes, keys, here, sibling));
            }
            assert(before.placed[here]);
        }
    }
}

} // verus!