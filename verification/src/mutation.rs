//! The host-tree mutations that a reconciliation plans, and what they do to
//! the children of the reconciled range.

use vstd::prelude::*;

verus! {

/// A child of the reconciled range.
#[derive(Clone, Copy, Debug, PartialEq, Eq)]
pub enum Handle {
    /// The node that stood at this position of the range before the plan ran.
    Rendered(usize),
    /// The node built for the new item at this index.
    Created(usize),
}

/// One step of a plan, for the host to carry out.
#[derive(Clone, Copy, Debug, PartialEq, Eq)]
pub enum Mutation {
    /// Drop every child of the container at once.
    Clear,
    /// Take rendered node `node` out of the container.
    Remove { node: usize },
    /// Refresh rendered node `node` with the new item `item`.
    Update { node: usize, item: usize },
    /// Put rendered node `node` just before `before`, or at the end of the
    /// range where there is no `before`.
    Move { node: usize, before: Option<Handle> },
    /// Build a node for the new item `item` and put it just before `before`,
    /// or at the end of the range where there is no `before`.
    Create { item: usize, before: Option<Handle> },
}

/// `nodes` with `node` put just before `before`, or last.
pub open spec fn inserted(nodes: Seq<Handle>, node: Handle, before: Option<Handle>) -> Seq<Handle> {
    match before {
        Some(anchor) => nodes.insert(nodes.index_of(anchor), node),
        None => nodes.push(node),
    }
}

/// `nodes` without `node`.
pub open spec fn detached(nodes: Seq<Handle>, node: Handle) -> Seq<Handle> {
    nodes.remove(nodes.index_of(node))
}

/// The reconciled range as a plan finds or leaves it, with a record of the
/// work done on it so far.
pub struct ChildList {
    /// The children, in document order.
    pub nodes: Seq<Handle>,
    /// The rendered nodes refreshed so far, each with the item it was given.
    pub refreshed: Map<int, int>,
    /// The new items for which a node was built.
    pub created: Set<int>,
    /// The rendered nodes taken out.
    pub removed: Set<int>,
    /// The rendered nodes put elsewhere.
    pub moved: Set<int>,
}

impl ChildList {
    /// The range holding `count` rendered nodes, with no work done.
    pub open spec fn rendered(count: nat) -> ChildList {
        ChildList {
            nodes: Seq::new(count, |i: int| Handle::Rendered(i as usize)),
            refreshed: Map::empty(),
            created: Set::empty(),
            removed: Set::empty(),
            moved: Set::empty(),
        }
    }

    /// Whether `step` can be carried out here: the host finds every node that
    /// the step names among the children, no node is refreshed or moved twice
    /// or moved before it is refreshed, and no item gets a second node.
    pub open spec fn accepts(self, step: Mutation) -> bool {
        match step {
            Mutation::Clear => true,
            Mutation::Remove { node } => self.nodes.contains(Handle::Rendered(node)),
            Mutation::Update { node, item } => {
                &&& self.nodes.contains(Handle::Rendered(node))
                &&& !self.refreshed.dom().contains(node as int)
            },
            Mutation::Move { node, before } => {
                &&& self.nodes.contains(Handle::Rendered(node))
                &&& self.refreshed.dom().contains(node as int)
                &&& !self.moved.contains(node as int)
                &&& before matches Some(anchor) ==> anchor != Handle::Rendered(node)
                    && self.nodes.contains(anchor)
            },
            Mutation::Create { item, before } => {
                &&& !self.nodes.contains(Handle::Created(item))
                &&& !self.created.contains(item as int)
                &&& before matches Some(anchor) ==> self.nodes.contains(anchor)
            },
        }
    }

    /// The range after `step`.
    pub open spec fn apply(self, step: Mutation) -> ChildList {
        match step {
            Mutation::Clear => ChildList {
                nodes: Seq::empty(),
                removed: self.removed.union(
                    Set::new(|i: int| 0 <= i <= usize::MAX && self.nodes.contains(Handle::Rendered(i as usize))),
                ),
                ..self
            },
            Mutation::Remove { node } => ChildList {
                nodes: detached(self.nodes, Handle::Rendered(node)),
                removed: self.removed.insert(node as int),
                ..self
            },
            Mutation::Update { node, item } => ChildList {
                refreshed: self.refreshed.insert(node as int, item as int),
                ..self
            },
            Mutation::Move { node, before } => ChildList {
                nodes: inserted(detached(self.nodes, Handle::Rendered(node)), Handle::Rendered(node), before),
                moved: self.moved.insert(node as int),
                ..self
            },
            Mutation::Create { item, before } => ChildList {
                nodes: inserted(self.nodes, Handle::Created(item), before),
                created: self.created.insert(item as int),
                ..self
            },
        }
    }

    /// Whether every step of `plan` can be carried out in turn, from here.
    pub open spec fn accepts_all(self, plan: Seq<Mutation>) -> bool
        decreases plan.len(),
    {
        plan.len() > 0 ==> self.accepts_all(plan.drop_last()) && self.apply_all(plan.drop_last()).accepts(
            plan.last(),
        )
    }

    /// The range after every step of `plan`, in turn.
    pub open spec fn apply_all(self, plan: Seq<Mutation>) -> ChildList
        decreases plan.len(),
    {
        if plan.len() == 0 {
            self
        } else {
            self.apply_all(plan.drop_last()).apply(plan.last())
        }
    }
}

/// Whether `x` stands somewhere before `y` in `nodes`.
pub open spec fn precedes(nodes: Seq<Handle>, x: Handle, y: Handle) -> bool {
    exists|a: int, b: int| 0 <= a < b < nodes.len() && nodes[a] == x && nodes[b] == y
}

/// One more step at the end of a plan is carried out on what the plan leaves.
pub proof fn lemma_plan_push(start: ChildList, plan: Seq<Mutation>, step: Mutation)
    ensures
        start.apply_all(plan.push(step)) == start.apply_all(plan).apply(step),
        start.accepts_all(plan.push(step)) == (start.accepts_all(plan) && start.apply_all(plan).accepts(
            step,
        )),
{
    assert(plan.push(step).drop_last() =~= plan);
}

/// Where nothing stands twice, a node is found at the place where it stands.
pub proof fn lemma_index_of(nodes: Seq<Handle>, at: int)
    requires
        nodes.no_duplicates(),
        0 <= at < nodes.len(),
    ensures
        nodes.index_of(nodes[at]) == at,
        nodes.contains(nodes[at]),
{
    let found = nodes.index_of(nodes[at]);
    assert(0 <= found < nodes.len() && nodes[found] == nodes[at]);
}

/// Taking a node out leaves the others as they stood.
pub proof fn lemma_detached(nodes: Seq<Handle>, node: Handle)
    requires
        nodes.no_duplicates(),
        nodes.contains(node),
    ensures
        detached(nodes, node).no_duplicates(),
        detached(nodes, node).len() == nodes.len() - 1,
        forall|y: Handle| #[trigger] detached(nodes, node).contains(y) <==> nodes.contains(y) && y != node,
        forall|y: Handle, z: Handle| #[trigger]
            precedes(detached(nodes, node), y, z) <==> precedes(nodes, y, z) && y != node && z != node,
{
    let at = nodes.index_of(node);
    assert(0 <= at < nodes.len() && nodes[at] == node);
    let rest = detached(nodes, node);
    assert forall|y: Handle| #[trigger] rest.contains(y) <==> nodes.contains(y) && y != node by {
        if rest.contains(y) {
            let k = choose|k: int| 0 <= k < rest.len() && rest[k] == y;
            if k < at {
                assert(nodes[k] == y);
            } else {
                assert(nodes[k + 1] == y);
            }
        }
        if nodes.contains(y) && y != node {
            let k = choose|k: int| 0 <= k < nodes.len() && nodes[k] == y;
            if k < at {
                assert(rest[k] == y);
            } else {
                assert(rest[k - 1] == y);
            }
        }
    }
    assert forall|y: Handle, z: Handle| #[trigger]
        precedes(rest, y, z) <==> precedes(nodes, y, z) && y != node && z != node by {
        if precedes(rest, y, z) {
            let (a, b) = choose|a: int, b: int| 0 <= a < b < rest.len() && rest[a] == y && rest[b] == z;
            let a0 = if a < at { a } else { a + 1 };
            let b0 = if b < at { b } else { b + 1 };
            assert(0 <= a0 < b0 < nodes.len() && nodes[a0] == y && nodes[b0] == z);
        }
        if precedes(nodes, y, z) && y != node && z != node {
            let (a, b) = choose|a: int, b: int| 0 <= a < b < nodes.len() && nodes[a] == y && nodes[b] == z;
            let a1 = if a < at { a } else { a - 1 };
            let b1 = if b < at { b } else { b - 1 };
            assert(0 <= a1 < b1 < rest.len() && rest[a1] == y && rest[b1] == z);
        }
    }
}

/// Putting a new node in leaves the others as they stood, and puts the node
/// just before its anchor: after all that stood before the anchor, before the
/// anchor and all that stood after it.
pub proof fn lemma_inserted(nodes: Seq<Handle>, node: Handle, before: Option<Handle>)
    requires
        nodes.no_duplicates(),
        !nodes.contains(node),
        before matches Some(anchor) ==> nodes.contains(anchor),
    ensures
        inserted(nodes, node, before).no_duplicates(),
        inserted(nodes, node, before).len() == nodes.len() + 1,
        forall|y: Handle| #[trigger] inserted(nodes, node, before).contains(y) <==> nodes.contains(y) || y == node,
        forall|y: Handle, z: Handle|
            y != node && z != node ==> (#[trigger] precedes(inserted(nodes, node, before), y, z) <==> precedes(
                nodes,
                y,
                z,
            )),
        forall|y: Handle| #[trigger]
            precedes(inserted(nodes, node, before), y, node) <==> nodes.contains(y) && match before {
                Some(anchor) => precedes(nodes, y, anchor),
                None => true,
            },
        forall|y: Handle| #[trigger]
            precedes(inserted(nodes, node, before), node, y) <==> match before {
                Some(anchor) => y == anchor || precedes(nodes, anchor, y),
                None => false,
            },
{
    let at = match before {
        Some(anchor) => nodes.index_of(anchor),
        None => nodes.len() as int,
    };
    if before is Some {
        assert(0 <= at < nodes.len() && nodes[at] == before->0);
    }
    let next = inserted(nodes, node, before);
    assert(next =~= nodes.insert(at, node));
    assert(next[at] == node);
    assert forall|i: int, j: int| 0 <= i < j < next.len() implies next[i] != next[j] by {
        let i0 = if i < at { i } else { i - 1 };
        let j0 = if j < at { j } else { j - 1 };
        if i != at && j != at {
            assert(nodes[i0] == next[i] && nodes[j0] == next[j]);
        } else if i == at {
            assert(nodes[j0] == next[j]);
        } else {
            assert(nodes[i0] == next[i]);
        }
    }
    assert forall|y: Handle| #[trigger] next.contains(y) <==> nodes.contains(y) || y == node by {
        if next.contains(y) && y != node {
            let k = choose|k: int| 0 <= k < next.len() && next[k] == y;
            let k0 = if k < at { k } else { k - 1 };
            assert(nodes[k0] == y);
        }
        if nodes.contains(y) {
            let k = choose|k: int| 0 <= k < nodes.len() && nodes[k] == y;
            let k1 = if k < at { k } else { k + 1 };
            assert(next[k1] == y);
        }
    }
    assert forall|y: Handle, z: Handle| y != node && z != node implies (#[trigger] precedes(next, y, z)
        <==> precedes(nodes, y, z)) by {
        if precedes(next, y, z) {
            let (a, b) = choose|a: int, b: int| 0 <= a < b < next.len() && next[a] == y && next[b] == z;
            let a0 = if a < at { a } else { a - 1 };
            let b0 = if b < at { b } else { b - 1 };
            assert(0 <= a0 < b0 < nodes.len() && nodes[a0] == y && nodes[b0] == z);
        }
        if precedes(nodes, y, z) {
            let (a, b) = choose|a: int, b: int| 0 <= a < b < nodes.len() && nodes[a] == y && nodes[b] == z;
            let a1 = if a < at { a } else { a + 1 };
            let b1 = if b < at { b } else { b + 1 };
            assert(0 <= a1 < b1 < next.len() && next[a1] == y && next[b1] == z);
        }
    }
    assert forall|y: Handle| #[trigger]
        precedes(next, y, node) <==> nodes.contains(y) && match before {
            Some(anchor) => precedes(nodes, y, anchor),
            None => true,
        } by {
        if precedes(next, y, node) {
            let (a, b) = choose|a: int, b: int| 0 <= a < b < next.len() && next[a] == y && next[b] == node;
            assert(b == at);
            assert(nodes[a] == y);
            if before is Some {
                assert(0 <= a < at < nodes.len() && nodes[a] == y && nodes[at] == before->0);
            }
        }
        if nodes.contains(y) && (before matches Some(anchor) ==> precedes(nodes, y, anchor)) {
            if before is Some {
                let (a, b) = choose|a: int, b: int|
                    0 <= a < b < nodes.len() && nodes[a] == y && nodes[b] == before->0;
                assert(b == at);
                assert(0 <= a < at < next.len() && next[a] == y && next[at] == node);
            } else {
                let a = choose|a: int| 0 <= a < nodes.len() && nodes[a] == y;
                assert(0 <= a < at < next.len() && next[a] == y && next[at] == node);
            }
        }
    }
    assert forall|y: Handle| #[trigger]
        precedes(next, node, y) <==> match before {
            Some(anchor) => y == anchor || precedes(nodes, anchor, y),
            None => false,
        } by {
        if precedes(next, node, y) {
            let (a, b) = choose|a: int, b: int| 0 <= a < b < next.len() && next[a] == node && next[b] == y;
            assert(a == at);
            assert(nodes[b - 1] == y);
            assert(before is Some);
            if b - 1 > at {
                assert(0 <= at < b - 1 < nodes.len() && nodes[at] == before->0 && nodes[b - 1] == y);
            }
        }
        if before is Some {
            let anchor = before->0;
            if y == anchor {
                assert(0 <= at < at + 1 < next.len() && next[at] == node && next[at + 1] == y);
            } else if precedes(nodes, anchor, y) {
                let (a, b) = choose|a: int, b: int|
                    0 <= a < b < nodes.len() && nodes[a] == anchor && nodes[b] == y;
                assert(a == at);
                assert(0 <= at < b + 1 < next.len() && next[at] == node && next[b + 1] == y);
            }
        }
    }
}

/// Two lists of the same nodes, none twice, in the same order, are one list.
pub proof fn lemma_same_order(nodes: Seq<Handle>, goal: Seq<Handle>)
    requires
        nodes.no_duplicates(),
        goal.no_duplicates(),
        forall|k: int| 0 <= k < nodes.len() ==> goal.contains(#[trigger] nodes[k]),
        forall|r: int| 0 <= r < goal.len() ==> nodes.contains(#[trigger] goal[r]),
        forall|a: int, b: int| 0 <= a < b < goal.len() ==> precedes(nodes, #[trigger] goal[a], #[trigger] goal[b]),
    ensures
        nodes == goal,
    decreases goal.len(),
{
    if goal.len() == 0 {
        if nodes.len() > 0 {
            assert(goal.contains(nodes[0]));
        }
        assert(nodes =~= goal);
    } else {
        let last = goal.last();
        let n = goal.len() - 1;
        assert(nodes.contains(goal[n]));
        let at = nodes.index_of(last);
        assert(0 <= at < nodes.len() && nodes[at] == last);
        // the last of the goal stands last
        if at < nodes.len() - 1 {
            let other = nodes[at + 1];
            assert(goal.contains(other));
            let r = choose|r: int| 0 <= r < goal.len() && goal[r] == other;
            assert(r != n);
            assert(precedes(nodes, goal[r], goal[n]));
            let (a, b) = choose|a: int, b: int| 0 <= a < b < nodes.len() && nodes[a] == other && nodes[b] == last;
            assert(b == at);
            assert(a == at + 1);
            assert(false);
        }
        let front = nodes.drop_last();
        let rest = goal.drop_last();
        assert(front =~= detached(nodes, last));
        lemma_detached(nodes, last);
        assert forall|k: int| 0 <= k < front.len() implies rest.contains(#[trigger] front[k]) by {
            assert(front[k] == nodes[k]);
            assert(goal.contains(nodes[k]));
            let r = choose|r: int| 0 <= r < goal.len() && goal[r] == nodes[k];
            assert(r != n);
            assert(rest[r] == nodes[k]);
        }
        assert forall|r: int| 0 <= r < rest.len() implies front.contains(#[trigger] rest[r]) by {
            assert(rest[r] == goal[r]);
            assert(nodes.contains(goal[r]));
        }
        assert forall|a: int, b: int| 0 <= a < b < rest.len() implies precedes(
            front,
            #[trigger] rest[a],
            #[trigger] rest[b],
        ) by {
            assert(rest[a] == goal[a] && rest[b] == goal[b]);
            assert(precedes(nodes, goal[a], goal[b]));
        }
        assert(rest.no_duplicates());
        lemma_same_order(front, rest);
        assert(nodes =~= front.push(last));
        assert(goal =~= rest.push(last));
    }
}

} // verus!
