//! The keyed-list reconciler: from the ids that are rendered and the ids that
//! are wanted, the plan of host-tree mutations that turns one into the other.

use crate::lis::{as_indices, is_increasing_run, longest_positive_increasing_subsequence};
use crate::mutation::{detached, inserted, precedes};
use crate::mutation::{lemma_detached, lemma_index_of, lemma_inserted, lemma_plan_push, lemma_same_order};
use crate::mutation::{ChildList, Handle, Mutation};
use std::collections::HashMap;
use std::collections::HashSet;
use vstd::prelude::*;

verus! {

broadcast use vstd::std_specs::hash::group_hash_axioms;

/// The children that a reconciliation leaves: for each new id in turn the node
/// that was rendered for it, or a node built for it where none was.
pub open spec fn arrangement(rendered: Seq<u64>, new: Seq<u64>) -> Seq<Handle> {
    Seq::new(
        new.len(),
        |j: int|
            if rendered.contains(new[j]) {
                Handle::Rendered(rendered.index_of(new[j]) as usize)
            } else {
                Handle::Created(j as usize)
            },
    )
}

/// The rendered nodes whose id is wanted again, each with the index of the new
/// item that has its id.
pub open spec fn kept(rendered: Seq<u64>, new: Seq<u64>) -> Map<int, int> {
    Map::new(
        |i: int| 0 <= i < rendered.len() && new.contains(rendered[i]),
        |i: int| new.index_of(rendered[i]),
    )
}

/// The new items whose id was not rendered.
pub open spec fn fresh(rendered: Seq<u64>, new: Seq<u64>) -> Set<int> {
    Set::new(|j: int| 0 <= j < new.len() && !rendered.contains(new[j]))
}

/// The rendered nodes whose id is wanted no more.
pub open spec fn dropped(rendered: Seq<u64>, new: Seq<u64>) -> Set<int> {
    Set::new(|i: int| 0 <= i < rendered.len() && !new.contains(rendered[i]))
}

/// What a reconciliation leaves: the children stand as the new ids want them,
/// every rendered node whose id is wanted again was refreshed with the item
/// that has its id, a node was built for every item whose id was not
/// rendered and for no other, the rendered nodes whose id is wanted no more
/// were taken out and no others, and only nodes that stay were moved.
pub open spec fn reconciled(rendered: Seq<u64>, new: Seq<u64>, end: ChildList) -> bool {
    &&& end.nodes == arrangement(rendered, new)
    &&& end.refreshed == kept(rendered, new)
    &&& end.created == fresh(rendered, new)
    &&& end.removed == dropped(rendered, new)
    &&& end.moved.subset_of(kept(rendered, new).dom())
}

/// For each new item the place among the rendered nodes of the node that has
/// its id, or -1 where none has.
pub open spec fn wanted_positions(rendered: Seq<u64>, new: Seq<u64>) -> Seq<isize> {
    Seq::new(
        new.len(),
        |j: int|
            if rendered.contains(new[j]) {
                rendered.index_of(new[j]) as isize
            } else {
                -1isize
            },
    )
}

/// The number of the new items `from..to` whose id is rendered.
pub open spec fn kept_between(rendered: Seq<u64>, new: Seq<u64>, from: int, to: int) -> int
    decreases to - from,
{
    if to <= from {
        0
    } else {
        kept_between(rendered, new, from + 1, to) + if rendered.contains(new[from]) {
            1int
        } else {
            0int
        }
    }
}

/// The number of nodes at the head of the rendered list that have, one after
/// another, the ids of the items at the head of the new list.
pub open spec fn common_prefix(rendered: Seq<u64>, new: Seq<u64>) -> int {
    head_matches(rendered, new, 0, rendered.len() as int, 0, new.len() as int)
}

/// The number of nodes at the tail of the rendered list, behind the common
/// prefix, that have, one before another, the ids of the items at the tail
/// of the new list.
pub open spec fn common_suffix(rendered: Seq<u64>, new: Seq<u64>) -> int {
    tail_matches(
        rendered,
        new,
        common_prefix(rendered, new),
        rendered.len() as int,
        common_prefix(rendered, new),
        new.len() as int,
    )
}

/// Whether, between the common prefix and the common suffix, nothing is
/// wanted at the other end: a list has nothing left there, or the last node
/// left is not wanted first and the first node left is not wanted last.
pub open spec fn uncrossed(rendered: Seq<u64>, new: Seq<u64>) -> bool {
    let lo = common_prefix(rendered, new);
    let back = common_suffix(rendered, new);
    ||| lo == rendered.len() - back
    ||| lo == new.len() - back
    ||| rendered[rendered.len() - back - 1] != new[lo] && rendered[lo] != new[new.len() - back - 1]
}

/// What a reconciliation keeps to in moving nodes. No node of the common
/// prefix or of the common suffix is moved. And where nothing between them
/// is wanted at the other end, at most as many nodes are moved as are kept
/// between them, less the length of any run, and so of a longest run, of
/// rising wanted positions there.
pub open spec fn sparing(rendered: Seq<u64>, new: Seq<u64>, end: ChildList) -> bool {
    let lo = common_prefix(rendered, new);
    let back = common_suffix(rendered, new);
    &&& end.moved.finite()
    &&& forall|i: int| #[trigger] end.moved.contains(i) ==> lo <= i < rendered.len() - back
    &&& uncrossed(rendered, new) ==> forall|run: Seq<int>| #[trigger]
        is_increasing_run(wanted_positions(rendered, new), lo, new.len() - back, run) ==> end.moved.len()
            + run.len() <= kept_between(rendered, new, lo, new.len() - back)
}

/// Whether no step of `plan` clears the container.
pub open spec fn clear_free(plan: Seq<Mutation>) -> bool {
    forall|k: int| 0 <= k < plan.len() ==> !(#[trigger] plan[k] is Clear)
}

/// The rendered nodes `from..to`, in order.
spec fn stretch(from: int, to: int) -> Seq<Handle> {
    Seq::new((to - from) as nat, |k: int| Handle::Rendered((from + k) as usize))
}

/// The indices `from..to`.
spec fn span(from: int, to: int) -> Set<int> {
    Set::new(|i: int| from <= i < to)
}

proof fn lemma_id_found(ids: Seq<u64>, at: int)
    requires
        ids.no_duplicates(),
        0 <= at < ids.len(),
    ensures
        ids.contains(ids[at]),
        ids.index_of(ids[at]) == at,
{
    let found = ids.index_of(ids[at]);
    assert(0 <= found < ids.len() && ids[found] == ids[at]);
}

proof fn lemma_id_index(ids: Seq<u64>, id: u64)
    requires
        ids.contains(id),
    ensures
        0 <= ids.index_of(id) < ids.len(),
        ids[ids.index_of(id)] == id,
{
}

/// A rendered node and a new item with one id belong together.
proof fn lemma_match(rendered: Seq<u64>, new: Seq<u64>, i: int, j: int)
    requires
        rendered.no_duplicates(),
        new.no_duplicates(),
        rendered.len() <= usize::MAX,
        0 <= i < rendered.len(),
        0 <= j < new.len(),
        rendered[i] == new[j],
    ensures
        rendered.contains(new[j]),
        new.contains(rendered[i]),
        rendered.index_of(new[j]) == i,
        new.index_of(rendered[i]) == j,
        arrangement(rendered, new)[j] == Handle::Rendered(i as usize),
{
    lemma_id_found(rendered, i);
    lemma_id_found(new, j);
}

/// No node is wanted at two places.
proof fn lemma_arrangement_distinct(rendered: Seq<u64>, new: Seq<u64>)
    requires
        rendered.no_duplicates(),
        new.no_duplicates(),
        rendered.len() <= usize::MAX,
        new.len() <= usize::MAX,
    ensures
        arrangement(rendered, new).no_duplicates(),
{
    let goal = arrangement(rendered, new);
    assert forall|a: int, b: int| 0 <= a < b < goal.len() implies goal[a] != goal[b] by {
        if rendered.contains(new[a]) {
            lemma_id_index(rendered, new[a]);
        }
        if rendered.contains(new[b]) {
            lemma_id_index(rendered, new[b]);
        }
    }
}

/// Takes the rendered nodes `from..to` out, one by one.
fn discard_rest(
    plan: &mut Vec<Mutation>,
    from: usize,
    to: usize,
    Ghost(start): Ghost<ChildList>,
    Ghost(head): Ghost<Seq<Handle>>,
    Ghost(tail): Ghost<Seq<Handle>>,
)
    requires
        from <= to,
        start.accepts_all(old(plan)@),
        start.apply_all(old(plan)@).nodes == head + stretch(from as int, to as int) + tail,
        start.apply_all(old(plan)@).nodes.no_duplicates(),
    ensures
        start.accepts_all(final(plan)@),
        start.apply_all(final(plan)@) == (ChildList {
            nodes: head + tail,
            removed: start.apply_all(old(plan)@).removed.union(span(from as int, to as int)),
            ..start.apply_all(old(plan)@)
        }),
        clear_free(old(plan)@) ==> clear_free(final(plan)@),
        final(plan)@.len() == old(plan)@.len() + (to - from),
        final(plan)@.subrange(0, old(plan)@.len() as int) == old(plan)@,
        forall|k: int|
            old(plan)@.len() <= k < final(plan)@.len() ==> #[trigger] final(plan)@[k] == (Mutation::Remove {
                node: (from + (k - old(plan)@.len())) as usize,
            }),
{
    let ghost first = start.apply_all(plan@);
    let ghost before = plan@;
    let mut i: usize = from;
    proof {
        assert(first.removed.union(span(from as int, from as int)) =~= first.removed);
        assert(plan@.subrange(0, before.len() as int) =~= before);
    }
    while i < to
        invariant
            from <= i <= to,
            start.accepts_all(plan@),
            start.apply_all(plan@) == (ChildList {
                nodes: head + stretch(i as int, to as int) + tail,
                removed: first.removed.union(span(from as int, i as int)),
                ..first
            }),
            start.apply_all(plan@).nodes.no_duplicates(),
            clear_free(before) ==> clear_free(plan@),
            plan@.len() == before.len() + (i - from),
            plan@.subrange(0, before.len() as int) == before,
            forall|k: int|
                before.len() <= k < plan@.len() ==> #[trigger] plan@[k] == (Mutation::Remove {
                    node: (from + (k - before.len())) as usize,
                }),
        decreases to - i,
    {
        let ghost cur = start.apply_all(plan@);
        let step = Mutation::Remove { node: i };
        proof {
            lemma_plan_push(start, plan@, step);
            let at = head.len() as int;
            assert(cur.nodes[at] == Handle::Rendered(i));
            lemma_index_of(cur.nodes, at);
            lemma_detached(cur.nodes, Handle::Rendered(i));
            assert(detached(cur.nodes, Handle::Rendered(i)) =~= head + stretch(i + 1, to as int) + tail);
            assert(cur.removed.insert(i as int) =~= first.removed.union(span(from as int, i + 1)));
            assert(plan@.push(step).subrange(0, before.len() as int) =~= plan@.subrange(0, before.len() as int));
        }
        plan.push(step);
        i += 1;
    }
    proof {
        assert(head + stretch(to as int, to as int) + tail =~= head + tail);
    }
}

/// Builds a node for each of the new items `from..to`, each put just before
/// `after`.
fn create_rest(
    plan: &mut Vec<Mutation>,
    from: usize,
    to: usize,
    after: Option<Handle>,
    Ghost(start): Ghost<ChildList>,
    Ghost(goal): Ghost<Seq<Handle>>,
)
    requires
        from <= to <= goal.len(),
        goal.no_duplicates(),
        forall|j: int| from <= j < to ==> #[trigger] goal[j] == Handle::Created(j as usize),
        after == if to < goal.len() { Some(goal[to as int]) } else { None },
        start.accepts_all(old(plan)@),
        start.apply_all(old(plan)@).nodes == goal.subrange(0, from as int) + goal.subrange(
            to as int,
            goal.len() as int,
        ),
        start.apply_all(old(plan)@).created.disjoint(span(from as int, to as int)),
    ensures
        start.accepts_all(final(plan)@),
        start.apply_all(final(plan)@) == (ChildList {
            nodes: goal,
            created: start.apply_all(old(plan)@).created.union(span(from as int, to as int)),
            ..start.apply_all(old(plan)@)
        }),
        clear_free(old(plan)@) ==> clear_free(final(plan)@),
        final(plan)@.len() == old(plan)@.len() + (to - from),
        final(plan)@.subrange(0, old(plan)@.len() as int) == old(plan)@,
        forall|k: int|
            old(plan)@.len() <= k < final(plan)@.len() ==> #[trigger] final(plan)@[k] == (Mutation::Create {
                item: (from + (k - old(plan)@.len())) as usize,
                before: after,
            }),
{
    let ghost first = start.apply_all(plan@);
    let ghost before = plan@;
    let ghost end = goal.len() as int;
    let mut j: usize = from;
    proof {
        assert(first.created.union(span(from as int, from as int)) =~= first.created);
        assert(plan@.subrange(0, before.len() as int) =~= before);
    }
    while j < to
        invariant
            from <= j <= to <= goal.len(),
            end == goal.len(),
            goal.no_duplicates(),
            forall|r: int| from <= r < to ==> #[trigger] goal[r] == Handle::Created(r as usize),
            after == if to < goal.len() { Some(goal[to as int]) } else { None },
            start.accepts_all(plan@),
            start.apply_all(plan@) == (ChildList {
                nodes: goal.subrange(0, j as int) + goal.subrange(to as int, end),
                created: first.created.union(span(from as int, j as int)),
                ..first
            }),
            first.created.disjoint(span(from as int, to as int)),
            clear_free(before) ==> clear_free(plan@),
            plan@.len() == before.len() + (j - from),
            plan@.subrange(0, before.len() as int) == before,
            forall|k: int|
                before.len() <= k < plan@.len() ==> #[trigger] plan@[k] == (Mutation::Create {
                    item: (from + (k - before.len())) as usize,
                    before: after,
                }),
        decreases to - j,
    {
        let ghost cur = start.apply_all(plan@);
        let step = Mutation::Create { item: j, before: after };
        proof {
            lemma_plan_push(start, plan@, step);
            let node = Handle::Created(j);
            assert(goal[j as int] == node);
            assert forall|k: int| 0 <= k < cur.nodes.len() implies cur.nodes[k] != node by {
                if k < j {
                    assert(cur.nodes[k] == goal[k]);
                } else {
                    assert(cur.nodes[k] == goal[k - j + to]);
                }
            }
            assert forall|a: int, b: int| 0 <= a < b < cur.nodes.len() implies cur.nodes[a] != cur.nodes[b] by {
                assert(cur.nodes[a] == goal[if a < j { a } else { a - j + to }]);
                assert(cur.nodes[b] == goal[if b < j { b } else { b - j + to }]);
            }
            assert(!first.created.contains(j as int)) by {
                assert(span(from as int, to as int).contains(j as int));
            }
            if to < goal.len() {
                assert(cur.nodes[j as int] == goal[to as int]);
                lemma_index_of(cur.nodes, j as int);
            }
            assert(inserted(cur.nodes, node, after) =~= goal.subrange(0, j + 1) + goal.subrange(to as int, end));
            assert(cur.created.insert(j as int) =~= first.created.union(span(from as int, j + 1)));
            assert(plan@.push(step).subrange(0, before.len() as int) =~= plan@.subrange(0, before.len() as int));
        }
        plan.push(step);
        j += 1;
    }
    proof {
        assert(goal.subrange(0, to as int) + goal.subrange(to as int, end) =~= goal);
    }
}

/// What of the two lists is still to be matched: the rendered nodes
/// `prev_start..prev_end` and the new items `new_start..new_end`. `after` is
/// the node that follows the new items still to be placed.
struct Window {
    prev_start: usize,
    prev_end: usize,
    new_start: usize,
    new_end: usize,
    after: Option<Handle>,
}

/// The state between two steps of trimming: every node and every item outside
/// the window has found its partner, the nodes inside stand as they were
/// rendered, between the items placed before them and those placed after.
spec fn trimmed(rendered: Seq<u64>, new: Seq<u64>, w: Window, cur: ChildList) -> bool {
    let goal = arrangement(rendered, new);
    &&& rendered.no_duplicates()
    &&& new.no_duplicates()
    &&& rendered.len() <= usize::MAX
    &&& new.len() <= usize::MAX
    &&& w.prev_start <= w.prev_end <= rendered.len()
    &&& w.new_start <= w.new_end <= new.len()
    &&& forall|j: int|
        0 <= j < new.len() && !(w.new_start <= j < w.new_end) ==> rendered.contains(#[trigger] new[j]) && !(
        w.prev_start <= rendered.index_of(new[j]) < w.prev_end)
    &&& forall|i: int|
        0 <= i < rendered.len() && !(w.prev_start <= i < w.prev_end) ==> new.contains(#[trigger] rendered[i])
            && !(w.new_start <= new.index_of(rendered[i]) < w.new_end)
    &&& cur.nodes == goal.subrange(0, w.new_start as int) + stretch(w.prev_start as int, w.prev_end as int)
        + goal.subrange(w.new_end as int, new.len() as int)
    &&& cur.nodes.no_duplicates()
    &&& cur.refreshed == Map::new(
        |i: int| 0 <= i < rendered.len() && !(w.prev_start <= i < w.prev_end),
        |i: int| new.index_of(rendered[i]),
    )
    &&& cur.created == Set::<int>::empty()
    &&& cur.removed == Set::<int>::empty()
    &&& cur.moved.subset_of(cur.refreshed.dom())
    &&& cur.moved.finite()
    &&& w.after == if w.new_end < new.len() {
        Some(goal[w.new_end as int])
    } else {
        None
    }
}

/// The state between two steps of trimming, as the stages of trimming pass
/// it on: they go by the steps' lemmas and do not look inside.
#[verifier::opaque]
spec fn in_trim(rendered: Seq<u64>, new: Seq<u64>, w: Window, cur: ChildList) -> bool {
    trimmed(rendered, new, w, cur)
}

/// The window lies within the two lists.
proof fn lemma_window(rendered: Seq<u64>, new: Seq<u64>, w: Window, cur: ChildList)
    requires
        in_trim(rendered, new, w, cur),
    ensures
        w.prev_start <= w.prev_end <= rendered.len() <= usize::MAX,
        w.new_start <= w.new_end <= new.len() <= usize::MAX,
        cur.moved.finite(),
{
    reveal(in_trim);
}

/// Before anything is done, nothing is matched.
proof fn lemma_trimmed_at_first(rendered: Seq<u64>, new: Seq<u64>)
    requires
        rendered.no_duplicates(),
        new.no_duplicates(),
        rendered.len() <= usize::MAX,
        new.len() <= usize::MAX,
    ensures
        trimmed(
            rendered,
            new,
            Window {
                prev_start: 0,
                prev_end: rendered.len() as usize,
                new_start: 0,
                new_end: new.len() as usize,
                after: None,
            },
            ChildList::rendered(rendered.len()),
        ),
{
    let goal = arrangement(rendered, new);
    let cur = ChildList::rendered(rendered.len());
    assert(cur.nodes =~= goal.subrange(0, 0) + stretch(0, rendered.len() as int) + goal.subrange(
        new.len() as int,
        new.len() as int,
    ));
    assert(cur.refreshed =~= Map::new(
        |i: int| 0 <= i < rendered.len() && !(0 <= i < rendered.len()),
        |i: int| new.index_of(rendered[i]),
    ));
}

/// Bringing the last of a stretch of rendered nodes before its first leaves
/// the node just ahead of the rest of the stretch.
proof fn lemma_bring_backward(head: Seq<Handle>, tail: Seq<Handle>, from: int, to: int)
    requires
        0 <= from,
        from + 1 < to <= usize::MAX,
        (head + stretch(from, to) + tail).no_duplicates(),
    ensures
        inserted(
            detached(head + stretch(from, to) + tail, Handle::Rendered((to - 1) as usize)),
            Handle::Rendered((to - 1) as usize),
            Some(Handle::Rendered(from as usize)),
        ) == head.push(Handle::Rendered((to - 1) as usize)) + stretch(from, to - 1) + tail,
        (head.push(Handle::Rendered((to - 1) as usize)) + stretch(from, to - 1) + tail).no_duplicates(),
{
    let nodes = head + stretch(from, to) + tail;
    let node = Handle::Rendered((to - 1) as usize);
    let anchor = Handle::Rendered(from as usize);
    let at = head.len() + (to - 1 - from);
    assert(nodes[at] == node);
    lemma_index_of(nodes, at);
    lemma_detached(nodes, node);
    let rest = detached(nodes, node);
    assert(rest =~= head + stretch(from, to - 1) + tail);
    assert(rest[head.len() as int] == anchor);
    lemma_index_of(rest, head.len() as int);
    lemma_inserted(rest, node, Some(anchor));
    assert(inserted(rest, node, Some(anchor)) =~= head.push(node) + stretch(from, to - 1) + tail);
}

/// Bringing the first of a stretch of rendered nodes behind its last leaves
/// the node just after the rest of the stretch.
proof fn lemma_bring_forward(head: Seq<Handle>, tail: Seq<Handle>, from: int, to: int)
    requires
        0 <= from,
        from + 1 < to <= usize::MAX,
        (head + stretch(from, to) + tail).no_duplicates(),
    ensures
        inserted(
            detached(head + stretch(from, to) + tail, Handle::Rendered(from as usize)),
            Handle::Rendered(from as usize),
            if tail.len() > 0 {
                Some(tail[0])
            } else {
                None
            },
        ) == head + stretch(from + 1, to) + seq![Handle::Rendered(from as usize)] + tail,
        (head + stretch(from + 1, to) + seq![Handle::Rendered(from as usize)] + tail).no_duplicates(),
        tail.len() > 0 ==> tail[0] != Handle::Rendered(from as usize) && (head + stretch(from, to)
            + tail).contains(tail[0]),
{
    let nodes = head + stretch(from, to) + tail;
    let node = Handle::Rendered(from as usize);
    let after = if tail.len() > 0 {
        Some(tail[0])
    } else {
        None
    };
    assert(nodes[head.len() as int] == node);
    lemma_index_of(nodes, head.len() as int);
    lemma_detached(nodes, node);
    let rest = detached(nodes, node);
    assert(rest =~= head + stretch(from + 1, to) + tail);
    if tail.len() > 0 {
        let at = head.len() + (to - from - 1);
        assert(rest[at] == tail[0]);
        lemma_index_of(rest, at);
        assert(nodes[at + 1] == tail[0]);
        lemma_index_of(nodes, at + 1);
    }
    lemma_inserted(rest, node, after);
    assert(inserted(rest, node, after) =~= head + stretch(from + 1, to) + seq![node] + tail);
}

/// The first node in the window has the id of the first item in it: the node
/// is refreshed where it stands.
proof fn lemma_prefix_step(rendered: Seq<u64>, new: Seq<u64>, w: Window, cur: ChildList)
    requires
        in_trim(rendered, new, w, cur),
        w.prev_start < w.prev_end,
        w.new_start < w.new_end,
        rendered[w.prev_start as int] == new[w.new_start as int],
    ensures
        cur.accepts(Mutation::Update { node: w.prev_start, item: w.new_start }),
        in_trim(
            rendered,
            new,
            Window { prev_start: (w.prev_start + 1) as usize, new_start: (w.new_start + 1) as usize, ..w },
            cur.apply(Mutation::Update { node: w.prev_start, item: w.new_start }),
        ),
{
    reveal(in_trim);    let goal = arrangement(rendered, new);
    let ps = w.prev_start as int;
    let ns = w.new_start as int;
    let next = Window { prev_start: (w.prev_start + 1) as usize, new_start: (w.new_start + 1) as usize, ..w };
    let then = cur.apply(Mutation::Update { node: w.prev_start, item: w.new_start });
    lemma_match(rendered, new, ps, ns);
    assert(cur.nodes[ns] == Handle::Rendered(w.prev_start));
    assert(then.nodes =~= goal.subrange(0, ns + 1) + stretch(ps + 1, w.prev_end as int) + goal.subrange(
        w.new_end as int,
        new.len() as int,
    ));
    assert(then.refreshed =~= Map::new(
        |i: int| 0 <= i < rendered.len() && !(next.prev_start <= i < next.prev_end),
        |i: int| new.index_of(rendered[i]),
    ));
}

/// The last node in the window has the id of the last item in it: the node is
/// refreshed where it stands.
proof fn lemma_suffix_step(rendered: Seq<u64>, new: Seq<u64>, w: Window, cur: ChildList)
    requires
        in_trim(rendered, new, w, cur),
        w.prev_start < w.prev_end,
        w.new_start < w.new_end,
        rendered[w.prev_end - 1] == new[w.new_end - 1],
    ensures
        cur.accepts(Mutation::Update { node: (w.prev_end - 1) as usize, item: (w.new_end - 1) as usize }),
        in_trim(
            rendered,
            new,
            Window {
                prev_end: (w.prev_end - 1) as usize,
                new_end: (w.new_end - 1) as usize,
                after: Some(Handle::Rendered((w.prev_end - 1) as usize)),
                ..w
            },
            cur.apply(Mutation::Update { node: (w.prev_end - 1) as usize, item: (w.new_end - 1) as usize }),
        ),
{
    reveal(in_trim);    let goal = arrangement(rendered, new);
    let pe = w.prev_end as int;
    let ne = w.new_end as int;
    let next = Window {
        prev_end: (w.prev_end - 1) as usize,
        new_end: (w.new_end - 1) as usize,
        after: Some(Handle::Rendered((w.prev_end - 1) as usize)),
        ..w
    };
    let then = cur.apply(Mutation::Update { node: (w.prev_end - 1) as usize, item: (w.new_end - 1) as usize });
    lemma_match(rendered, new, pe - 1, ne - 1);
    let at = w.new_start + (pe - 1 - w.prev_start);
    assert(cur.nodes[at] == Handle::Rendered((pe - 1) as usize));
    assert(then.nodes =~= goal.subrange(0, w.new_start as int) + stretch(w.prev_start as int, pe - 1)
        + goal.subrange(ne - 1, new.len() as int));
    assert(then.refreshed =~= Map::new(
        |i: int| 0 <= i < rendered.len() && !(next.prev_start <= i < next.prev_end),
        |i: int| new.index_of(rendered[i]),
    ));
}

/// The last node in the window has the id of the first item in it: the node
/// is refreshed and put before the first node in the window.
proof fn lemma_backward_step(rendered: Seq<u64>, new: Seq<u64>, w: Window, cur: ChildList)
    requires
        in_trim(rendered, new, w, cur),
        w.prev_start + 1 < w.prev_end,
        w.new_start < w.new_end,
        rendered[w.prev_end - 1] == new[w.new_start as int],
    ensures
        cur.accepts(Mutation::Update { node: (w.prev_end - 1) as usize, item: w.new_start }),
        cur.apply(Mutation::Update { node: (w.prev_end - 1) as usize, item: w.new_start }).accepts(
            Mutation::Move { node: (w.prev_end - 1) as usize, before: Some(Handle::Rendered(w.prev_start)) },
        ),
        in_trim(
            rendered,
            new,
            Window { prev_end: (w.prev_end - 1) as usize, new_start: (w.new_start + 1) as usize, ..w },
            cur.apply(Mutation::Update { node: (w.prev_end - 1) as usize, item: w.new_start }).apply(
                Mutation::Move { node: (w.prev_end - 1) as usize, before: Some(Handle::Rendered(w.prev_start)) },
            ),
        ),
{
    reveal(in_trim);    let goal = arrangement(rendered, new);
    let ps = w.prev_start as int;
    let pe = w.prev_end as int;
    let ns = w.new_start as int;
    let next = Window { prev_end: (w.prev_end - 1) as usize, new_start: (w.new_start + 1) as usize, ..w };
    let node = Handle::Rendered((pe - 1) as usize);
    let anchor = Handle::Rendered(w.prev_start);
    let mid = cur.apply(Mutation::Update { node: (w.prev_end - 1) as usize, item: w.new_start });
    let then = mid.apply(Mutation::Move { node: (w.prev_end - 1) as usize, before: Some(anchor) });
    let head = goal.subrange(0, ns);
    let tail = goal.subrange(w.new_end as int, new.len() as int);
    lemma_match(rendered, new, pe - 1, ns);
    assert(cur.nodes[ns + (pe - 1 - ps)] == node);
    assert(cur.nodes[ns] == anchor);
    lemma_bring_backward(head, tail, ps, pe);
    assert(head.push(node) =~= goal.subrange(0, ns + 1));
    assert(then.refreshed =~= Map::new(
        |i: int| 0 <= i < rendered.len() && !(next.prev_start <= i < next.prev_end),
        |i: int| new.index_of(rendered[i]),
    ));
}

/// The first node in the window has the id of the last item in it: the node
/// is refreshed and put after the last node in the window.
proof fn lemma_forward_step(rendered: Seq<u64>, new: Seq<u64>, w: Window, cur: ChildList)
    requires
        in_trim(rendered, new, w, cur),
        w.prev_start + 1 < w.prev_end,
        w.new_start < w.new_end,
        rendered[w.prev_start as int] == new[w.new_end - 1],
    ensures
        cur.accepts(Mutation::Update { node: w.prev_start, item: (w.new_end - 1) as usize }),
        cur.apply(Mutation::Update { node: w.prev_start, item: (w.new_end - 1) as usize }).accepts(
            Mutation::Move { node: w.prev_start, before: w.after },
        ),
        in_trim(
            rendered,
            new,
            Window {
                prev_start: (w.prev_start + 1) as usize,
                new_end: (w.new_end - 1) as usize,
                after: Some(Handle::Rendered(w.prev_start)),
                ..w
            },
            cur.apply(Mutation::Update { node: w.prev_start, item: (w.new_end - 1) as usize }).apply(
                Mutation::Move { node: w.prev_start, before: w.after },
            ),
        ),
{
    reveal(in_trim);    let goal = arrangement(rendered, new);
    let ps = w.prev_start as int;
    let pe = w.prev_end as int;
    let ns = w.new_start as int;
    let ne = w.new_end as int;
    let next = Window {
        prev_start: (w.prev_start + 1) as usize,
        new_end: (w.new_end - 1) as usize,
        after: Some(Handle::Rendered(w.prev_start)),
        ..w
    };
    let node = Handle::Rendered(w.prev_start);
    let mid = cur.apply(Mutation::Update { node: w.prev_start, item: (w.new_end - 1) as usize });
    let then = mid.apply(Mutation::Move { node: w.prev_start, before: w.after });
    let head = goal.subrange(0, ns);
    let tail = goal.subrange(ne, new.len() as int);
    lemma_match(rendered, new, ps, ne - 1);
    assert(cur.nodes[ns] == node);
    lemma_bring_forward(head, tail, ps, pe);
    assert(w.after == if tail.len() > 0 {
        Some(tail[0])
    } else {
        None
    });
    assert(seq![node] + tail =~= goal.subrange(ne - 1, new.len() as int));
    assert(head + stretch(ps + 1, pe) + seq![node] + tail =~= head + stretch(ps + 1, pe) + goal.subrange(
        ne - 1,
        new.len() as int,
    ));
    assert(then.refreshed =~= Map::new(
        |i: int| 0 <= i < rendered.len() && !(next.prev_start <= i < next.prev_end),
        |i: int| new.index_of(rendered[i]),
    ));
}

/// The refreshes of `count` nodes that stand where their items want them, the
/// first of them node `node` for item `item`.
pub open spec fn refreshes(node: int, item: int, count: int) -> Seq<Mutation> {
    Seq::new(count as nat, |t: int| Mutation::Update { node: (node + t) as usize, item: (item + t) as usize })
}

/// Whether the plan `after` is the plan `before` with `steps` added.
#[verifier::opaque]
spec fn extends(before: Seq<Mutation>, after: Seq<Mutation>, steps: Seq<Mutation>) -> bool {
    after == before + steps
}

/// The number of nodes at the head of the window that have, one after
/// another, the ids of the items at its head.
pub open spec fn head_matches(rendered: Seq<u64>, new: Seq<u64>, ps: int, pe: int, ns: int, ne: int) -> int
    decreases pe - ps,
{
    if ps < pe && ns < ne && rendered[ps] == new[ns] {
        1 + head_matches(rendered, new, ps + 1, pe, ns + 1, ne)
    } else {
        0
    }
}

/// The number of nodes at the tail of the window that have, one before
/// another, the ids of the items at its tail.
pub open spec fn tail_matches(rendered: Seq<u64>, new: Seq<u64>, ps: int, pe: int, ns: int, ne: int) -> int
    decreases pe - ps,
{
    if ps < pe && ns < ne && rendered[pe - 1] == new[ne - 1] {
        1 + tail_matches(rendered, new, ps, pe - 1, ns, ne - 1)
    } else {
        0
    }
}

/// Where `count` nodes at the head match and the next does not, `count` is
/// the number of matches at the head.
proof fn lemma_head_matches(rendered: Seq<u64>, new: Seq<u64>, ps: int, pe: int, ns: int, ne: int, count: int)
    requires
        0 <= count,
        ps + count <= pe,
        ns + count <= ne,
        forall|i: int| ps <= i < ps + count ==> #[trigger] rendered[i] == new[i - ps + ns],
        ps + count == pe || ns + count == ne || rendered[ps + count] != new[ns + count],
    ensures
        head_matches(rendered, new, ps, pe, ns, ne) == count,
    decreases count,
{
    if count > 0 {
        assert(rendered[ps] == new[ps - ps + ns]);
        assert forall|i: int| ps + 1 <= i < ps + 1 + (count - 1) implies #[trigger] rendered[i] == new[i - (ps + 1)
            + (ns + 1)] by {
            assert(rendered[i] == new[i - ps + ns]);
        }
        lemma_head_matches(rendered, new, ps + 1, pe, ns + 1, ne, count - 1);
    }
}

/// Where `count` nodes at the tail match and the next does not, `count` is
/// the number of matches at the tail.
proof fn lemma_tail_matches(rendered: Seq<u64>, new: Seq<u64>, ps: int, pe: int, ns: int, ne: int, count: int)
    requires
        0 <= count,
        ps + count <= pe,
        ns + count <= ne,
        forall|i: int| pe - count <= i < pe ==> #[trigger] rendered[i] == new[i - pe + ne],
        ps + count == pe || ns + count == ne || rendered[pe - 1 - count] != new[ne - 1 - count],
    ensures
        tail_matches(rendered, new, ps, pe, ns, ne) == count,
    decreases count,
{
    if count > 0 {
        assert(rendered[pe - 1] == new[pe - 1 - pe + ne]);
        assert forall|i: int| pe - 1 - (count - 1) <= i < pe - 1 implies #[trigger] rendered[i] == new[i - (pe - 1)
            + (ne - 1)] by {
            assert(rendered[i] == new[i - pe + ne]);
        }
        lemma_tail_matches(rendered, new, ps, pe - 1, ns, ne - 1, count - 1);
    }
}

/// Refreshes the nodes at the head of the window for as long as they have the
/// ids of the items at its head, and starts the window after them.
fn skip_prefix(
    rendered: &[u64],
    new: &[u64],
    w: &mut Window,
    plan: &mut Vec<Mutation>,
    Ghost(start): Ghost<ChildList>,
)
    requires
        start.accepts_all(old(plan)@),
        in_trim(rendered@, new@, *old(w), start.apply_all(old(plan)@)),
    ensures
        start.accepts_all(final(plan)@),
        in_trim(rendered@, new@, *final(w), start.apply_all(final(plan)@)),
        clear_free(old(plan)@) ==> clear_free(final(plan)@),
        final(w).prev_end == old(w).prev_end,
        final(w).new_end == old(w).new_end,
        final(w).after == old(w).after,
        final(w).prev_start >= old(w).prev_start,
        final(w).prev_start - old(w).prev_start == final(w).new_start - old(w).new_start,
        final(w).prev_start - old(w).prev_start == head_matches(
            rendered@,
            new@,
            old(w).prev_start as int,
            old(w).prev_end as int,
            old(w).new_start as int,
            old(w).new_end as int,
        ),
        extends(
            old(plan)@,
            final(plan)@,
            refreshes(old(w).prev_start as int, old(w).new_start as int, final(w).prev_start - old(w).prev_start),
        ),
        final(plan)@.len() == old(plan)@.len() + (final(w).prev_start - old(w).prev_start),
        start.apply_all(final(plan)@).moved == start.apply_all(old(plan)@).moved,
        final(w).prev_start == final(w).prev_end || final(w).new_start == final(w).new_end
            || rendered@[final(w).prev_start as int] != new@[final(w).new_start as int],
{
    let ghost before = plan@;
    let ghost first = *w;
    proof {
        lemma_window(rendered@, new@, *w, start.apply_all(plan@));
        assert(plan@ =~= before + refreshes(first.prev_start as int, first.new_start as int, 0));
    }
    while w.prev_start < w.prev_end && w.new_start < w.new_end && rendered[w.prev_start] == new[w.new_start]
        invariant
            start.accepts_all(plan@),
            in_trim(rendered@, new@, *w, start.apply_all(plan@)),
            w.prev_start <= w.prev_end <= rendered@.len() <= usize::MAX,
            w.new_start <= w.new_end <= new@.len() <= usize::MAX,
            clear_free(before) ==> clear_free(plan@),
            w.prev_end == first.prev_end,
            w.new_end == first.new_end,
            w.after == first.after,
            w.prev_start >= first.prev_start,
            w.prev_start - first.prev_start == w.new_start - first.new_start,
            forall|i: int|
                first.prev_start <= i < w.prev_start ==> #[trigger] rendered@[i] == new@[i - first.prev_start
                    + first.new_start],
            plan@ == before + refreshes(
                first.prev_start as int,
                first.new_start as int,
                w.prev_start - first.prev_start,
            ),
            start.apply_all(plan@).moved == start.apply_all(before).moved,
        decreases w.prev_end - w.prev_start,
    {
        let step = Mutation::Update { node: w.prev_start, item: w.new_start };
        proof {
            lemma_prefix_step(rendered@, new@, *w, start.apply_all(plan@));
            lemma_plan_push(start, plan@, step);
            assert(plan@.push(step) =~= before + refreshes(
                first.prev_start as int,
                first.new_start as int,
                w.prev_start + 1 - first.prev_start,
            ));
        }
        plan.push(step);
        w.prev_start += 1;
        w.new_start += 1;
        proof {
            lemma_window(rendered@, new@, *w, start.apply_all(plan@));
        }
    }
    proof {
        reveal(extends);
        lemma_head_matches(
            rendered@,
            new@,
            first.prev_start as int,
            first.prev_end as int,
            first.new_start as int,
            first.new_end as int,
            w.prev_start - first.prev_start,
        );
    }
}

/// Refreshes the nodes at the tail of the window for as long as they have the
/// ids of the items at its tail, and ends the window before them.
fn skip_suffix(
    rendered: &[u64],
    new: &[u64],
    w: &mut Window,
    plan: &mut Vec<Mutation>,
    Ghost(start): Ghost<ChildList>,
)
    requires
        start.accepts_all(old(plan)@),
        in_trim(rendered@, new@, *old(w), start.apply_all(old(plan)@)),
    ensures
        start.accepts_all(final(plan)@),
        in_trim(rendered@, new@, *final(w), start.apply_all(final(plan)@)),
        clear_free(old(plan)@) ==> clear_free(final(plan)@),
        final(w).prev_start == old(w).prev_start,
        final(w).new_start == old(w).new_start,
        final(w).prev_end <= old(w).prev_end,
        old(w).prev_end - final(w).prev_end == old(w).new_end - final(w).new_end,
        old(w).prev_end - final(w).prev_end == tail_matches(
            rendered@,
            new@,
            old(w).prev_start as int,
            old(w).prev_end as int,
            old(w).new_start as int,
            old(w).new_end as int,
        ),
        final(w).after == if final(w).new_end < old(w).new_end {
            Some(Handle::Rendered(final(w).prev_end))
        } else {
            old(w).after
        },
        extends(
            old(plan)@,
            final(plan)@,
            tail_refreshes(old(w).prev_end - 1, old(w).new_end - 1, old(w).new_end - final(w).new_end),
        ),
        final(plan)@.len() == old(plan)@.len() + (old(w).new_end - final(w).new_end),
        start.apply_all(final(plan)@).moved == start.apply_all(old(plan)@).moved,
        final(w).prev_start == final(w).prev_end || final(w).new_start == final(w).new_end
            || rendered@[final(w).prev_end - 1] != new@[final(w).new_end - 1],
{
    let ghost before = plan@;
    let ghost first = *w;
    proof {
        lemma_window(rendered@, new@, *w, start.apply_all(plan@));
        assert(plan@ =~= before + tail_refreshes(first.prev_end - 1, first.new_end - 1, 0));
    }
    while w.prev_start < w.prev_end && w.new_start < w.new_end && rendered[w.prev_end - 1] == new[w.new_end
        - 1]
        invariant
            start.accepts_all(plan@),
            in_trim(rendered@, new@, *w, start.apply_all(plan@)),
            w.prev_start <= w.prev_end <= rendered@.len() <= usize::MAX,
            w.new_start <= w.new_end <= new@.len() <= usize::MAX,
            clear_free(before) ==> clear_free(plan@),
            w.prev_start == first.prev_start,
            w.new_start == first.new_start,
            w.prev_end <= first.prev_end,
            first.prev_end - w.prev_end == first.new_end - w.new_end,
            forall|i: int|
                w.prev_end <= i < first.prev_end ==> #[trigger] rendered@[i] == new@[i - first.prev_end
                    + first.new_end],
            w.after == if w.new_end < first.new_end {
                Some(Handle::Rendered(w.prev_end))
            } else {
                first.after
            },
            plan@ == before + tail_refreshes(first.prev_end - 1, first.new_end - 1, first.new_end - w.new_end),
            start.apply_all(plan@).moved == start.apply_all(before).moved,
        decreases w.prev_end - w.prev_start,
    {
        let step = Mutation::Update { node: w.prev_end - 1, item: w.new_end - 1 };
        proof {
            lemma_suffix_step(rendered@, new@, *w, start.apply_all(plan@));
            lemma_plan_push(start, plan@, step);
            assert(plan@.push(step) =~= before + tail_refreshes(
                first.prev_end - 1,
                first.new_end - 1,
                first.new_end - w.new_end + 1,
            ));
        }
        plan.push(step);
        w.prev_end -= 1;
        w.new_end -= 1;
        w.after = Some(Handle::Rendered(w.prev_end));
        proof {
            lemma_window(rendered@, new@, *w, start.apply_all(plan@));
        }
    }
    proof {
        reveal(extends);
        lemma_tail_matches(
            rendered@,
            new@,
            first.prev_start as int,
            first.prev_end as int,
            first.new_start as int,
            first.new_end as int,
            first.prev_end - w.prev_end,
        );
    }
}

/// Brings nodes from the tail of the window to its head for as long as the
/// window holds a second node and the last node has the id of the first
/// item: each is refreshed and put before the first node of the window. Says
/// whether any was brought.
fn swap_backward(
    rendered: &[u64],
    new: &[u64],
    w: &mut Window,
    plan: &mut Vec<Mutation>,
    Ghost(start): Ghost<ChildList>,
) -> (any: bool)
    requires
        start.accepts_all(old(plan)@),
        in_trim(rendered@, new@, *old(w), start.apply_all(old(plan)@)),
    ensures
        start.accepts_all(final(plan)@),
        in_trim(rendered@, new@, *final(w), start.apply_all(final(plan)@)),
        clear_free(old(plan)@) ==> clear_free(final(plan)@),
        final(w).prev_start == old(w).prev_start,
        final(w).new_end == old(w).new_end,
        final(w).after == old(w).after,
        final(w).prev_end <= old(w).prev_end,
        old(w).prev_end - final(w).prev_end == final(w).new_start - old(w).new_start,
        any <==> final(w).prev_end < old(w).prev_end,
        forall|i: int|
            final(w).prev_end <= i < old(w).prev_end ==> #[trigger] rendered@[i] == new@[old(w).new_start + (old(
                w,
            ).prev_end - 1 - i)],
        extends(
            old(plan)@,
            final(plan)@,
            backward_swaps(
                old(w).prev_end - 1,
                old(w).prev_start as int,
                old(w).new_start as int,
                final(w).new_start - old(w).new_start,
            ),
        ),
        final(plan)@.len() == old(plan)@.len() + 2 * (final(w).new_start - old(w).new_start),
        forall|i: int| #[trigger]
            start.apply_all(final(plan)@).moved.contains(i) <==> start.apply_all(old(plan)@).moved.contains(i)
                || final(w).prev_end <= i < old(w).prev_end,
        final(w).prev_end - final(w).prev_start <= 1 || final(w).new_start == final(w).new_end
            || rendered@[final(w).prev_end - 1] != new@[final(w).new_start as int],
{
    let ghost before = plan@;
    let ghost first = *w;
    let mut any = false;
    proof {
        lemma_window(rendered@, new@, *w, start.apply_all(plan@));
        assert(plan@ =~= before + backward_swaps(
            first.prev_end - 1,
            first.prev_start as int,
            first.new_start as int,
            0,
        ));
    }
    while w.prev_end - w.prev_start > 1 && w.new_start < w.new_end && rendered[w.prev_end - 1] == new[w.new_start]
        invariant
            start.accepts_all(plan@),
            in_trim(rendered@, new@, *w, start.apply_all(plan@)),
            w.prev_start <= w.prev_end <= rendered@.len() <= usize::MAX,
            w.new_start <= w.new_end <= new@.len() <= usize::MAX,
            clear_free(before) ==> clear_free(plan@),
            w.prev_start == first.prev_start,
            w.new_end == first.new_end,
            w.after == first.after,
            w.prev_end <= first.prev_end,
            first.prev_end - w.prev_end == w.new_start - first.new_start,
            any <==> w.prev_end < first.prev_end,
            forall|i: int|
                w.prev_end <= i < first.prev_end ==> #[trigger] rendered@[i] == new@[first.new_start + (
                first.prev_end - 1 - i)],
            plan@ == before + backward_swaps(
                first.prev_end - 1,
                first.prev_start as int,
                first.new_start as int,
                w.new_start - first.new_start,
            ),
            forall|i: int| #[trigger]
                start.apply_all(plan@).moved.contains(i) <==> start.apply_all(before).moved.contains(i)
                    || w.prev_end <= i < first.prev_end,
        decreases w.prev_end - w.prev_start,
    {
        let refresh = Mutation::Update { node: w.prev_end - 1, item: w.new_start };
        let relocate = Mutation::Move { node: w.prev_end - 1, before: Some(Handle::Rendered(w.prev_start)) };
        proof {
            lemma_backward_step(rendered@, new@, *w, start.apply_all(plan@));
            lemma_plan_push(start, plan@, refresh);
            lemma_plan_push(start, plan@.push(refresh), relocate);
            lemma_backward_swaps_push(
                first.prev_end - 1,
                first.prev_start as int,
                first.new_start as int,
                w.new_start - first.new_start,
            );
            assert(plan@.push(refresh).push(relocate) =~= before + backward_swaps(
                first.prev_end - 1,
                first.prev_start as int,
                first.new_start as int,
                w.new_start - first.new_start,
            ).push(refresh).push(relocate));
        }
        plan.push(refresh);
        plan.push(relocate);
        w.prev_end -= 1;
        w.new_start += 1;
        any = true;
        proof {
            lemma_window(rendered@, new@, *w, start.apply_all(plan@));
        }
    }
    proof {
        reveal(extends);
    }
    any
}

/// Brings nodes from the head of the window to its tail for as long as the
/// window holds a second node and the first node has the id of the last
/// item: each is refreshed and put before the node that the items still to
/// be placed come before, which it then is itself. Says whether any was
/// brought.
fn swap_forward(
    rendered: &[u64],
    new: &[u64],
    w: &mut Window,
    plan: &mut Vec<Mutation>,
    Ghost(start): Ghost<ChildList>,
) -> (any: bool)
    requires
        start.accepts_all(old(plan)@),
        in_trim(rendered@, new@, *old(w), start.apply_all(old(plan)@)),
    ensures
        start.accepts_all(final(plan)@),
        in_trim(rendered@, new@, *final(w), start.apply_all(final(plan)@)),
        clear_free(old(plan)@) ==> clear_free(final(plan)@),
        final(w).prev_end == old(w).prev_end,
        final(w).new_start == old(w).new_start,
        final(w).prev_start >= old(w).prev_start,
        final(w).prev_start - old(w).prev_start == old(w).new_end - final(w).new_end,
        any <==> final(w).prev_start > old(w).prev_start,
        forall|i: int|
            old(w).prev_start <= i < final(w).prev_start ==> #[trigger] rendered@[i] == new@[old(w).new_end - 1
                - (i - old(w).prev_start)],
        final(w).after == if final(w).prev_start > old(w).prev_start {
            Some(Handle::Rendered((final(w).prev_start - 1) as usize))
        } else {
            old(w).after
        },
        extends(
            old(plan)@,
            final(plan)@,
            forward_swaps(
                old(w).prev_start as int,
                old(w).new_end - 1,
                old(w).after,
                final(w).prev_start - old(w).prev_start,
            ),
        ),
        final(plan)@.len() == old(plan)@.len() + 2 * (old(w).new_end - final(w).new_end),
        forall|i: int| #[trigger]
            start.apply_all(final(plan)@).moved.contains(i) <==> start.apply_all(old(plan)@).moved.contains(i)
                || old(w).prev_start <= i < final(w).prev_start,
        final(w).prev_end - final(w).prev_start <= 1 || final(w).new_start == final(w).new_end
            || rendered@[final(w).prev_start as int] != new@[final(w).new_end - 1],
{
    let ghost before = plan@;
    let ghost first = *w;
    let mut any = false;
    proof {
        lemma_window(rendered@, new@, *w, start.apply_all(plan@));
        assert(plan@ =~= before + forward_swaps(first.prev_start as int, first.new_end - 1, first.after, 0));
    }
    while w.prev_end - w.prev_start > 1 && w.new_start < w.new_end && rendered[w.prev_start] == new[w.new_end
        - 1]
        invariant
            start.accepts_all(plan@),
            in_trim(rendered@, new@, *w, start.apply_all(plan@)),
            w.prev_start <= w.prev_end <= rendered@.len() <= usize::MAX,
            w.new_start <= w.new_end <= new@.len() <= usize::MAX,
            clear_free(before) ==> clear_free(plan@),
            w.prev_end == first.prev_end,
            w.new_start == first.new_start,
            w.prev_start >= first.prev_start,
            w.prev_start - first.prev_start == first.new_end - w.new_end,
            any <==> w.prev_start > first.prev_start,
            forall|i: int|
                first.prev_start <= i < w.prev_start ==> #[trigger] rendered@[i] == new@[first.new_end - 1 - (i
                    - first.prev_start)],
            w.after == if w.prev_start > first.prev_start {
                Some(Handle::Rendered((w.prev_start - 1) as usize))
            } else {
                first.after
            },
            plan@ == before + forward_swaps(
                first.prev_start as int,
                first.new_end - 1,
                first.after,
                w.prev_start - first.prev_start,
            ),
            forall|i: int| #[trigger]
                start.apply_all(plan@).moved.contains(i) <==> start.apply_all(before).moved.contains(i)
                    || first.prev_start <= i < w.prev_start,
        decreases w.prev_end - w.prev_start,
    {
        let refresh = Mutation::Update { node: w.prev_start, item: w.new_end - 1 };
        let relocate = Mutation::Move { node: w.prev_start, before: w.after };
        proof {
            lemma_forward_step(rendered@, new@, *w, start.apply_all(plan@));
            lemma_plan_push(start, plan@, refresh);
            lemma_plan_push(start, plan@.push(refresh), relocate);
            lemma_forward_swaps_push(
                first.prev_start as int,
                first.new_end - 1,
                first.after,
                w.prev_start - first.prev_start,
            );
            assert(plan@.push(refresh).push(relocate) =~= before + forward_swaps(
                first.prev_start as int,
                first.new_end - 1,
                first.after,
                w.prev_start - first.prev_start,
            ).push(refresh).push(relocate));
        }
        plan.push(refresh);
        plan.push(relocate);
        w.after = Some(Handle::Rendered(w.prev_start));
        w.prev_start += 1;
        w.new_end -= 1;
        any = true;
        proof {
            lemma_window(rendered@, new@, *w, start.apply_all(plan@));
        }
    }
    proof {
        reveal(extends);
    }
    any
}

/// Narrows the window from both ends until neither end matches any more:
/// first by the nodes that stand where they are wanted, then by those that
/// are wanted at the other end, again and again.
///
/// The nodes that head and tail have in common at the outset are refreshed
/// where they stand, and no node outside what lies between them is moved.
/// Where that middle is empty on either side, or neither of its ends is
/// wanted at the other end, the window is left at the middle and nothing is
/// moved at all.
fn trim(rendered: &[u64], new: &[u64], w: &mut Window, plan: &mut Vec<Mutation>, Ghost(start): Ghost<ChildList>)
    requires
        start.accepts_all(old(plan)@),
        in_trim(rendered@, new@, *old(w), start.apply_all(old(plan)@)),
    ensures
        start.accepts_all(final(plan)@),
        in_trim(rendered@, new@, *final(w), start.apply_all(final(plan)@)),
        clear_free(old(plan)@) ==> clear_free(final(plan)@),
        rendered@ == new@ && old(w).prev_start == 0 && old(w).new_start == 0 && old(w).prev_end == rendered@.len()
            && old(w).new_end == new@.len() ==> {
            &&& final(w).prev_start == final(w).prev_end
            &&& final(w).new_start == final(w).new_end
            &&& final(plan)@ == old(plan)@ + refreshes(0, 0, rendered@.len() as int)
        },
        final(plan)@.len() <= old(plan)@.len() + 2 * ((final(w).new_start - old(w).new_start) + (old(w).new_end
            - final(w).new_end)),
        final(w).prev_start == final(w).prev_end || final(w).new_start == final(w).new_end || {
            &&& rendered@[final(w).prev_start as int] != new@[final(w).new_start as int]
            &&& rendered@[final(w).prev_end - 1] != new@[final(w).new_end - 1]
            &&& rendered@[final(w).prev_end - 1] != new@[final(w).new_start as int]
            &&& rendered@[final(w).prev_start as int] != new@[final(w).new_end - 1]
        },
        forall|i: int| #[trigger]
            start.apply_all(final(plan)@).moved.contains(i) ==> start.apply_all(old(plan)@).moved.contains(i)
                || middle(rendered@, new@, *old(w)).prev_start <= i < middle(rendered@, new@, *old(w)).prev_end,
        final(w).prev_start >= middle(rendered@, new@, *old(w)).prev_start,
        final(w).prev_end <= middle(rendered@, new@, *old(w)).prev_end,
        final(w).new_start >= middle(rendered@, new@, *old(w)).new_start,
        final(w).new_end <= middle(rendered@, new@, *old(w)).new_end,
        quiet(rendered@, new@, middle(rendered@, new@, *old(w))) ==> {
            &&& final(w).prev_start == middle(rendered@, new@, *old(w)).prev_start
            &&& final(w).prev_end == middle(rendered@, new@, *old(w)).prev_end
            &&& final(w).new_start == middle(rendered@, new@, *old(w)).new_start
            &&& final(w).new_end == middle(rendered@, new@, *old(w)).new_end
            &&& start.apply_all(final(plan)@).moved == start.apply_all(old(plan)@).moved
        },
{
    let ghost before = plan@;
    let ghost first = *w;
    let ghost whole = rendered@ == new@ && first.prev_start == 0 && first.new_start == 0 && first.prev_end
        == rendered@.len() && first.new_end == new@.len();
    let ghost mid = middle(rendered@, new@, first);
    proof {
        lemma_window(rendered@, new@, *w, start.apply_all(plan@));
    }
    skip_prefix(rendered, new, w, plan, Ghost(start));
    let ghost skipped = plan@;
    let ghost headed = *w;
    proof {
        lemma_window(rendered@, new@, *w, start.apply_all(plan@));
    }
    skip_suffix(rendered, new, w, plan, Ghost(start));
    proof {
        lemma_window(rendered@, new@, *w, start.apply_all(plan@));
        assert(w.prev_start == mid.prev_start && w.prev_end == mid.prev_end && w.new_start == mid.new_start
            && w.new_end == mid.new_end) by {
            reveal(middle);
        }
        assert(whole ==> w.prev_start == w.prev_end && w.new_start == w.new_end && plan@ == before + refreshes(
            0,
            0,
            rendered@.len() as int,
        )) by {
            if whole {
                reveal(extends);
                assert(headed.prev_start == headed.prev_end);
                assert(plan@ =~= skipped);
            }
        }
    }
    let mut progressed = true;
    while progressed && w.prev_start < w.prev_end && w.new_start < w.new_end
        invariant
            start.accepts_all(plan@),
            in_trim(rendered@, new@, *w, start.apply_all(plan@)),
            w.prev_start <= w.prev_end <= rendered@.len() <= usize::MAX,
            w.new_start <= w.new_end <= new@.len() <= usize::MAX,
            clear_free(before) ==> clear_free(plan@),
            whole ==> {
                &&& w.prev_start == w.prev_end
                &&& w.new_start == w.new_end
                &&& plan@ == before + refreshes(0, 0, rendered@.len() as int)
            },
            first.new_start <= w.new_start,
            w.new_end <= first.new_end,
            plan@.len() <= before.len() + 2 * ((w.new_start - first.new_start) + (first.new_end - w.new_end)),
            w.prev_start == w.prev_end || w.new_start == w.new_end || {
                &&& rendered@[w.prev_start as int] != new@[w.new_start as int]
                &&& rendered@[w.prev_end - 1] != new@[w.new_end - 1]
            },
            !progressed ==> w.prev_start == w.prev_end || w.new_start == w.new_end || {
                &&& rendered@[w.prev_end - 1] != new@[w.new_start as int]
                &&& rendered@[w.prev_start as int] != new@[w.new_end - 1]
            },
            mid.prev_start <= w.prev_start,
            w.prev_end <= mid.prev_end,
            mid.new_start <= w.new_start,
            w.new_end <= mid.new_end,
            forall|i: int| #[trigger]
                start.apply_all(plan@).moved.contains(i) ==> start.apply_all(before).moved.contains(i)
                    || mid.prev_start <= i < mid.prev_end,
            quiet(rendered@, new@, mid) ==> {
                &&& w.prev_start == mid.prev_start
                &&& w.prev_end == mid.prev_end
                &&& w.new_start == mid.new_start
                &&& w.new_end == mid.new_end
                &&& start.apply_all(plan@).moved == start.apply_all(before).moved
            },
        decreases w.prev_end - w.prev_start, if progressed { 1int } else { 0int },
    {
        let ghost entered = start.apply_all(plan@).moved;
        progressed = swap_backward(rendered, new, w, plan, Ghost(start));
        let ghost between = start.apply_all(plan@).moved;
        if w.prev_start < w.prev_end && w.new_start < w.new_end {
            let any = swap_forward(rendered, new, w, plan, Ghost(start));
            progressed = progressed || any;
        }
        proof {
            lemma_window(rendered@, new@, *w, start.apply_all(plan@));
            if !progressed {
                assert(between =~= entered);
                assert(start.apply_all(plan@).moved =~= between);
            }
        }
        if progressed {
            skip_prefix(rendered, new, w, plan, Ghost(start));
            skip_suffix(rendered, new, w, plan, Ghost(start));
            proof {
                lemma_window(rendered@, new@, *w, start.apply_all(plan@));
            }
        }
    }
}

/// The window that is left of `w` when the nodes that its head and then its
/// tail have in common with the items are taken off it.
#[verifier::opaque]
spec fn middle(rendered: Seq<u64>, new: Seq<u64>, w: Window) -> Window {
    let head = head_matches(
        rendered,
        new,
        w.prev_start as int,
        w.prev_end as int,
        w.new_start as int,
        w.new_end as int,
    );
    let tail = tail_matches(
        rendered,
        new,
        w.prev_start + head,
        w.prev_end as int,
        w.new_start + head,
        w.new_end as int,
    );
    Window {
        prev_start: (w.prev_start + head) as usize,
        prev_end: (w.prev_end - tail) as usize,
        new_start: (w.new_start + head) as usize,
        new_end: (w.new_end - tail) as usize,
        after: w.after,
    }
}

/// Whether trimming has nothing to bring across the window: the window is
/// empty on either side, or its last node is not wanted first and its first
/// node is not wanted last.
spec fn quiet(rendered: Seq<u64>, new: Seq<u64>, w: Window) -> bool {
    ||| w.prev_start == w.prev_end
    ||| w.new_start == w.new_end
    ||| rendered[w.prev_end - 1] != new[w.new_start as int] && rendered[w.prev_start as int] != new[w.new_end - 1]
}

/// The refreshes of `count` nodes that stand where their items want them,
/// taken from the tail: the first of them node `node` for item `item`, each
/// further one the node and the item before.
spec fn tail_refreshes(node: int, item: int, count: int) -> Seq<Mutation> {
    Seq::new(count as nat, |t: int| Mutation::Update { node: (node - t) as usize, item: (item - t) as usize })
}

/// The steps that bring `count` nodes from the tail of a window to its head:
/// in turn the node `last` and those before it are refreshed, with the item
/// `item` and those after it, and each is put before the node `first`.
spec fn backward_swaps(last: int, first: int, item: int, count: int) -> Seq<Mutation> {
    Seq::new(
        (2 * count) as nat,
        |s: int|
            if s % 2 == 0 {
                Mutation::Update { node: (last - s / 2) as usize, item: (item + s / 2) as usize }
            } else {
                Mutation::Move { node: (last - s / 2) as usize, before: Some(Handle::Rendered(first as usize)) }
            },
    )
}

/// The steps that bring `count` nodes from the head of a window to its tail:
/// in turn the node `first` and those after it are refreshed, with the item
/// `item` and those before it, and each is put before the node brought just
/// before it, the first of them before `after`.
spec fn forward_swaps(first: int, item: int, after: Option<Handle>, count: int) -> Seq<Mutation> {
    Seq::new(
        (2 * count) as nat,
        |s: int|
            if s % 2 == 0 {
                Mutation::Update { node: (first + s / 2) as usize, item: (item - s / 2) as usize }
            } else {
                Mutation::Move {
                    node: (first + s / 2) as usize,
                    before: if s / 2 == 0 {
                        after
                    } else {
                        Some(Handle::Rendered((first + s / 2 - 1) as usize))
                    },
                }
            },
    )
}

/// One more node brought backward adds its refresh and its move.
proof fn lemma_backward_swaps_push(last: int, first: int, item: int, count: int)
    requires
        count >= 0,
    ensures
        backward_swaps(last, first, item, count + 1) == backward_swaps(last, first, item, count).push(
            Mutation::Update { node: (last - count) as usize, item: (item + count) as usize },
        ).push(Mutation::Move { node: (last - count) as usize, before: Some(Handle::Rendered(first as usize)) }),
        backward_swaps(last, first, item, count).len() == 2 * count,
{
    assert(backward_swaps(last, first, item, count + 1) =~= backward_swaps(last, first, item, count).push(
        Mutation::Update { node: (last - count) as usize, item: (item + count) as usize },
    ).push(Mutation::Move { node: (last - count) as usize, before: Some(Handle::Rendered(first as usize)) }));
}

/// One more node brought forward adds its refresh and its move.
proof fn lemma_forward_swaps_push(first: int, item: int, after: Option<Handle>, count: int)
    requires
        count >= 0,
    ensures
        forward_swaps(first, item, after, count + 1) == forward_swaps(first, item, after, count).push(
            Mutation::Update { node: (first + count) as usize, item: (item - count) as usize },
        ).push(
            Mutation::Move {
                node: (first + count) as usize,
                before: if count == 0 {
                    after
                } else {
                    Some(Handle::Rendered((first + count - 1) as usize))
                },
            },
        ),
        forward_swaps(first, item, after, count).len() == 2 * count,
{
    let more = forward_swaps(first, item, after, count + 1);
    let fewer = forward_swaps(first, item, after, count);
    let grown = fewer.push(Mutation::Update { node: (first + count) as usize, item: (item - count) as usize }).push(
        Mutation::Move {
            node: (first + count) as usize,
            before: if count == 0 {
                after
            } else {
                Some(Handle::Rendered((first + count - 1) as usize))
            },
        },
    );
    assert(more.len() == grown.len());
    assert forall|s: int| 0 <= s < more.len() implies more[s] == grown[s] by {
        if s < 2 * count {
            assert(grown[s] == fewer[s]);
        } else if s == 2 * count {
            assert(s % 2 == 0 && s / 2 == count);
        } else {
            assert(s == 2 * count + 1);
            assert(s % 2 == 1 && s / 2 == count);
        }
    }
    assert(more =~= grown);
}

/// What a survey of the window finds: for each new item up to the end of the
/// window the rendered node that has its id, where one in the window has it,
/// and -1 where none has.
spec fn surveyed(rendered: Seq<u64>, new: Seq<u64>, w: Window, positions: Seq<isize>) -> bool {
    &&& positions.len() == w.new_end
    &&& forall|r: int|
        0 <= r < positions.len() ==> {
            ||| #[trigger] positions[r] == -1
            ||| w.new_start <= r && w.prev_start <= positions[r] < w.prev_end && rendered[positions[r] as int]
                == new[r]
        }
    &&& forall|i: int|
        w.prev_start <= i < w.prev_end && new.contains(#[trigger] rendered[i]) ==> 0 <= new.index_of(rendered[i])
            < positions.len() && positions[new.index_of(rendered[i])] == i
}

/// An item in the window with no position has an id that was not rendered.
proof fn lemma_unplaced_is_fresh(rendered: Seq<u64>, new: Seq<u64>, w: Window, cur: ChildList, positions: Seq<isize>, r: int)
    requires
        trimmed(rendered, new, w, cur),
        surveyed(rendered, new, w, positions),
        w.new_start <= r < w.new_end,
    ensures
        positions[r] == -1 <==> !rendered.contains(new[r]),
        positions[r] != -1 ==> arrangement(rendered, new)[r] == Handle::Rendered(positions[r] as usize),
        positions[r] == -1 ==> arrangement(rendered, new)[r] == Handle::Created(r as usize),
{
    if rendered.contains(new[r]) {
        let i = rendered.index_of(new[r]);
        lemma_id_index(rendered, new[r]);
        lemma_match(rendered, new, i, r);
        if !(w.prev_start <= i < w.prev_end) {
            assert(new.contains(rendered[i]) && !(w.new_start <= new.index_of(rendered[i]) < w.new_end));
        }
        assert(positions[new.index_of(rendered[i])] == i);
    }
    if positions[r] != -1 {
        lemma_match(rendered, new, positions[r] as int, r);
    }
}

/// A node in the window whose id is wanted is wanted by an item in the
/// window.
proof fn lemma_kept_in_window(rendered: Seq<u64>, new: Seq<u64>, w: Window, cur: ChildList, i: int)
    requires
        trimmed(rendered, new, w, cur),
        w.prev_start <= i < w.prev_end,
        new.contains(rendered[i]),
    ensures
        w.new_start <= new.index_of(rendered[i]) < w.new_end,
        new[new.index_of(rendered[i])] == rendered[i],
{
    let j = new.index_of(rendered[i]);
    lemma_id_index(new, rendered[i]);
    lemma_match(rendered, new, i, j);
    if !(w.new_start <= j < w.new_end) {
        assert(rendered.contains(new[j]) && !(w.prev_start <= rendered.index_of(new[j]) < w.prev_end));
    }
}

/// Looks every node of the window up among the items of the window. Gives
/// the position of each item's node, the nodes that no item wants, and the
/// number of nodes that some item wants.
fn survey(rendered: &[u64], new: &[u64], w: &Window, Ghost(cur): Ghost<ChildList>) -> (found: (
    Vec<isize>,
    Vec<usize>,
    usize,
))
    requires
        trimmed(rendered@, new@, *w, cur),
        rendered@.len() <= isize::MAX,
    ensures
        surveyed(rendered@, new@, *w, found.0@),
        found.1@.no_duplicates(),
        forall|k: int|
            0 <= k < found.1@.len() ==> w.prev_start <= #[trigger] found.1@[k] < w.prev_end && !new@.contains(
                rendered@[found.1@[k] as int],
            ),
        forall|i: int|
            w.prev_start <= i < w.prev_end && !new@.contains(#[trigger] rendered@[i]) ==> found.1@.contains(
                i as usize,
            ),
        found.2 == 0 ==> forall|i: int| w.prev_start <= i < w.prev_end ==> !new@.contains(#[trigger] rendered@[i]),
        found.1@.len() + found.2 == w.prev_end - w.prev_start,
{
    let mut indices: HashMap<u64, usize> = HashMap::new();
    let mut j: usize = w.new_start;
    while j < w.new_end
        invariant
            trimmed(rendered@, new@, *w, cur),
            w.new_start <= j <= w.new_end,
            forall|id: u64| #[trigger]
                indices@.contains_key(id) ==> w.new_start <= indices@[id] < j && new@[indices@[id] as int] == id,
            forall|r: int| w.new_start <= r < j ==> indices@.contains_key(#[trigger] new@[r]),
        decreases w.new_end - j,
    {
        indices.insert(new[j], j);
        j += 1;
    }
    let mut positions: Vec<isize> = Vec::new();
    while positions.len() < w.new_end
        invariant
            positions.len() <= w.new_end,
            forall|r: int| 0 <= r < positions.len() ==> positions@[r] == -1,
        decreases w.new_end - positions.len(),
    {
        positions.push(-1);
    }
    let mut doomed: Vec<usize> = Vec::new();
    let mut reused: usize = 0;
    let mut i: usize = w.prev_start;
    while i < w.prev_end
        invariant
            trimmed(rendered@, new@, *w, cur),
            rendered@.len() <= isize::MAX,
            w.prev_start <= i <= w.prev_end,
            doomed@.len() + reused == i - w.prev_start,
            forall|id: u64| #[trigger]
                indices@.contains_key(id) ==> w.new_start <= indices@[id] < w.new_end && new@[indices@[id] as int]
                    == id,
            forall|r: int| w.new_start <= r < w.new_end ==> indices@.contains_key(#[trigger] new@[r]),
            positions@.len() == w.new_end,
            forall|r: int|
                0 <= r < positions@.len() ==> {
                    ||| #[trigger] positions@[r] == -1
                    ||| w.new_start <= r && w.prev_start <= positions@[r] < i && rendered@[positions@[r] as int]
                        == new@[r]
                },
            forall|x: int|
                w.prev_start <= x < i && new@.contains(#[trigger] rendered@[x]) ==> 0 <= new@.index_of(rendered@[x])
                    < positions@.len() && positions@[new@.index_of(rendered@[x])] == x,
            forall|k: int|
                0 <= k < doomed@.len() ==> w.prev_start <= #[trigger] doomed@[k] < i && !new@.contains(
                    rendered@[doomed@[k] as int],
                ),
            doomed@.no_duplicates(),
            forall|x: int|
                w.prev_start <= x < i && !new@.contains(#[trigger] rendered@[x]) ==> doomed@.contains(x as usize),
            reused == 0 ==> forall|x: int| w.prev_start <= x < i ==> !new@.contains(#[trigger] rendered@[x]),
        decreases w.prev_end - i,
    {
        let ghost before = positions@;
        let ghost listed = doomed@;
        match indices.get(&rendered[i]) {
            Some(at) => {
                let at: usize = *at;
                proof {
                    lemma_match(rendered@, new@, i as int, at as int);
                    assert forall|x: int|
                        w.prev_start <= x < i && new@.contains(#[trigger] rendered@[x]) implies new@.index_of(
                        rendered@[x],
                    ) != at by {
                        lemma_id_index(new@, rendered@[x]);
                    }
                }
                positions.set(at, i as isize);
                reused += 1;
            },
            None => {
                proof {
                    if new@.contains(rendered@[i as int]) {
                        lemma_kept_in_window(rendered@, new@, *w, cur, i as int);
                        assert(indices@.contains_key(new@[new@.index_of(rendered@[i as int])]));
                    }
                }
                doomed.push(i);
                proof {
                    assert forall|x: int|
                        w.prev_start <= x < i + 1 && !new@.contains(#[trigger] rendered@[x]) implies doomed@.contains(
                        x as usize,
                    ) by {
                        if x < i {
                            assert(listed.contains(x as usize));
                            let k = choose|k: int| 0 <= k < listed.len() && listed[k] == x as usize;
                            assert(doomed@[k] == x as usize);
                        } else {
                            assert(doomed@[listed.len() as int] == i);
                        }
                    }
                }
            },
        }
        i += 1;
    }
    (positions, doomed, reused)
}

/// The node before which the new item `upto - 1` belongs: the one wanted at
/// `upto`, if there is one.
spec fn anchor(goal: Seq<Handle>, upto: int) -> Option<Handle> {
    if upto < goal.len() {
        Some(goal[upto])
    } else {
        None
    }
}

/// Whether the node wanted at `r` stands in its final order among the others
/// of which this holds: it was matched by trimming, or it was placed already,
/// or it belongs to the run of nodes that stay where they are.
spec fn settled(w: Window, run: Seq<int>, upto: int, r: int) -> bool {
    r < w.new_start || r >= upto || run.contains(r)
}

/// The state while the window's items are placed, from the last down to
/// `upto`, after a trimming that left `base`. `doomed` are the nodes still to
/// be taken out.
spec fn placing(
    rendered: Seq<u64>,
    new: Seq<u64>,
    w: Window,
    base: ChildList,
    positions: Seq<isize>,
    run: Seq<int>,
    upto: int,
    doomed: Set<int>,
    cur: ChildList,
) -> bool {
    let goal = arrangement(rendered, new);
    &&& trimmed(rendered, new, w, base)
    &&& surveyed(rendered, new, w, positions)
    &&& is_increasing_run(positions, w.new_start as int, w.new_end as int, run)
    &&& w.new_start <= upto <= w.new_end
    &&& cur.nodes.no_duplicates()
    &&& forall|r: int|
        0 <= r < goal.len() ==> (cur.nodes.contains(#[trigger] goal[r]) <==> r < w.new_start || r >= upto
            || positions[r] != -1)
    &&& forall|h: Handle| #[trigger]
        cur.nodes.contains(h) ==> goal.contains(h) || (h matches Handle::Rendered(i) && doomed.contains(i as int))
    &&& forall|i: int| #[trigger]
        doomed.contains(i) ==> w.prev_start <= i < w.prev_end && !new.contains(rendered[i])
            && cur.nodes.contains(Handle::Rendered(i as usize))
    &&& forall|a: int, b: int|
        0 <= a < b < goal.len() && settled(w, run, upto, a) && settled(w, run, upto, b) ==> #[trigger] precedes(
            cur.nodes,
            goal[a],
            goal[b],
        )
    &&& cur.refreshed == Map::new(
        |i: int|
            0 <= i < rendered.len() && new.contains(rendered[i]) && (new.index_of(rendered[i]) < w.new_start
                || new.index_of(rendered[i]) >= upto),
        |i: int| new.index_of(rendered[i]),
    )
    &&& cur.created == Set::new(|r: int| upto <= r < w.new_end && positions[r] == -1)
    &&& cur.removed == Set::new(
        |i: int| w.prev_start <= i < w.prev_end && !new.contains(rendered[i]) && !doomed.contains(i),
    )
    &&& cur.moved.subset_of(cur.refreshed.dom())
    &&& cur.moved.finite()
    &&& forall|i: int| #[trigger] cur.moved.contains(i) ==> base.moved.contains(i) || w.prev_start <= i < w.prev_end
}

/// The nodes of the window that no item wants.
spec fn unwanted(rendered: Seq<u64>, new: Seq<u64>, w: Window) -> Set<int> {
    Set::new(|i: int| w.prev_start <= i < w.prev_end && !new.contains(rendered[i]))
}

/// Two members of a run stand in the run's order.
proof fn lemma_run_order(positions: Seq<isize>, start: int, end: int, run: Seq<int>, a: int, b: int)
    requires
        is_increasing_run(positions, start, end, run),
        run.contains(a),
        run.contains(b),
        a < b,
    ensures
        0 <= positions[a] < positions[b],
        start <= a < b < end,
{
    let x = choose|x: int| 0 <= x < run.len() && run[x] == a;
    let y = choose|y: int| 0 <= y < run.len() && run[y] == b;
    if y < x {
        assert(run[y] < run[x]);
    }
    assert(x < y);
}

/// After trimming and a survey, the placing can begin.
proof fn lemma_begin_placing(
    rendered: Seq<u64>,
    new: Seq<u64>,
    w: Window,
    cur: ChildList,
    positions: Seq<isize>,
    run: Seq<int>,
)
    requires
        trimmed(rendered, new, w, cur),
        surveyed(rendered, new, w, positions),
        is_increasing_run(positions, w.new_start as int, w.new_end as int, run),
    ensures
        placing(rendered, new, w, cur, positions, run, w.new_end as int, unwanted(rendered, new, w), cur),
{
    let goal = arrangement(rendered, new);
    let ps = w.prev_start as int;
    let pe = w.prev_end as int;
    let ns = w.new_start as int;
    let ne = w.new_end as int;
    let doomed = unwanted(rendered, new, w);
    let nodes = cur.nodes;
    lemma_arrangement_distinct(rendered, new);
    assert forall|r: int| ns <= r < ne implies (positions[r] == -1 ==> #[trigger] goal[r] == Handle::Created(
        r as usize,
    )) && (positions[r] != -1 ==> goal[r] == Handle::Rendered(positions[r] as usize)) by {
        lemma_unplaced_is_fresh(rendered, new, w, cur, positions, r);
    }
    // where each wanted node stands
    assert forall|r: int| 0 <= r < ns implies nodes[r] == #[trigger] goal[r] by {}
    assert forall|r: int| ne <= r < goal.len() implies nodes[ns + (pe - ps) + (r - ne)] == #[trigger] goal[r] by {}
    assert forall|r: int| ns <= r < ne && positions[r] != -1 implies nodes[ns + (positions[r] - ps)]
        == #[trigger] goal[r] by {}
    assert forall|r: int| 0 <= r < goal.len() implies (nodes.contains(#[trigger] goal[r]) <==> r < ns || r >= ne
        || positions[r] != -1) by {
        if r < ns {
            assert(nodes[r] == goal[r]);
        } else if r >= ne {
            assert(nodes[ns + (pe - ps) + (r - ne)] == goal[r]);
        } else if positions[r] != -1 {
            assert(nodes[ns + (positions[r] - ps)] == goal[r]);
        } else {
            if nodes.contains(goal[r]) {
                let k = choose|k: int| 0 <= k < nodes.len() && nodes[k] == goal[r];
                if k < ns {
                    assert(nodes[k] == goal[k]);
                } else if k >= ns + (pe - ps) {
                    assert(nodes[k] == goal[k - ns - (pe - ps) + ne]);
                }
            }
        }
    }
    assert forall|h: Handle| #[trigger] nodes.contains(h) implies goal.contains(h) || (h matches Handle::Rendered(i)
        && doomed.contains(i as int)) by {
        let k = choose|k: int| 0 <= k < nodes.len() && nodes[k] == h;
        if k < ns {
            assert(goal[k] == h);
        } else if k >= ns + (pe - ps) {
            assert(goal[k - ns - (pe - ps) + ne] == h);
        } else {
            let i = ps + (k - ns);
            assert(h == Handle::Rendered(i as usize));
            if new.contains(rendered[i]) {
                lemma_kept_in_window(rendered, new, w, cur, i);
                lemma_match(rendered, new, i, new.index_of(rendered[i]));
                assert(goal[new.index_of(rendered[i])] == h);
            }
        }
    }
    assert forall|i: int| #[trigger] doomed.contains(i) implies nodes.contains(Handle::Rendered(i as usize)) by {
        assert(nodes[ns + (i - ps)] == Handle::Rendered(i as usize));
    }
    assert forall|a: int, b: int|
        0 <= a < b < goal.len() && settled(w, run, ne, a) && settled(w, run, ne, b) implies #[trigger] precedes(
        nodes,
        goal[a],
        goal[b],
    ) by {
        if ns <= a < ne {
            assert(run.contains(a));
            let x = choose|x: int| 0 <= x < run.len() && run[x] == a;
            assert(positions[run[x]] >= 0);
        }
        if ns <= b < ne {
            assert(run.contains(b));
            let y = choose|y: int| 0 <= y < run.len() && run[y] == b;
            assert(positions[run[y]] >= 0);
        }
        if ns <= a < ne && ns <= b < ne {
            lemma_run_order(positions, ns, ne, run, a, b);
        }
        let at = if a < ns {
            a
        } else if a >= ne {
            ns + (pe - ps) + (a - ne)
        } else {
            ns + (positions[a] - ps)
        };
        let bt = if b < ns {
            b
        } else if b >= ne {
            ns + (pe - ps) + (b - ne)
        } else {
            ns + (positions[b] - ps)
        };
        assert(0 <= at < bt < nodes.len() && nodes[at] == goal[a] && nodes[bt] == goal[b]);
    }
    assert(cur.refreshed =~= Map::new(
        |i: int|
            0 <= i < rendered.len() && new.contains(rendered[i]) && (new.index_of(rendered[i]) < ns
                || new.index_of(rendered[i]) >= ne),
        |i: int| new.index_of(rendered[i]),
    )) by {
        assert forall|i: int| ps <= i < pe && new.contains(rendered[i]) implies ns <= new.index_of(rendered[i])
            < ne by {
            lemma_kept_in_window(rendered, new, w, cur, i);
        }
    }
    assert(cur.created =~= Set::new(|r: int| ne <= r < ne && positions[r] == -1));
    assert(cur.removed =~= Set::new(|i: int| ps <= i < pe && !new.contains(rendered[i]) && !doomed.contains(i)));
}

/// No item wants an unwanted node, so none is wanted at any place.
proof fn lemma_unwanted_is_no_goal(rendered: Seq<u64>, new: Seq<u64>, i: int)
    requires
        rendered.no_duplicates(),
        new.no_duplicates(),
        0 <= i < rendered.len() <= usize::MAX,
        !new.contains(rendered[i]),
    ensures
        !arrangement(rendered, new).contains(Handle::Rendered(i as usize)),
{
    let goal = arrangement(rendered, new);
    if goal.contains(Handle::Rendered(i as usize)) {
        let r = choose|r: int| 0 <= r < goal.len() && goal[r] == Handle::Rendered(i as usize);
        lemma_id_index(rendered, new[r]);
        assert(rendered[i] == new[r]);
        assert(new.contains(rendered[i]));
    }
}

/// Taking out a node that is still to be taken out.
proof fn lemma_remove_doomed(
    rendered: Seq<u64>,
    new: Seq<u64>,
    w: Window,
    base: ChildList,
    positions: Seq<isize>,
    run: Seq<int>,
    doomed: Set<int>,
    cur: ChildList,
    i: usize,
)
    requires
        placing(rendered, new, w, base, positions, run, w.new_end as int, doomed, cur),
        doomed.contains(i as int),
    ensures
        cur.accepts(Mutation::Remove { node: i }),
        placing(
            rendered,
            new,
            w,
            base,
            positions,
            run,
            w.new_end as int,
            doomed.remove(i as int),
            cur.apply(Mutation::Remove { node: i }),
        ),
{
    let goal = arrangement(rendered, new);
    let node = Handle::Rendered(i);
    let then = cur.apply(Mutation::Remove { node: i });
    let rest = doomed.remove(i as int);
    lemma_unwanted_is_no_goal(rendered, new, i as int);
    lemma_detached(cur.nodes, node);
    assert forall|r: int| 0 <= r < goal.len() implies #[trigger] goal[r] != node by {
        assert(goal.contains(goal[r]));
    }
    assert forall|h: Handle| #[trigger] then.nodes.contains(h) implies goal.contains(h) || (h matches Handle::Rendered(
        x,
    ) && rest.contains(x as int)) by {
        assert(cur.nodes.contains(h));
    }
    assert forall|a: int, b: int|
        0 <= a < b < goal.len() && settled(w, run, w.new_end as int, a) && settled(
            w,
            run,
            w.new_end as int,
            b,
        ) implies #[trigger] precedes(then.nodes, goal[a], goal[b]) by {
        assert(precedes(cur.nodes, goal[a], goal[b]));
    }
    assert(then.removed =~= Set::new(
        |x: int| w.prev_start <= x < w.prev_end && !new.contains(rendered[x]) && !rest.contains(x),
    ));
}

/// What holds of the item placed next, `upto - 1`.
proof fn lemma_next_item(
    rendered: Seq<u64>,
    new: Seq<u64>,
    w: Window,
    base: ChildList,
    positions: Seq<isize>,
    run: Seq<int>,
    upto: int,
    cur: ChildList,
)
    requires
        placing(rendered, new, w, base, positions, run, upto, Set::empty(), cur),
        w.new_start < upto,
    ensures
        arrangement(rendered, new).no_duplicates(),
        positions[upto - 1] == -1 ==> {
            &&& arrangement(rendered, new)[upto - 1] == Handle::Created((upto - 1) as usize)
            &&& !rendered.contains(new[upto - 1])
        },
        positions[upto - 1] != -1 ==> {
            &&& w.prev_start <= positions[upto - 1] < w.prev_end
            &&& arrangement(rendered, new)[upto - 1] == Handle::Rendered(positions[upto - 1] as usize)
            &&& new.contains(rendered[positions[upto - 1] as int])
            &&& new.index_of(rendered[positions[upto - 1] as int]) == upto - 1
        },
        run.contains(upto - 1) ==> positions[upto - 1] != -1,
        positions[upto - 1] != -1 <==> rendered.contains(new[upto - 1]),
        anchor(arrangement(rendered, new), upto) matches Some(node) ==> cur.nodes.contains(node) && node
            != arrangement(rendered, new)[upto - 1],
{
    let goal = arrangement(rendered, new);
    let j = upto - 1;
    lemma_arrangement_distinct(rendered, new);
    lemma_unplaced_is_fresh(rendered, new, w, base, positions, j);
    if positions[j] != -1 {
        lemma_match(rendered, new, positions[j] as int, j);
    }
    if run.contains(j) {
        let x = choose|x: int| 0 <= x < run.len() && run[x] == j;
        assert(positions[run[x]] >= 0);
    }
    if upto < goal.len() {
        assert(cur.nodes.contains(goal[upto]));
    }
}

/// The item placed next has a node in the run of those that stay: the node
/// is refreshed where it stands.
proof fn lemma_place_kept(
    rendered: Seq<u64>,
    new: Seq<u64>,
    w: Window,
    base: ChildList,
    positions: Seq<isize>,
    run: Seq<int>,
    upto: int,
    cur: ChildList,
)
    requires
        placing(rendered, new, w, base, positions, run, upto, Set::empty(), cur),
        w.new_start < upto,
        run.contains(upto - 1),
    ensures
        positions[upto - 1] >= 0,
        rendered.contains(new[upto - 1]),
        cur.accepts(Mutation::Update { node: positions[upto - 1] as usize, item: (upto - 1) as usize }),
        placing(
            rendered,
            new,
            w,
            base,
            positions,
            run,
            upto - 1,
            Set::empty(),
            cur.apply(Mutation::Update { node: positions[upto - 1] as usize, item: (upto - 1) as usize }),
        ),
        anchor(arrangement(rendered, new), upto - 1) == Some(Handle::Rendered(positions[upto - 1] as usize)),
{
    let goal = arrangement(rendered, new);
    let j = upto - 1;
    let p = positions[j] as int;
    let then = cur.apply(Mutation::Update { node: positions[j] as usize, item: j as usize });
    lemma_next_item(rendered, new, w, base, positions, run, upto, cur);
    assert(cur.nodes.contains(goal[j]));
    assert forall|a: int, b: int|
        0 <= a < b < goal.len() && settled(w, run, j, a) && settled(w, run, j, b) implies #[trigger] precedes(
        then.nodes,
        goal[a],
        goal[b],
    ) by {
        assert(settled(w, run, upto, a) && settled(w, run, upto, b));
    }
    assert(then.refreshed =~= Map::new(
        |i: int|
            0 <= i < rendered.len() && new.contains(rendered[i]) && (new.index_of(rendered[i]) < w.new_start
                || new.index_of(rendered[i]) >= j),
        |i: int| new.index_of(rendered[i]),
    )) by {
        assert forall|i: int| 0 <= i < rendered.len() && new.contains(rendered[i]) && new.index_of(rendered[i])
            == j implies i == p by {
            lemma_id_index(new, rendered[i]);
        }
    }
    assert(then.created =~= Set::new(|r: int| j <= r < w.new_end && positions[r] == -1));
}

/// The item placed next has no node: one is built and put before the items
/// placed already.
proof fn lemma_place_created(
    rendered: Seq<u64>,
    new: Seq<u64>,
    w: Window,
    base: ChildList,
    positions: Seq<isize>,
    run: Seq<int>,
    upto: int,
    cur: ChildList,
)
    requires
        placing(rendered, new, w, base, positions, run, upto, Set::empty(), cur),
        w.new_start < upto,
        positions[upto - 1] == -1,
    ensures
        cur.accepts(
            Mutation::Create { item: (upto - 1) as usize, before: anchor(arrangement(rendered, new), upto) },
        ),
        placing(
            rendered,
            new,
            w,
            base,
            positions,
            run,
            upto - 1,
            Set::empty(),
            cur.apply(
                Mutation::Create { item: (upto - 1) as usize, before: anchor(arrangement(rendered, new), upto) },
            ),
        ),
        anchor(arrangement(rendered, new), upto - 1) == Some(Handle::Created((upto - 1) as usize)),
        !rendered.contains(new[upto - 1]),
{
    let goal = arrangement(rendered, new);
    let j = upto - 1;
    let node = Handle::Created(j as usize);
    let after = anchor(goal, upto);
    let then = cur.apply(Mutation::Create { item: j as usize, before: after });
    lemma_next_item(rendered, new, w, base, positions, run, upto, cur);
    assert(goal[j] == node);
    assert(!cur.nodes.contains(goal[j]));
    lemma_inserted(cur.nodes, node, after);
    lemma_settle_next(rendered, new, w, run, upto, cur.nodes, cur.nodes, then.nodes);
    assert forall|r: int| 0 <= r < goal.len() implies (then.nodes.contains(#[trigger] goal[r]) <==> r
        < w.new_start || r >= j || positions[r] != -1) by {
        if r != j {
            assert(goal[r] != goal[j]);
        }
    }
    assert forall|h: Handle| #[trigger] then.nodes.contains(h) implies goal.contains(h) by {
        if h != node {
            assert(cur.nodes.contains(h));
        }
    }
    assert(then.refreshed =~= Map::new(
        |i: int|
            0 <= i < rendered.len() && new.contains(rendered[i]) && (new.index_of(rendered[i]) < w.new_start
                || new.index_of(rendered[i]) >= j),
        |i: int| new.index_of(rendered[i]),
    )) by {
        assert forall|i: int| 0 <= i < rendered.len() && new.contains(rendered[i]) implies new.index_of(rendered[i])
            != j by {
            lemma_id_index(new, rendered[i]);
        }
    }
    assert(then.created =~= Set::new(|r: int| j <= r < w.new_end && positions[r] == -1));
}

/// The item placed next has a node that stands elsewhere: the node is
/// refreshed and put before the items placed already.
proof fn lemma_place_moved(
    rendered: Seq<u64>,
    new: Seq<u64>,
    w: Window,
    base: ChildList,
    positions: Seq<isize>,
    run: Seq<int>,
    upto: int,
    cur: ChildList,
)
    requires
        placing(rendered, new, w, base, positions, run, upto, Set::empty(), cur),
        w.new_start < upto,
        positions[upto - 1] >= 0,
    ensures
        cur.accepts(Mutation::Update { node: positions[upto - 1] as usize, item: (upto - 1) as usize }),
        cur.apply(Mutation::Update { node: positions[upto - 1] as usize, item: (upto - 1) as usize }).accepts(
            Mutation::Move { node: positions[upto - 1] as usize, before: anchor(arrangement(rendered, new), upto) },
        ),
        placing(
            rendered,
            new,
            w,
            base,
            positions,
            run,
            upto - 1,
            Set::empty(),
            cur.apply(Mutation::Update { node: positions[upto - 1] as usize, item: (upto - 1) as usize }).apply(
                Mutation::Move {
                    node: positions[upto - 1] as usize,
                    before: anchor(arrangement(rendered, new), upto),
                },
            ),
        ),
        anchor(arrangement(rendered, new), upto - 1) == Some(Handle::Rendered(positions[upto - 1] as usize)),
        rendered.contains(new[upto - 1]),
        cur.apply(Mutation::Update { node: positions[upto - 1] as usize, item: (upto - 1) as usize }).apply(
            Mutation::Move { node: positions[upto - 1] as usize, before: anchor(arrangement(rendered, new), upto) },
        ).moved.len() == cur.moved.len() + 1,
{
    let goal = arrangement(rendered, new);
    let j = upto - 1;
    let p = positions[j] as int;
    let node = Handle::Rendered(positions[j] as usize);
    let after = anchor(goal, upto);
    let mid = cur.apply(Mutation::Update { node: positions[j] as usize, item: j as usize });
    let then = mid.apply(Mutation::Move { node: positions[j] as usize, before: after });
    assert(!cur.moved.contains(p));
    assert(then.moved == cur.moved.insert(p));
    lemma_next_item(rendered, new, w, base, positions, run, upto, cur);
    assert(goal[j] == node);
    assert(cur.nodes.contains(goal[j]));
    lemma_detached(cur.nodes, node);
    let rest = detached(cur.nodes, node);
    lemma_inserted(rest, node, after);
    lemma_settle_next(rendered, new, w, run, upto, cur.nodes, rest, then.nodes);
    assert forall|r: int| 0 <= r < goal.len() implies (then.nodes.contains(#[trigger] goal[r]) <==> r
        < w.new_start || r >= j || positions[r] != -1) by {
        if r != j {
            assert(goal[r] != goal[j]);
        }
    }
    assert forall|h: Handle| #[trigger] then.nodes.contains(h) implies goal.contains(h) by {
        if h != node {
            assert(rest.contains(h));
            assert(cur.nodes.contains(h));
        }
    }
    assert(then.refreshed =~= Map::new(
        |i: int|
            0 <= i < rendered.len() && new.contains(rendered[i]) && (new.index_of(rendered[i]) < w.new_start
                || new.index_of(rendered[i]) >= j),
        |i: int| new.index_of(rendered[i]),
    )) by {
        assert forall|i: int| 0 <= i < rendered.len() && new.contains(rendered[i]) && new.index_of(rendered[i])
            == j implies i == p by {
            lemma_id_index(new, rendered[i]);
        }
    }
    assert(then.created =~= Set::new(|r: int| j <= r < w.new_end && positions[r] == -1));
}

/// A node put just before the items placed already stands in its final order
/// among the settled: `rest` is the list without the node, `then` the list
/// with the node put before the anchor.
proof fn lemma_settle_next(
    rendered: Seq<u64>,
    new: Seq<u64>,
    w: Window,
    run: Seq<int>,
    upto: int,
    nodes: Seq<Handle>,
    rest: Seq<Handle>,
    then: Seq<Handle>,
)
    requires
        arrangement(rendered, new).no_duplicates(),
        0 <= w.new_start < upto <= arrangement(rendered, new).len(),
        forall|a: int, b: int|
            0 <= a < b < arrangement(rendered, new).len() && settled(w, run, upto, a) && settled(w, run, upto, b)
                ==> #[trigger] precedes(nodes, arrangement(rendered, new)[a], arrangement(rendered, new)[b]),
        forall|r: int|
            0 <= r < arrangement(rendered, new).len() && settled(w, run, upto, r) ==> nodes.contains(
                #[trigger] arrangement(rendered, new)[r],
            ),
        forall|y: Handle, z: Handle|
            y != arrangement(rendered, new)[upto - 1] && z != arrangement(rendered, new)[upto - 1] ==> (
            #[trigger] precedes(rest, y, z) <==> precedes(nodes, y, z)),
        forall|y: Handle|
            y != arrangement(rendered, new)[upto - 1] ==> (#[trigger] rest.contains(y) <==> nodes.contains(y)),
        forall|y: Handle, z: Handle|
            y != arrangement(rendered, new)[upto - 1] && z != arrangement(rendered, new)[upto - 1] ==> (
            #[trigger] precedes(then, y, z) <==> precedes(rest, y, z)),
        forall|y: Handle| #[trigger]
            precedes(then, y, arrangement(rendered, new)[upto - 1]) <==> rest.contains(y) && match anchor(
                arrangement(rendered, new),
                upto,
            ) {
                Some(node) => precedes(rest, y, node),
                None => true,
            },
        forall|y: Handle| #[trigger]
            precedes(then, arrangement(rendered, new)[upto - 1], y) <==> match anchor(
                arrangement(rendered, new),
                upto,
            ) {
                Some(node) => y == node || precedes(rest, node, y),
                None => false,
            },
    ensures
        forall|a: int, b: int|
            0 <= a < b < arrangement(rendered, new).len() && settled(w, run, upto - 1, a) && settled(
                w,
                run,
                upto - 1,
                b,
            ) ==> #[trigger] precedes(then, arrangement(rendered, new)[a], arrangement(rendered, new)[b]),
{
    let goal = arrangement(rendered, new);
    let j = upto - 1;
    assert forall|a: int, b: int|
        0 <= a < b < goal.len() && settled(w, run, j, a) && settled(w, run, j, b) implies #[trigger] precedes(
        then,
        goal[a],
        goal[b],
    ) by {
        if a != j && b != j {
            assert(settled(w, run, upto, a) && settled(w, run, upto, b));
            assert(goal[a] != goal[j] && goal[b] != goal[j]);
            assert(precedes(nodes, goal[a], goal[b]));
            assert(precedes(rest, goal[a], goal[b]));
        } else if b == j {
            assert(settled(w, run, upto, a));
            assert(goal[a] != goal[j]);
            assert(nodes.contains(goal[a]));
            assert(rest.contains(goal[a]));
            if upto < goal.len() {
                assert(settled(w, run, upto, upto));
                assert(goal[upto] != goal[j]);
                assert(precedes(nodes, goal[a], goal[upto]));
                assert(precedes(rest, goal[a], goal[upto]));
            }
        } else {
            assert(upto < goal.len());
            assert(settled(w, run, upto, b));
            if b != upto {
                assert(settled(w, run, upto, upto));
                assert(goal[b] != goal[j] && goal[upto] != goal[j]);
                assert(precedes(nodes, goal[upto], goal[b]));
                assert(precedes(rest, goal[upto], goal[b]));
            }
        }
    }
}

/// When every item of the window is placed and no node is left to take out,
/// the reconciliation is done.
proof fn lemma_placed_all(
    rendered: Seq<u64>,
    new: Seq<u64>,
    w: Window,
    base: ChildList,
    positions: Seq<isize>,
    run: Seq<int>,
    cur: ChildList,
)
    requires
        placing(rendered, new, w, base, positions, run, w.new_start as int, Set::empty(), cur),
    ensures
        reconciled(rendered, new, cur),
{
    let goal = arrangement(rendered, new);
    lemma_arrangement_distinct(rendered, new);
    assert forall|k: int| 0 <= k < cur.nodes.len() implies goal.contains(#[trigger] cur.nodes[k]) by {
        assert(cur.nodes.contains(cur.nodes[k]));
    }
    assert forall|a: int, b: int| 0 <= a < b < goal.len() implies precedes(
        cur.nodes,
        #[trigger] goal[a],
        #[trigger] goal[b],
    ) by {
        assert(settled(w, run, w.new_start as int, a) && settled(w, run, w.new_start as int, b));
    }
    lemma_same_order(cur.nodes, goal);
    lemma_tally(rendered, new, w, base, positions);
    assert(cur.refreshed =~= kept(rendered, new));
    assert(cur.created =~= fresh(rendered, new));
    assert(cur.removed =~= dropped(rendered, new));
}

/// After trimming, the nodes and items outside the window are those that
/// found a partner there; with a survey, an item in the window lacks a
/// position just when its id was not rendered.
proof fn lemma_tally(rendered: Seq<u64>, new: Seq<u64>, w: Window, base: ChildList, positions: Seq<isize>)
    requires
        trimmed(rendered, new, w, base),
        surveyed(rendered, new, w, positions),
    ensures
        forall|r: int|
            0 <= r < new.len() ==> (!rendered.contains(#[trigger] new[r]) <==> w.new_start <= r < w.new_end
                && positions[r] == -1),
        forall|i: int|
            0 <= i < rendered.len() && !new.contains(#[trigger] rendered[i]) ==> w.prev_start <= i < w.prev_end,
{
    assert forall|r: int| 0 <= r < new.len() implies (!rendered.contains(#[trigger] new[r]) <==> w.new_start <= r
        < w.new_end && positions[r] == -1) by {
        if w.new_start <= r < w.new_end {
            lemma_unplaced_is_fresh(rendered, new, w, base, positions, r);
        }
    }
}

/// The nodes among `listed[from..]`.
spec fn pending(listed: Seq<usize>, from: int) -> Set<int> {
    Set::new(|i: int| exists|k: int| from <= k < listed.len() && #[trigger] listed[k] == i)
}

/// Clearing a container that holds rendered nodes only takes all of them out.
proof fn lemma_clear(count: int, cur: ChildList)
    requires
        0 <= count <= usize::MAX,
        cur.nodes == stretch(0, count),
    ensures
        cur.apply(Mutation::Clear) == (ChildList {
            nodes: Seq::empty(),
            removed: cur.removed.union(span(0, count)),
            ..cur
        }),
{
    let gone = Set::new(|i: int| 0 <= i <= usize::MAX && cur.nodes.contains(Handle::Rendered(i as usize)));
    assert forall|i: int| gone.contains(i) <==> span(0, count).contains(i) by {
        if span(0, count).contains(i) {
            assert(cur.nodes[i] == Handle::Rendered(i as usize));
        }
        if gone.contains(i) {
            let k = choose|k: int| 0 <= k < cur.nodes.len() && cur.nodes[k] == Handle::Rendered(i as usize);
            assert(cur.nodes[k] == Handle::Rendered(k as usize));
        }
    }
    assert(gone =~= span(0, count));
}

/// Where trimming matched nothing, the window is all there is.
proof fn lemma_nothing_matched(rendered: Seq<u64>, new: Seq<u64>, w: Window, cur: ChildList)
    requires
        trimmed(rendered, new, w, cur),
        w.new_start == 0,
        w.new_end == new.len(),
    ensures
        w.prev_start == 0,
        w.prev_end == rendered.len(),
{
    if w.prev_start > 0 {
        assert(new.contains(rendered[0]));
        lemma_id_index(new, rendered[0]);
    }
    if w.prev_end < rendered.len() {
        assert(new.contains(rendered[rendered.len() - 1]));
        lemma_id_index(new, rendered[rendered.len() - 1]);
    }
}

/// Where no node of the window is wanted and no item of the window has a
/// node, taking the nodes out and building the items' nodes in their place
/// ends the reconciliation.
proof fn lemma_rebuilt(rendered: Seq<u64>, new: Seq<u64>, w: Window, base: ChildList, end: ChildList)
    requires
        trimmed(rendered, new, w, base),
        forall|i: int| w.prev_start <= i < w.prev_end ==> !new.contains(#[trigger] rendered[i]),
        forall|j: int| w.new_start <= j < w.new_end ==> !rendered.contains(#[trigger] new[j]),
        end == (ChildList {
            nodes: arrangement(rendered, new),
            removed: base.removed.union(span(w.prev_start as int, w.prev_end as int)),
            created: base.created.union(span(w.new_start as int, w.new_end as int)),
            ..base
        }),
    ensures
        reconciled(rendered, new, end),
{
    assert(end.refreshed =~= kept(rendered, new));
    assert(end.created =~= fresh(rendered, new));
    assert(end.removed =~= dropped(rendered, new));
}

/// Where the window has no items left, none of its nodes is wanted.
proof fn lemma_shrink(rendered: Seq<u64>, new: Seq<u64>, w: Window, cur: ChildList)
    requires
        trimmed(rendered, new, w, cur),
        w.new_start == w.new_end,
    ensures
        forall|i: int| w.prev_start <= i < w.prev_end ==> !new.contains(#[trigger] rendered[i]),
{
    assert forall|i: int| w.prev_start <= i < w.prev_end implies !new.contains(#[trigger] rendered[i]) by {
        if new.contains(rendered[i]) {
            lemma_kept_in_window(rendered, new, w, cur, i);
        }
    }
}

/// Where the window has no nodes left, none of its items has a node.
proof fn lemma_grow(rendered: Seq<u64>, new: Seq<u64>, w: Window, cur: ChildList)
    requires
        trimmed(rendered, new, w, cur),
        w.prev_start == w.prev_end,
    ensures
        forall|j: int| w.new_start <= j < w.new_end ==> !rendered.contains(#[trigger] new[j]),
        forall|j: int|
            w.new_start <= j < w.new_end ==> #[trigger] arrangement(rendered, new)[j] == Handle::Created(j as usize),
{
    assert forall|j: int| w.new_start <= j < w.new_end implies !rendered.contains(#[trigger] new[j]) by {
        if rendered.contains(new[j]) {
            let i = rendered.index_of(new[j]);
            lemma_id_index(rendered, new[j]);
            lemma_match(rendered, new, i, j);
            assert(new.contains(rendered[i]) && !(w.new_start <= new.index_of(rendered[i]) < w.new_end));
        }
    }
}

/// Refreshing nodes where they stand builds, removes and moves nothing.
proof fn lemma_refreshes_only(start: ChildList, node: int, item: int, count: int)
    requires
        count >= 0,
    ensures
        start.apply_all(refreshes(node, item, count)).nodes == start.nodes,
        start.apply_all(refreshes(node, item, count)).created == start.created,
        start.apply_all(refreshes(node, item, count)).removed == start.removed,
        start.apply_all(refreshes(node, item, count)).moved == start.moved,
    decreases count,
{
    if count > 0 {
        lemma_refreshes_only(start, node, item, count - 1);
        assert(refreshes(node, item, count).drop_last() =~= refreshes(node, item, count - 1));
    }
}

/// The number of kept items is not negative.
proof fn lemma_kept_between(rendered: Seq<u64>, new: Seq<u64>, from: int, to: int)
    ensures
        0 <= kept_between(rendered, new, from, to),
    decreases to - from,
{
    if from < to {
        lemma_kept_between(rendered, new, from + 1, to);
    }
}

/// A run is no longer than there are kept items where it runs.
proof fn lemma_run_fits(rendered: Seq<u64>, new: Seq<u64>, from: int, to: int, run: Seq<int>)
    requires
        0 <= from,
        to <= new.len(),
        is_increasing_run(wanted_positions(rendered, new), from, to, run),
    ensures
        run.len() <= kept_between(rendered, new, from, to),
    decreases to - from,
{
    lemma_kept_between(rendered, new, from, to);
    if run.len() > 0 {
        assert(from <= run[0] < to);
        let rest = if run[0] == from {
            run.drop_first()
        } else {
            run
        };
        assert forall|k: int| 0 <= k < rest.len() implies from + 1 <= #[trigger] rest[k] < to
            && wanted_positions(rendered, new)[rest[k]] >= 0 by {
            if run[0] == from {
                assert(rest[k] == run[k + 1]);
                assert(run[0] < run[k + 1]);
            } else {
                if k > 0 {
                    assert(run[0] < run[k]);
                }
            }
        }
        assert forall|a: int, b: int| 0 <= a < b < rest.len() implies rest[a] < rest[b] && wanted_positions(
            rendered,
            new,
        )[rest[a]] < wanted_positions(rendered, new)[rest[b]] by {
            if run[0] == from {
                assert(rest[a] == run[a + 1] && rest[b] == run[b + 1]);
            }
        }
        lemma_run_fits(rendered, new, from + 1, to, rest);
        if run[0] == from {
            assert(wanted_positions(rendered, new)[run[0]] >= 0);
            assert(rendered.contains(new[from]));
        }
    }
}

/// A run among the wanted positions of the window's items is a run among
/// the positions that the survey found.
proof fn lemma_run_transfer(
    rendered: Seq<u64>,
    new: Seq<u64>,
    w: Window,
    base: ChildList,
    positions: Seq<isize>,
    run: Seq<int>,
)
    requires
        trimmed(rendered, new, w, base),
        surveyed(rendered, new, w, positions),
        is_increasing_run(wanted_positions(rendered, new), w.new_start as int, w.new_end as int, run),
    ensures
        is_increasing_run(positions, w.new_start as int, w.new_end as int, run),
{
    assert forall|r: int| w.new_start <= r < w.new_end implies #[trigger] positions[r] == wanted_positions(
        rendered,
        new,
    )[r] by {
        lemma_unplaced_is_fresh(rendered, new, w, base, positions, r);
        if positions[r] != -1 {
            lemma_match(rendered, new, positions[r] as int, r);
        }
    }
    assert forall|k: int| 0 <= k < run.len() implies w.new_start <= #[trigger] run[k] < w.new_end
        && positions[run[k]] >= 0 by {
        assert(positions[run[k]] == wanted_positions(rendered, new)[run[k]]);
    }
    assert forall|a: int, b: int| 0 <= a < b < run.len() implies run[a] < run[b] && positions[run[a]]
        < positions[run[b]] by {
        assert(positions[run[a]] == wanted_positions(rendered, new)[run[a]]);
        assert(positions[run[b]] == wanted_positions(rendered, new)[run[b]]);
    }
}

/// Places the items of a window that trimming could not narrow: finds the
/// nodes that are wanted again, takes the others out, leaves a longest run of
/// nodes that stand in the wanted order where they are, and puts every other
/// item's node, built where there is none, before the item that follows it.
fn settle(
    rendered: &[u64],
    new: &[u64],
    w: &Window,
    bounded: bool,
    plan: &mut Vec<Mutation>,
    Ghost(start): Ghost<ChildList>,
)
    requires
        start.accepts_all(old(plan)@),
        trimmed(rendered@, new@, *w, start.apply_all(old(plan)@)),
        w.prev_start < w.prev_end,
        w.new_start < w.new_end,
        rendered@.len() <= isize::MAX,
        new@.len() <= isize::MAX,
    ensures
        start.accepts_all(final(plan)@),
        reconciled(rendered@, new@, start.apply_all(final(plan)@)),
        bounded && clear_free(old(plan)@) ==> clear_free(final(plan)@),
        final(plan)@.len() <= old(plan)@.len() + (w.prev_end - w.prev_start) + 2 * (w.new_end - w.new_start),
        start.apply_all(final(plan)@).moved.finite(),
        forall|i: int| #[trigger]
            start.apply_all(final(plan)@).moved.contains(i) ==> start.apply_all(old(plan)@).moved.contains(i)
                || w.prev_start <= i < w.prev_end,
        forall|other: Seq<int>| #[trigger]
            is_increasing_run(wanted_positions(rendered@, new@), w.new_start as int, w.new_end as int, other)
                ==> start.apply_all(final(plan)@).moved.len() + other.len() <= start.apply_all(
                old(plan)@,
            ).moved.len() + kept_between(rendered@, new@, w.new_start as int, w.new_end as int),
{
    let ghost base = start.apply_all(plan@);
    let ghost before = plan@;
    let ghost goal = arrangement(rendered@, new@);
    let (positions, doomed, reused) = survey(rendered, new, w, Ghost(base));
    proof {
        lemma_arrangement_distinct(rendered@, new@);
        lemma_tally(rendered@, new@, *w, base, positions@);
    }
    if reused == 0 {
        proof {
            assert forall|j: int| w.new_start <= j < w.new_end implies !rendered@.contains(#[trigger] new@[j])
                && goal[j] == Handle::Created(j as usize) by {
                if rendered@.contains(new@[j]) {
                    lemma_unplaced_is_fresh(rendered@, new@, *w, base, positions@, j);
                    lemma_match(rendered@, new@, positions@[j] as int, j);
                    assert(new@.contains(rendered@[positions@[j] as int]));
                }
            }
        }
        if !bounded && w.new_start == 0 && w.new_end == new.len() {
            proof {
                lemma_nothing_matched(rendered@, new@, *w, base);
                assert(base.nodes =~= stretch(0, rendered@.len() as int));
                lemma_clear(rendered@.len() as int, base);
                lemma_plan_push(start, plan@, Mutation::Clear);
                assert(Seq::<Handle>::empty() =~= goal.subrange(0, 0) + goal.subrange(
                    new@.len() as int,
                    new@.len() as int,
                ));
            }
            plan.push(Mutation::Clear);
        } else {
            discard_rest(
                plan,
                w.prev_start,
                w.prev_end,
                Ghost(start),
                Ghost(goal.subrange(0, w.new_start as int)),
                Ghost(goal.subrange(w.new_end as int, new@.len() as int)),
            );
        }
        proof {
            assert(start.apply_all(plan@).created.disjoint(span(w.new_start as int, w.new_end as int)));
        }
        create_rest(plan, w.new_start, w.new_end, w.after, Ghost(start), Ghost(goal));
        proof {
            lemma_rebuilt(rendered@, new@, *w, base, start.apply_all(plan@));
            assert(start.apply_all(plan@).moved == base.moved);
            assert forall|other: Seq<int>| #[trigger]
                is_increasing_run(
                    wanted_positions(rendered@, new@),
                    w.new_start as int,
                    w.new_end as int,
                    other,
                ) implies other.len() <= kept_between(rendered@, new@, w.new_start as int, w.new_end as int) by {
                lemma_run_fits(rendered@, new@, w.new_start as int, w.new_end as int, other);
            }
        }
        return ;
    }
    let lis = longest_positive_increasing_subsequence(positions.as_slice(), w.new_start);
    let ghost run = as_indices(lis@);
    proof {
        lemma_begin_placing(rendered@, new@, *w, base, positions@, run);
        assert(pending(doomed@, 0) =~= unwanted(rendered@, new@, *w)) by {
            assert forall|i: int| unwanted(rendered@, new@, *w).contains(i) implies pending(doomed@, 0).contains(
                i,
            ) by {
                assert(doomed@.contains(i as usize));
                let k = choose|k: int| 0 <= k < doomed@.len() && doomed@[k] == i as usize;
                assert(doomed@[k] == i);
            }
        }
    }
    let mut k: usize = 0;
    while k < doomed.len()
        invariant
            k <= doomed.len(),
            doomed@.no_duplicates(),
            start.accepts_all(plan@),
            placing(
                rendered@,
                new@,
                *w,
                base,
                positions@,
                run,
                w.new_end as int,
                pending(doomed@, k as int),
                start.apply_all(plan@),
            ),
            clear_free(before) ==> clear_free(plan@),
            plan@.len() == before.len() + k,
            start.apply_all(plan@).moved == base.moved,
        decreases doomed.len() - k,
    {
        let step = Mutation::Remove { node: doomed[k] };
        proof {
            assert(pending(doomed@, k as int).contains(doomed@[k as int] as int));
            lemma_remove_doomed(
                rendered@,
                new@,
                *w,
                base,
                positions@,
                run,
                pending(doomed@, k as int),
                start.apply_all(plan@),
                doomed@[k as int],
            );
            lemma_plan_push(start, plan@, step);
            assert(pending(doomed@, k as int).remove(doomed@[k as int] as int) =~= pending(doomed@, k + 1));
        }
        plan.push(step);
        k += 1;
    }
    proof {
        assert(pending(doomed@, doomed@.len() as int) =~= Set::<int>::empty());
        assert forall|a: int| 0 <= a < lis@.len() implies #[trigger] lis@[a] < w.new_end by {
            assert(run[a] == lis@[a]);
        }
    }
    let mut upto: usize = w.new_end;
    let mut after: Option<Handle> = w.after;
    let mut member: usize = lis.len();
    while upto > w.new_start
        invariant
            new@.len() <= isize::MAX,
            goal == arrangement(rendered@, new@),
            run == as_indices(lis@),
            member <= lis.len(),
            start.accepts_all(plan@),
            placing(rendered@, new@, *w, base, positions@, run, upto as int, Set::empty(), start.apply_all(plan@)),
            after == anchor(goal, upto as int),
            clear_free(before) ==> clear_free(plan@),
            upto <= w.new_end,
            plan@.len() <= before.len() + doomed@.len() + 2 * (w.new_end - upto),
            forall|a: int| 0 <= a < member ==> #[trigger] lis@[a] < upto,
            start.apply_all(plan@).moved.len() + (lis@.len() - member) == base.moved.len() + kept_between(
                rendered@,
                new@,
                upto as int,
                w.new_end as int,
            ),
        decreases upto,
    {
        let item: usize = upto - 1;
        let position: isize = positions[item];
        let ghost cur = start.apply_all(plan@);
        proof {
            assert forall|a: int| 0 <= a < member - 1 implies #[trigger] lis@[a] < lis@[member - 1] by {
                assert(run[a] == lis@[a] && run[member - 1] == lis@[member - 1]);
            }
        }
        if member > 0 && lis[member - 1] == item as isize {
            let step = Mutation::Update { node: position as usize, item };
            proof {
                assert(run[member - 1] == item);
                lemma_place_kept(rendered@, new@, *w, base, positions@, run, upto as int, cur);
                lemma_plan_push(start, plan@, step);
            }
            plan.push(step);
            after = Some(Handle::Rendered(position as usize));
            member -= 1;
        } else if position < 0 {
            let step = Mutation::Create { item, before: after };
            proof {
                lemma_place_created(rendered@, new@, *w, base, positions@, run, upto as int, cur);
                lemma_plan_push(start, plan@, step);
            }
            plan.push(step);
            after = Some(Handle::Created(item));
        } else {
            let refresh = Mutation::Update { node: position as usize, item };
            let relocate = Mutation::Move { node: position as usize, before: after };
            proof {
                lemma_place_moved(rendered@, new@, *w, base, positions@, run, upto as int, cur);
                lemma_plan_push(start, plan@, refresh);
                lemma_plan_push(start, plan@.push(refresh), relocate);
            }
            plan.push(refresh);
            plan.push(relocate);
            after = Some(Handle::Rendered(position as usize));
        }
        upto = item;
    }
    proof {
        lemma_placed_all(rendered@, new@, *w, base, positions@, run, start.apply_all(plan@));
        if member > 0 {
            assert(run[0] == lis@[0]);
            assert(w.new_start <= run[0]);
        }
        assert forall|other: Seq<int>| #[trigger]
            is_increasing_run(
                wanted_positions(rendered@, new@),
                w.new_start as int,
                w.new_end as int,
                other,
            ) implies other.len() <= lis@.len() by {
            lemma_run_transfer(rendered@, new@, *w, base, positions@, other);
        }
    }
}

/// Ends the reconciliation on the window that trimming left. Where no item
/// is left, the nodes left are taken out; where no node is left, nodes are
/// built for the items left; and else the items are placed as [`settle`]
/// places them. No node outside the window is moved, and of the nodes in it
/// at most as many as are kept in it, less the length of any run of rising
/// wanted positions in it.
fn complete(
    rendered: &[u64],
    new: &[u64],
    w: &Window,
    bounded: bool,
    plan: &mut Vec<Mutation>,
    Ghost(start): Ghost<ChildList>,
)
    requires
        start.accepts_all(old(plan)@),
        in_trim(rendered@, new@, *w, start.apply_all(old(plan)@)),
        rendered@.len() <= isize::MAX,
        new@.len() <= isize::MAX,
    ensures
        start.accepts_all(final(plan)@),
        reconciled(rendered@, new@, start.apply_all(final(plan)@)),
        bounded && clear_free(old(plan)@) ==> clear_free(final(plan)@),
        final(plan)@.len() <= old(plan)@.len() + (w.prev_end - w.prev_start) + 2 * (w.new_end - w.new_start),
        w.prev_start == w.prev_end && w.new_start == w.new_end ==> final(plan)@ == old(plan)@,
        start.apply_all(final(plan)@).moved.finite(),
        forall|i: int| #[trigger]
            start.apply_all(final(plan)@).moved.contains(i) ==> start.apply_all(old(plan)@).moved.contains(i)
                || w.prev_start <= i < w.prev_end,
        forall|other: Seq<int>| #[trigger]
            is_increasing_run(wanted_positions(rendered@, new@), w.new_start as int, w.new_end as int, other)
                ==> start.apply_all(final(plan)@).moved.len() + other.len() <= start.apply_all(
                old(plan)@,
            ).moved.len() + kept_between(rendered@, new@, w.new_start as int, w.new_end as int),
{
    let ghost base = start.apply_all(plan@);
    let ghost before = plan@;
    let ghost goal = arrangement(rendered@, new@);
    proof {
        reveal(in_trim);
    }
    if w.new_start == w.new_end || w.prev_start == w.prev_end {
        if w.new_start == w.new_end {
            proof {
                lemma_shrink(rendered@, new@, *w, base);
            }
            discard_rest(
                plan,
                w.prev_start,
                w.prev_end,
                Ghost(start),
                Ghost(goal.subrange(0, w.new_start as int)),
                Ghost(goal.subrange(w.new_end as int, new@.len() as int)),
            );
            proof {
                let end = start.apply_all(plan@);
                assert(end.nodes =~= goal);
                assert(end.created =~= base.created.union(span(w.new_start as int, w.new_end as int)));
                lemma_rebuilt(rendered@, new@, *w, base, end);
                if w.prev_start == w.prev_end {
                    assert(plan@ =~= before);
                }
            }
        } else {
            proof {
                lemma_grow(rendered@, new@, *w, base);
                assert(base.nodes =~= goal.subrange(0, w.new_start as int) + goal.subrange(
                    w.new_end as int,
                    new@.len() as int,
                ));
                lemma_arrangement_distinct(rendered@, new@);
            }
            create_rest(plan, w.new_start, w.new_end, w.after, Ghost(start), Ghost(goal));
            proof {
                let end = start.apply_all(plan@);
                assert(end.removed =~= base.removed.union(span(w.prev_start as int, w.prev_end as int)));
                lemma_rebuilt(rendered@, new@, *w, base, end);
            }
        }
        proof {
            assert(start.apply_all(plan@).moved == base.moved);
            assert forall|other: Seq<int>| #[trigger]
                is_increasing_run(
                    wanted_positions(rendered@, new@),
                    w.new_start as int,
                    w.new_end as int,
                    other,
                ) implies other.len() <= kept_between(rendered@, new@, w.new_start as int, w.new_end as int) by {
                lemma_run_fits(rendered@, new@, w.new_start as int, w.new_end as int, other);
            }
        }
    } else {
        settle(rendered, new, w, bounded, plan, Ghost(start));
    }
}

/// The matches at the head and at the tail of a window fit into it.
proof fn lemma_matches_fit(rendered: Seq<u64>, new: Seq<u64>, ps: int, pe: int, ns: int, ne: int)
    requires
        ps <= pe,
        ns <= ne,
    ensures
        0 <= head_matches(rendered, new, ps, pe, ns, ne) <= pe - ps,
        head_matches(rendered, new, ps, pe, ns, ne) <= ne - ns,
        0 <= tail_matches(rendered, new, ps, pe, ns, ne) <= pe - ps,
        tail_matches(rendered, new, ps, pe, ns, ne) <= ne - ns,
    decreases pe - ps,
{
    if ps < pe && ns < ne {
        lemma_matches_fit(rendered, new, ps + 1, pe, ns + 1, ne);
        lemma_matches_fit(rendered, new, ps, pe - 1, ns, ne - 1);
    }
}

/// The middle of the whole of both lists lies between their common prefix
/// and their common suffix.
proof fn lemma_middle(rendered: Seq<u64>, new: Seq<u64>, w: Window)
    requires
        rendered.len() <= usize::MAX,
        new.len() <= usize::MAX,
        w.prev_start == 0,
        w.new_start == 0,
        w.prev_end == rendered.len(),
        w.new_end == new.len(),
    ensures
        0 <= common_prefix(rendered, new),
        0 <= common_suffix(rendered, new),
        common_prefix(rendered, new) + common_suffix(rendered, new) <= rendered.len(),
        common_prefix(rendered, new) + common_suffix(rendered, new) <= new.len(),
        middle(rendered, new, w).prev_start == common_prefix(rendered, new),
        middle(rendered, new, w).new_start == common_prefix(rendered, new),
        middle(rendered, new, w).prev_end == rendered.len() - common_suffix(rendered, new),
        middle(rendered, new, w).new_end == new.len() - common_suffix(rendered, new),
        quiet(rendered, new, middle(rendered, new, w)) == uncrossed(rendered, new),
{
    reveal(middle);
    let lo = common_prefix(rendered, new);
    lemma_matches_fit(rendered, new, 0, rendered.len() as int, 0, new.len() as int);
    lemma_matches_fit(rendered, new, lo, rendered.len() as int, lo, new.len() as int);
}

/// A reconciliation that moves nothing is sparing.
proof fn lemma_sparing_unmoved(rendered: Seq<u64>, new: Seq<u64>, end: ChildList)
    requires
        rendered.len() <= usize::MAX,
        new.len() <= usize::MAX,
        end.moved == Set::<int>::empty(),
    ensures
        sparing(rendered, new, end),
{
    let lo = common_prefix(rendered, new);
    let back = common_suffix(rendered, new);
    lemma_matches_fit(rendered, new, 0, rendered.len() as int, 0, new.len() as int);
    lemma_matches_fit(rendered, new, lo, rendered.len() as int, lo, new.len() as int);
    assert forall|run: Seq<int>| #[trigger]
        is_increasing_run(wanted_positions(rendered, new), lo, new.len() - back, run) implies end.moved.len()
        + run.len() <= kept_between(rendered, new, lo, new.len() - back) by {
        lemma_run_fits(rendered, new, lo, new.len() - back, run);
    }
}

/// Plans the mutations that turn the children rendered for `rendered_ids`
/// into the children wanted for `new_ids`.
///
/// The rendered nodes are numbered by their place among `rendered_ids`, the
/// new items by their place among `new_ids`. `bounded` says that the range is
/// held between boundary nodes, so that the container holds more than the
/// range and is never cleared as a whole.
///
/// The host can carry the plan out step by step. What it leaves then is the
/// wanted arrangement: for each new id in turn the very node that was
/// rendered for that id, or a node built for it where none was rendered.
/// Every node that stays was refreshed with its item, before it was moved if
/// it was; the nodes built are those of the ids that are new, the nodes taken
/// out those of the ids that are gone. The nodes that head and tail of the
/// two lists have in common are not moved, and where nothing between them is
/// wanted at the other end, a longest run of nodes that stand in the wanted
/// order stays where it is. No id may stand twice in either list.
pub fn reconcile(rendered_ids: &[u64], new_ids: &[u64], bounded: bool) -> (plan: Vec<Mutation>)
    requires
        rendered_ids@.no_duplicates(),
        new_ids@.no_duplicates(),
        rendered_ids@.len() <= isize::MAX,
        new_ids@.len() <= isize::MAX,
    ensures
        ChildList::rendered(rendered_ids@.len()).accepts_all(plan@),
        reconciled(rendered_ids@, new_ids@, ChildList::rendered(rendered_ids@.len()).apply_all(plan@)),
        bounded ==> clear_free(plan@),
        plan@.len() <= 2 * new_ids@.len() + rendered_ids@.len() + 1,
        sparing(rendered_ids@, new_ids@, ChildList::rendered(rendered_ids@.len()).apply_all(plan@)),
        rendered_ids@ == new_ids@ ==> {
            &&& ChildList::rendered(rendered_ids@.len()).apply_all(plan@).created.is_empty()
            &&& ChildList::rendered(rendered_ids@.len()).apply_all(plan@).removed.is_empty()
            &&& ChildList::rendered(rendered_ids@.len()).apply_all(plan@).moved.is_empty()
        },
        rendered_ids@ == new_ids@ && new_ids@.len() > 0 ==> plan@ == refreshes(0, 0, new_ids@.len() as int),
        new_ids@.len() == 0 && !bounded ==> plan@ == seq![Mutation::Clear],
        new_ids@.len() == 0 && bounded ==> plan@ == Seq::new(
            rendered_ids@.len(),
            |i: int| Mutation::Remove { node: i as usize },
        ),
        rendered_ids@.len() == 0 && new_ids@.len() > 0 ==> plan@ == Seq::new(
            new_ids@.len(),
            |j: int| Mutation::Create { item: j as usize, before: None },
        ),
{
    let ghost start = ChildList::rendered(rendered_ids@.len());
    let ghost goal = arrangement(rendered_ids@, new_ids@);
    let mut plan: Vec<Mutation> = Vec::new();
    let mut w = Window {
        prev_start: 0,
        prev_end: rendered_ids.len(),
        new_start: 0,
        new_end: new_ids.len(),
        after: None,
    };
    proof {
        lemma_trimmed_at_first(rendered_ids@, new_ids@);
        lemma_arrangement_distinct(rendered_ids@, new_ids@);
        assert(start.nodes =~= Seq::<Handle>::empty() + stretch(0, rendered_ids@.len() as int) + Seq::<
            Handle,
        >::empty());
        assert(goal.subrange(0, 0) =~= Seq::<Handle>::empty());
        assert(goal.subrange(new_ids@.len() as int, new_ids@.len() as int) =~= Seq::<Handle>::empty());
    }
    if new_ids.len() == 0 {
        if bounded {
            discard_rest(&mut plan, 0, rendered_ids.len(), Ghost(start), Ghost(Seq::empty()), Ghost(Seq::empty()));
            proof {
                assert(plan@ =~= Seq::new(rendered_ids@.len(), |i: int| Mutation::Remove { node: i as usize }));
                assert(Seq::<Handle>::empty() + Seq::<Handle>::empty() =~= goal);
            }
        } else {
            proof {
                assert(start.nodes =~= stretch(0, rendered_ids@.len() as int));
                lemma_clear(rendered_ids@.len() as int, start);
                lemma_plan_push(start, plan@, Mutation::Clear);
                assert(Seq::<Handle>::empty() =~= goal);
            }
            plan.push(Mutation::Clear);
            proof {
                assert(plan@ =~= seq![Mutation::Clear]);
            }
        }
        proof {
            assert(start.apply_all(plan@).created =~= start.created.union(span(0, 0)));
            lemma_rebuilt(rendered_ids@, new_ids@, w, start, start.apply_all(plan@));
            lemma_same_ids(rendered_ids@, new_ids@, start.apply_all(plan@));
            assert(start.apply_all(plan@).moved =~= Set::<int>::empty());
            lemma_sparing_unmoved(rendered_ids@, new_ids@, start.apply_all(plan@));
        }
        return plan;
    }
    if rendered_ids.len() == 0 {
        proof {
            lemma_grow(rendered_ids@, new_ids@, w, start);
            assert(start.nodes =~= goal.subrange(0, 0) + goal.subrange(new_ids@.len() as int, new_ids@.len() as int));
        }
        create_rest(&mut plan, 0, new_ids.len(), None, Ghost(start), Ghost(goal));
        proof {
            assert(plan@ =~= Seq::new(
                new_ids@.len(),
                |j: int| Mutation::Create { item: j as usize, before: None },
            ));
            assert(start.apply_all(plan@).removed =~= start.removed.union(span(0, 0)));
            lemma_rebuilt(rendered_ids@, new_ids@, w, start, start.apply_all(plan@));
            lemma_sparing_unmoved(rendered_ids@, new_ids@, start.apply_all(plan@));
        }
        return plan;
    }
    let ghost whole = w;
    proof {
        assert(in_trim(rendered_ids@, new_ids@, w, start.apply_all(plan@))) by {
            reveal(in_trim);
        }
        lemma_middle(rendered_ids@, new_ids@, whole);
    }
    trim(rendered_ids, new_ids, &mut w, &mut plan, Ghost(start));
    let ghost base = start.apply_all(plan@);
    proof {
        lemma_window(rendered_ids@, new_ids@, w, base);
        assert(start.moved =~= Set::<int>::empty());
        if uncrossed(rendered_ids@, new_ids@) {
            assert(base.moved =~= Set::<int>::empty());
        }
        if rendered_ids@ == new_ids@ {
            assert(plan@ =~= refreshes(0, 0, new_ids@.len() as int));
            lemma_refreshes_only(start, 0, 0, new_ids@.len() as int);
        }
    }
    complete(rendered_ids, new_ids, &w, bounded, &mut plan, Ghost(start));
    proof {
        let end = start.apply_all(plan@);
        if rendered_ids@ == new_ids@ {
            assert(plan@ =~= refreshes(0, 0, new_ids@.len() as int));
        }
        if uncrossed(rendered_ids@, new_ids@) {
            assert(base.moved.len() == 0);
        }
        assert(sparing(rendered_ids@, new_ids@, end));
    }
    proof {
        lemma_same_ids(rendered_ids@, new_ids@, start.apply_all(plan@));
    }
    plan
}

/// Where the ids wanted are the ids rendered, a reconciliation builds and
/// removes nothing; where no id is wanted, it moves nothing.
proof fn lemma_same_ids(rendered: Seq<u64>, new: Seq<u64>, end: ChildList)
    requires
        reconciled(rendered, new, end),
    ensures
        rendered == new ==> end.created.is_empty() && end.removed.is_empty(),
        new.len() == 0 ==> end.moved.is_empty(),
{
    if rendered == new {
        assert forall|j: int| 0 <= j < new.len() implies rendered.contains(#[trigger] new[j]) by {
            assert(rendered[j] == new[j]);
        }
        lemma_reorder_only(rendered, new, end);
    }
    if new.len() == 0 {
        assert(kept(rendered, new).dom() =~= Set::<int>::empty());
        assert(end.moved =~= Set::<int>::empty());
    }
}

/// A pure reorder builds and removes nothing: where every id rendered is
/// wanted and every id wanted was rendered, in whatever order, the
/// reconciliation refreshes every node and leaves it at that and at moves.
pub proof fn lemma_reorder_only(rendered: Seq<u64>, new: Seq<u64>, end: ChildList)
    requires
        reconciled(rendered, new, end),
        forall|i: int| 0 <= i < rendered.len() ==> new.contains(#[trigger] rendered[i]),
        forall|j: int| 0 <= j < new.len() ==> rendered.contains(#[trigger] new[j]),
    ensures
        end.created.is_empty(),
        end.removed.is_empty(),
        forall|i: int| 0 <= i < rendered.len() ==> end.refreshed.contains_key(i),
{
    assert(end.created =~= Set::<int>::empty());
    assert(end.removed =~= Set::<int>::empty());
}

/// Identity is preserved: where a rendered node and a new item have one id,
/// the reconciliation leaves that very node at the item's place, refreshed
/// with the item; no node is built for the item, and the node is not taken
/// out.
pub proof fn lemma_identity_preserved(rendered: Seq<u64>, new: Seq<u64>, end: ChildList, i: int, j: int)
    requires
        rendered.no_duplicates(),
        new.no_duplicates(),
        rendered.len() <= usize::MAX,
        reconciled(rendered, new, end),
        0 <= i < rendered.len(),
        0 <= j < new.len(),
        rendered[i] == new[j],
    ensures
        end.nodes[j] == Handle::Rendered(i as usize),
        end.refreshed.contains_key(i),
        end.refreshed[i] == j,
        !end.created.contains(j),
        !end.removed.contains(i),
{
    lemma_match(rendered, new, i, j);
}

/// The order is the wanted one: the reconciliation leaves one node for each
/// new item, and of two items the node of the earlier one stands before the
/// node of the later one.
pub proof fn lemma_order(rendered: Seq<u64>, new: Seq<u64>, end: ChildList, a: int, b: int)
    requires
        rendered.no_duplicates(),
        new.no_duplicates(),
        rendered.len() <= usize::MAX,
        new.len() <= usize::MAX,
        reconciled(rendered, new, end),
        0 <= a < b < new.len(),
    ensures
        end.nodes.len() == new.len(),
        end.nodes[a] == arrangement(rendered, new)[a],
        end.nodes[b] == arrangement(rendered, new)[b],
        end.nodes[a] != end.nodes[b],
        precedes(end.nodes, arrangement(rendered, new)[a], arrangement(rendered, new)[b]),
{
    lemma_arrangement_distinct(rendered, new);
}

/// Says whether no id stands twice in `ids`, as [`reconcile`] asks of both
/// its lists.
pub fn all_distinct(ids: &[u64]) -> (distinct: bool)
    ensures
        distinct == ids@.no_duplicates(),
{
    let mut seen: HashSet<u64> = HashSet::new();
    let mut i: usize = 0;
    while i < ids.len()
        invariant
            i <= ids@.len(),
            forall|a: int, b: int| 0 <= a < b < i ==> ids@[a] != ids@[b],
            forall|id: u64| seen@.contains(id) <==> exists|k: int| 0 <= k < i && #[trigger] ids@[k] == id,
        decreases ids@.len() - i,
    {
        let fresh = seen.insert(ids[i]);
        if !fresh {
            proof {
                let k = choose|k: int| 0 <= k < i && #[trigger] ids@[k] == ids@[i as int];
                assert(ids@[k] == ids@[i as int] && k != i);
            }
            return false;
        }
        proof {
            assert forall|id: u64| seen@.contains(id) implies exists|k: int|
                0 <= k < i + 1 && #[trigger] ids@[k] == id by {
                if id == ids@[i as int] {
                    assert(ids@[i as int] == id);
                } else {
                    let k = choose|k: int| 0 <= k < i && #[trigger] ids@[k] == id;
                    assert(ids@[k] == id);
                }
            }
        }
        i += 1;
    }
    true
}

} // verus!
