use stage0::mutation::{Handle, Mutation};
use stage0::reconcile::reconcile;

/// Carries a plan out on the children `0..rendered`, as a host would.
fn carry_out(rendered: usize, plan: &[Mutation]) -> Vec<Handle> {
    let mut nodes: Vec<Handle> = (0..rendered).map(Handle::Rendered).collect();
    let mut refreshed: Vec<usize> = Vec::new();
    for step in plan {
        match *step {
            Mutation::Clear => nodes.clear(),
            Mutation::Remove { node } => {
                let at = nodes.iter().position(|n| *n == Handle::Rendered(node)).expect("node to remove");
                nodes.remove(at);
            }
            Mutation::Update { node, .. } => {
                assert!(nodes.contains(&Handle::Rendered(node)));
                assert!(!refreshed.contains(&node));
                refreshed.push(node);
            }
            Mutation::Move { node, before } => {
                assert!(refreshed.contains(&node));
                let at = nodes.iter().position(|n| *n == Handle::Rendered(node)).expect("node to move");
                nodes.remove(at);
                put(&mut nodes, Handle::Rendered(node), before);
            }
            Mutation::Create { item, before } => {
                assert!(!nodes.contains(&Handle::Created(item)));
                put(&mut nodes, Handle::Created(item), before);
            }
        }
    }
    nodes
}

fn put(nodes: &mut Vec<Handle>, node: Handle, before: Option<Handle>) {
    match before {
        Some(anchor) => {
            let at = nodes.iter().position(|n| *n == anchor).expect("anchor");
            nodes.insert(at, node);
        }
        None => nodes.push(node),
    }
}

/// The children wanted for `new` where `rendered` is rendered.
fn wanted(rendered: &[u64], new: &[u64]) -> Vec<Handle> {
    new.iter()
        .enumerate()
        .map(|(j, id)| match rendered.iter().position(|r| r == id) {
            Some(i) => Handle::Rendered(i),
            None => Handle::Created(j),
        })
        .collect()
}

fn count(plan: &[Mutation], pick: fn(&Mutation) -> bool) -> usize {
    plan.iter().filter(|m| pick(m)).count()
}

fn is_create(m: &Mutation) -> bool {
    matches!(m, Mutation::Create { .. })
}

fn is_remove(m: &Mutation) -> bool {
    matches!(m, Mutation::Remove { .. })
}

fn is_update(m: &Mutation) -> bool {
    matches!(m, Mutation::Update { .. })
}

fn is_move(m: &Mutation) -> bool {
    matches!(m, Mutation::Move { .. })
}

fn is_clear(m: &Mutation) -> bool {
    matches!(m, Mutation::Clear)
}

fn check(rendered: &[u64], new: &[u64]) -> Vec<Mutation> {
    let plan = reconcile(rendered, new, true);
    assert_eq!(carry_out(rendered.len(), &plan), wanted(rendered, new));
    assert_eq!(count(&plan, is_clear), 0);
    let kept = new.iter().filter(|id| rendered.contains(id)).count();
    assert_eq!(count(&plan, is_update), kept);
    assert_eq!(count(&plan, is_create), new.len() - kept);
    assert_eq!(count(&plan, is_remove), rendered.len() - kept);
    let open = reconcile(rendered, new, false);
    assert_eq!(carry_out(rendered.len(), &open), wanted(rendered, new));
    plan
}

#[test]
fn pure_reorder_only_moves() {
    let plan = check(&[1, 2, 3, 4, 5], &[5, 4, 3, 2, 1]);
    assert_eq!(count(&plan, is_create), 0);
    assert_eq!(count(&plan, is_remove), 0);
    assert_eq!(count(&plan, is_update), 5);
    assert_eq!(count(&plan, is_move), 4);
    assert_eq!(
        plan,
        vec![
            Mutation::Update { node: 4, item: 0 },
            Mutation::Move { node: 4, before: Some(Handle::Rendered(0)) },
            Mutation::Update { node: 3, item: 1 },
            Mutation::Move { node: 3, before: Some(Handle::Rendered(0)) },
            Mutation::Update { node: 2, item: 2 },
            Mutation::Move { node: 2, before: Some(Handle::Rendered(0)) },
            Mutation::Update { node: 1, item: 3 },
            Mutation::Move { node: 1, before: Some(Handle::Rendered(0)) },
            Mutation::Update { node: 0, item: 4 },
        ]
    );
}

#[test]
fn pure_append_creates_one_at_the_end() {
    let plan = check(&[1, 2, 3], &[1, 2, 3, 4]);
    assert_eq!(
        plan,
        vec![
            Mutation::Update { node: 0, item: 0 },
            Mutation::Update { node: 1, item: 1 },
            Mutation::Update { node: 2, item: 2 },
            Mutation::Create { item: 3, before: None },
        ]
    );
    assert_eq!(
        carry_out(3, &plan),
        vec![Handle::Rendered(0), Handle::Rendered(1), Handle::Rendered(2), Handle::Created(3)]
    );
}

#[test]
fn pure_prepend_creates_one_at_the_head() {
    let plan = check(&[1, 2, 3], &[0, 1, 2, 3]);
    assert_eq!(
        plan,
        vec![
            Mutation::Update { node: 2, item: 3 },
            Mutation::Update { node: 1, item: 2 },
            Mutation::Update { node: 0, item: 1 },
            Mutation::Create { item: 0, before: Some(Handle::Rendered(0)) },
        ]
    );
}

#[test]
fn pure_removal_removes_one() {
    let plan = check(&[1, 2, 3], &[1, 3]);
    assert_eq!(
        plan,
        vec![
            Mutation::Update { node: 0, item: 0 },
            Mutation::Update { node: 2, item: 1 },
            Mutation::Remove { node: 1 },
        ]
    );
}

#[test]
fn full_replace_removes_and_creates_all() {
    let plan = check(&[1, 2, 3], &[4, 5, 6]);
    assert_eq!(count(&plan, is_remove), 3);
    assert_eq!(count(&plan, is_create), 3);
    assert_eq!(count(&plan, is_update), 0);
    assert_eq!(count(&plan, is_move), 0);
    assert_eq!(
        plan,
        vec![
            Mutation::Remove { node: 0 },
            Mutation::Remove { node: 1 },
            Mutation::Remove { node: 2 },
            Mutation::Create { item: 0, before: None },
            Mutation::Create { item: 1, before: None },
            Mutation::Create { item: 2, before: None },
        ]
    );
}

#[test]
fn full_replace_clears_a_whole_container() {
    let plan = reconcile(&[1, 2, 3], &[4, 5, 6], false);
    assert_eq!(
        plan,
        vec![
            Mutation::Clear,
            Mutation::Create { item: 0, before: None },
            Mutation::Create { item: 1, before: None },
            Mutation::Create { item: 2, before: None },
        ]
    );
}

#[test]
fn full_replace_between_kept_ends_removes_one_by_one() {
    let plan = reconcile(&[1, 2, 3, 9], &[1, 4, 5, 9], false);
    assert_eq!(
        plan,
        vec![
            Mutation::Update { node: 0, item: 0 },
            Mutation::Update { node: 3, item: 3 },
            Mutation::Remove { node: 1 },
            Mutation::Remove { node: 2 },
            Mutation::Create { item: 1, before: Some(Handle::Rendered(3)) },
            Mutation::Create { item: 2, before: Some(Handle::Rendered(3)) },
        ]
    );
    assert_eq!(carry_out(4, &plan), wanted(&[1, 2, 3, 9], &[1, 4, 5, 9]));
}

#[test]
fn same_ids_only_update() {
    let ids = [7, 3, 9, 1];
    let first = reconcile(&[3, 1, 4], &ids, true);
    assert_eq!(carry_out(3, &first), wanted(&[3, 1, 4], &ids));
    let second = check(&ids, &ids);
    assert_eq!(
        second,
        vec![
            Mutation::Update { node: 0, item: 0 },
            Mutation::Update { node: 1, item: 1 },
            Mutation::Update { node: 2, item: 2 },
            Mutation::Update { node: 3, item: 3 },
        ]
    );
    assert_eq!(reconcile(&ids, &ids, false), second);
}

#[test]
fn empty_target_removes_or_clears() {
    assert_eq!(
        reconcile(&[1, 2, 3], &[], true),
        vec![Mutation::Remove { node: 0 }, Mutation::Remove { node: 1 }, Mutation::Remove { node: 2 }]
    );
    assert_eq!(reconcile(&[1, 2, 3], &[], false), vec![Mutation::Clear]);
    assert_eq!(reconcile(&[], &[], true), vec![]);
    assert_eq!(reconcile(&[], &[], false), vec![Mutation::Clear]);
}

#[test]
fn empty_source_creates_all() {
    let plan = check(&[], &[5, 6]);
    assert_eq!(
        plan,
        vec![Mutation::Create { item: 0, before: None }, Mutation::Create { item: 1, before: None }]
    );
    assert_eq!(reconcile(&[], &[5, 6], false), plan);
}

#[test]
fn kept_nodes_keep_their_identity() {
    let rendered = [10, 20, 30, 40, 50, 60];
    let new = [60, 25, 30, 10, 45, 20, 70];
    let plan = check(&rendered, &new);
    let nodes = carry_out(rendered.len(), &plan);
    assert_eq!(
        nodes,
        vec![
            Handle::Rendered(5),
            Handle::Created(1),
            Handle::Rendered(2),
            Handle::Rendered(0),
            Handle::Created(4),
            Handle::Rendered(1),
            Handle::Created(6),
        ]
    );
    for step in &plan {
        if let Mutation::Create { item, .. } = step {
            assert!(!rendered.contains(&new[*item]));
        }
        if let Mutation::Update { node, item } = step {
            assert_eq!(rendered[*node], new[*item]);
        }
    }
}

#[test]
fn middle_leaves_the_longest_run_in_place() {
    // trimming finds nothing: neither end matches straight or crosswise
    let rendered = [1, 2, 3, 4, 5, 6];
    let new = [2, 1, 4, 3, 6, 5];
    let plan = check(&rendered, &new);
    assert_eq!(count(&plan, is_move), 3);
    assert_eq!(
        plan,
        vec![
            Mutation::Update { node: 4, item: 5 },
            Mutation::Update { node: 5, item: 4 },
            Mutation::Move { node: 5, before: Some(Handle::Rendered(4)) },
            Mutation::Update { node: 2, item: 3 },
            Mutation::Update { node: 3, item: 2 },
            Mutation::Move { node: 3, before: Some(Handle::Rendered(2)) },
            Mutation::Update { node: 0, item: 1 },
            Mutation::Update { node: 1, item: 0 },
            Mutation::Move { node: 1, before: Some(Handle::Rendered(0)) },
        ]
    );
}

#[test]
fn middle_removes_before_it_places() {
    let rendered = [1, 2, 3, 4, 5];
    let new = [3, 9, 2, 8, 4];
    let plan = check(&rendered, &new);
    let first_place = plan.iter().position(|m| !is_remove(m) && !matches!(m, Mutation::Update { node: 3, .. }));
    let last_remove = plan.iter().rposition(is_remove);
    assert!(last_remove.unwrap() < first_place.unwrap());
    assert_eq!(count(&plan, is_remove), 2);
    assert_eq!(count(&plan, is_create), 2);
}

#[test]
fn swap_of_two_moves_one() {
    let plan = check(&[1, 2], &[2, 1]);
    assert_eq!(
        plan,
        vec![
            Mutation::Update { node: 1, item: 0 },
            Mutation::Move { node: 1, before: Some(Handle::Rendered(0)) },
            Mutation::Update { node: 0, item: 1 },
        ]
    );
}

#[test]
fn move_to_the_end_goes_before_the_matched_tail() {
    let plan = check(&[1, 2, 3, 4], &[2, 3, 1, 4]);
    assert_eq!(
        plan,
        vec![
            Mutation::Update { node: 3, item: 3 },
            Mutation::Update { node: 0, item: 2 },
            Mutation::Move { node: 0, before: Some(Handle::Rendered(3)) },
            Mutation::Update { node: 1, item: 0 },
            Mutation::Update { node: 2, item: 1 },
        ]
    );
}

#[test]
fn every_order_of_four_is_reached() {
    let rendered = [1u64, 2, 3, 4];
    let pool = [1u64, 2, 3, 4, 5, 6];
    let mut new: Vec<u64> = Vec::new();
    every_choice(&rendered, &pool, &mut new);
}

fn every_choice(rendered: &[u64], pool: &[u64], new: &mut Vec<u64>) {
    check(rendered, new);
    if new.len() == 4 {
        return;
    }
    for id in pool {
        if !new.contains(id) {
            new.push(*id);
            every_choice(rendered, pool, new);
            new.pop();
        }
    }
}

fn moved(plan: &[Mutation]) -> Vec<usize> {
    plan.iter()
        .filter_map(|m| match m {
            Mutation::Move { node, .. } => Some(*node),
            _ => None,
        })
        .collect()
}

#[test]
fn common_prefix_and_suffix_are_not_moved() {
    assert_eq!(moved(&reconcile(&[1, 2, 3], &[1, 2, 3, 4], true)), Vec::<usize>::new());
    assert_eq!(moved(&reconcile(&[1, 2, 3], &[1, 3], true)), Vec::<usize>::new());
    let plan = reconcile(&[1, 2, 3, 4, 5, 6, 7], &[1, 2, 5, 9, 3, 6, 7], true);
    for node in moved(&plan) {
        assert!(2 <= node && node < 5);
    }
}

#[test]
fn a_longest_run_stays_in_the_middle() {
    let plan = check(&[0, 1, 2, 3, 4], &[0, 2, 1, 4, 3]);
    let moves = moved(&plan);
    assert!(!moves.contains(&0));
    assert_eq!(moves.len(), 2);
    assert_eq!(
        plan,
        vec![
            Mutation::Update { node: 0, item: 0 },
            Mutation::Update { node: 3, item: 4 },
            Mutation::Update { node: 4, item: 3 },
            Mutation::Move { node: 4, before: Some(Handle::Rendered(3)) },
            Mutation::Update { node: 1, item: 2 },
            Mutation::Update { node: 2, item: 1 },
            Mutation::Move { node: 2, before: Some(Handle::Rendered(1)) },
        ]
    );
}

#[test]
fn a_node_wanted_at_the_other_end_is_brought_there() {
    // the one kept node is the last rendered and the first wanted
    let plan = check(&[1, 2], &[2, 3]);
    assert_eq!(
        plan,
        vec![
            Mutation::Update { node: 1, item: 0 },
            Mutation::Move { node: 1, before: Some(Handle::Rendered(0)) },
            Mutation::Remove { node: 0 },
            Mutation::Create { item: 1, before: None },
        ]
    );
}
