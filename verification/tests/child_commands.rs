use maveric::child_key::ChildKey;
use maveric::ordered_children::OrderedChildren;
use maveric::unordered_children::{RootChildren, UnorderedChildren};

/// A child in a simulated world: its number (which is also its key), its
/// handle, and whether it lingers before deletion.
#[derive(Debug, Clone, Copy, PartialEq)]
struct Leaf {
    number: u32,
    entity: u64,
    scheduled: bool,
}

/// Runs one update of an ordered parent whose children are `state`, in that
/// order; children whose numbers are in `linger` linger when deleted.
fn update_ordered(children: &mut Vec<Leaf>, next_entity: &mut u64, state: &[u32], linger: &[u32]) {
    let old: Vec<Option<(ChildKey, u64)>> = children
        .iter()
        .map(|leaf| Some((ChildKey::from(leaf.number), leaf.entity)))
        .collect();
    let mut commands = OrderedChildren::new(&old);
    let mut kept: Vec<Leaf> = Vec::new();
    for &number in state {
        let (duplicate, existing) = commands.add_child(ChildKey::from(number));
        assert!(!duplicate, "Duplicate Child Key {number}");
        match existing {
            Some(entity) => {
                commands.keep();
                let mut leaf = *children.iter().find(|l| l.entity == entity).unwrap();
                leaf.scheduled = false;
                kept.push(leaf);
            }
            None => {
                *next_entity += 1;
                commands.push_created(*next_entity);
                kept.push(Leaf { number, entity: *next_entity, scheduled: false });
            }
        }
    }
    let deletions = commands.finish();
    let remaining: Vec<u64> = deletions.deleted().iter().map(|c| c.entity).collect();
    let lingering: Vec<bool> = remaining
        .iter()
        .map(|e| {
            let leaf = children.iter().find(|l| l.entity == *e).unwrap();
            leaf.scheduled || linger.contains(&leaf.number)
        })
        .collect();
    let lingering_leaves: Vec<Leaf> = remaining
        .iter()
        .zip(lingering.iter())
        .filter(|(_, l)| **l)
        .map(|(e, _)| {
            let mut leaf = *children.iter().find(|l| l.entity == *e).unwrap();
            leaf.scheduled = true;
            leaf
        })
        .collect();
    let find = |e: &u64| -> Leaf {
        *kept
            .iter()
            .chain(lingering_leaves.iter())
            .find(|l| l.entity == *e)
            .unwrap()
    };
    match deletions.complete(&lingering) {
        Some(order) => {
            *children = order.iter().map(find).collect();
        }
        None => {
            let survivors: Vec<u64> = children
                .iter()
                .map(|l| l.entity)
                .filter(|e| {
                    kept.iter().any(|k| k.entity == *e) || lingering_leaves.iter().any(|k| k.entity == *e)
                })
                .collect();
            *children = survivors.iter().map(find).collect();
        }
    }
}

fn leaves(children: &[Leaf]) -> Vec<(u32, bool)> {
    children.iter().map(|l| (l.number, l.scheduled)).collect()
}

fn test_linger(initial: &[u32], linger: &[u32], second: &[u32], expected: Vec<(u32, bool)>) {
    let mut children = Vec::new();
    let mut next_entity = 0;
    update_ordered(&mut children, &mut next_entity, initial, linger);
    update_ordered(&mut children, &mut next_entity, second, linger);
    assert_eq!(leaves(&children), expected);
}

#[test]
fn test_ordering() {
    let test_states: Vec<Vec<u32>> = vec![
        vec![],
        vec![1, 2],
        vec![1, 2, 3, 4, 5],
        vec![5, 4, 3, 2, 1],
        vec![1, 2, 3, 4, 5],
        vec![1, 3, 5],
        vec![1, 2, 3, 4, 5],
        vec![5, 3, 1],
        vec![1, 2, 3, 4, 5],
    ];
    let mut children = Vec::new();
    let mut next_entity = 0;
    for (index, tree_state) in test_states.into_iter().enumerate() {
        update_ordered(&mut children, &mut next_entity, &tree_state, &[]);
        let expected: Vec<(u32, bool)> = tree_state.iter().map(|x| (*x, false)).collect();
        assert_eq!(leaves(&children), expected, "test case {index}");
    }
}

#[test]
fn test_linger_same_order() {
    test_linger(
        &[1, 2, 3, 4, 5],
        &[1, 2, 3, 4, 5],
        &[2, 4],
        vec![(1, true), (2, false), (3, true), (4, false), (5, true)],
    );
}

#[test]
fn test_linger_new_order() {
    test_linger(
        &[1, 2, 3, 4, 5],
        &[1, 2, 3, 4, 5],
        &[4, 2],
        vec![(3, true), (4, false), (1, true), (2, false), (5, true)],
    );
}

#[test]
fn test_partial_linger_new_order() {
    test_linger(
        &[1, 2, 3, 4, 5],
        &[2, 3, 4, 5],
        &[4, 2],
        vec![(3, true), (4, false), (2, false), (5, true)],
    );
}

#[test]
fn duplicate_key_is_reported() {
    let old: Vec<Option<(ChildKey, u64)>> = vec![];
    let mut commands = OrderedChildren::new(&old);
    let (first, _) = commands.add_child(ChildKey::from(123u32));
    commands.push_created(1);
    let (second, _) = commands.add_child(ChildKey::from(123u32));
    assert!(!first);
    assert!(second);
}

#[test]
fn existing_child_is_matched_once() {
    let old = vec![Some((ChildKey::from("a"), 10u64)), None, Some((ChildKey::from("b"), 11u64))];
    let mut commands = UnorderedChildren::new(&old);
    assert_eq!(commands.add_child(ChildKey::from("b")), (false, Some(11)));
    assert_eq!(commands.add_child(ChildKey::from("b")), (true, None));
    assert_eq!(commands.remove_child(ChildKey::from("c")), (false, None));
    assert_eq!(commands.finish(), vec![10]);
}

#[test]
fn later_child_with_same_key_wins() {
    let old = vec![Some((ChildKey::from(1u32), 10u64)), Some((ChildKey::from(1u32), 11u64))];
    let mut commands = UnorderedChildren::new(&old);
    assert_eq!(commands.add_child(ChildKey::from(1u32)), (false, Some(11)));
    assert_eq!(commands.finish(), Vec::<u64>::new());
}

#[test]
fn children_without_key_are_left_alone() {
    let old = vec![None, Some((ChildKey::from(2u32), 7u64)), None];
    let mut commands = OrderedChildren::new(&old);
    let (_, existing) = commands.add_child(ChildKey::from(2u32));
    assert_eq!(existing, Some(7));
    commands.keep();
    let deletions = commands.finish();
    assert_eq!(deletions.deleted().len(), 0);
    assert_eq!(deletions.complete(&vec![]), None);
}

#[test]
fn removed_child_is_handed_out_for_removal() {
    let old = vec![Some((ChildKey::from(1u32), 5u64)), Some((ChildKey::from(2u32), 6u64))];
    let mut commands = OrderedChildren::new(&old);
    assert_eq!(commands.remove_child(ChildKey::from(1u32)), (false, Some(5)));
    let (_, existing) = commands.add_child(ChildKey::from(2u32));
    assert_eq!(existing, Some(6));
    commands.keep();
    assert_eq!(commands.finish().complete(&vec![]), None);
}

#[test]
fn created_child_changes_order() {
    let old = vec![Some((ChildKey::from(1u32), 5u64))];
    let mut commands = OrderedChildren::new(&old);
    let (_, existing) = commands.add_child(ChildKey::from(1u32));
    assert_eq!(existing, Some(5));
    commands.keep();
    let (_, existing) = commands.add_child(ChildKey::from(2u32));
    assert_eq!(existing, None);
    commands.push_created(9);
    assert_eq!(commands.finish().complete(&vec![]), Some(vec![5, 9]));
}

#[test]
fn replaced_child_takes_the_new_place() {
    let old = vec![Some((ChildKey::from(1u32), 5u64)), Some((ChildKey::from(2u32), 6u64))];
    let mut commands = OrderedChildren::new(&old);
    let (_, existing) = commands.add_child(ChildKey::from(1u32));
    assert_eq!(existing, Some(5));
    // the node type changed: the old child is despawned and a new one made
    commands.push_created(7);
    let (_, existing) = commands.add_child(ChildKey::from(2u32));
    assert_eq!(existing, Some(6));
    commands.keep();
    assert_eq!(commands.finish().complete(&vec![]), Some(vec![7, 6]));
}

#[test]
fn lingering_child_without_later_sibling_goes_last() {
    let old = vec![
        Some((ChildKey::from(1u32), 1u64)),
        Some((ChildKey::from(2u32), 2u64)),
        Some((ChildKey::from(3u32), 3u64)),
    ];
    let mut commands = OrderedChildren::new(&old);
    for key in [2u32, 1u32] {
        let (_, existing) = commands.add_child(ChildKey::from(key));
        assert!(existing.is_some());
        commands.keep();
    }
    assert_eq!(commands.finish().complete(&vec![true]), Some(vec![2, 1, 3]));
}

#[test]
fn roots_are_matched_by_key() {
    let roots = vec![(ChildKey::from(0u32), 100u64), (ChildKey::from(1u32), 101u64)];
    let mut commands = RootChildren::new(&roots);
    assert_eq!(commands.add_child(ChildKey::from(1u32)), Some(101));
    assert_eq!(commands.add_child(ChildKey::from(2u32)), None);
    assert_eq!(commands.remove_child(ChildKey::from(1u32)), None);
    assert_eq!(commands.finish(), vec![100]);
}

#[derive(Debug, Clone, Copy, PartialEq)]
enum Colour {
    Blue,
    Red,
}

/// Counts the blue and red leaves of a simulated tree: roots keyed by branch
/// number, each with ordered leaves keyed by leaf number.
#[test]
fn test_plugin() {
    // (branch entity, leaves: (key, entity, colour))
    let mut branches: Vec<(u32, u64, Vec<(u32, u64, Colour)>)> = Vec::new();
    let mut next_entity = 0u64;
    let mut run = |branch_count: u32, blue: u32, red: u32, branches: &mut Vec<(u32, u64, Vec<(u32, u64, Colour)>)>| {
        let roots: Vec<(ChildKey, u64)> =
            branches.iter().map(|(k, e, _)| (ChildKey::from(*k), *e)).collect();
        let mut root_commands = RootChildren::new(&roots);
        let mut new_branches = Vec::new();
        for x in 0..branch_count {
            let leaves = match root_commands.add_child(ChildKey::from(x)) {
                Some(entity) => {
                    let (_, _, leaves) = branches.iter().find(|b| b.1 == entity).unwrap().clone();
                    (entity, leaves)
                }
                None => {
                    next_entity += 1;
                    (next_entity, Vec::new())
                }
            };
            let (entity, old_leaves) = leaves;
            let old: Vec<Option<(ChildKey, u64)>> =
                old_leaves.iter().map(|(k, e, _)| Some((ChildKey::from(*k), *e))).collect();
            let mut commands = OrderedChildren::new(&old);
            let mut new_leaves = Vec::new();
            for y in 0..(blue + red) {
                let colour = if y < blue { Colour::Blue } else { Colour::Red };
                match commands.add_child(ChildKey::from(y)).1 {
                    Some(e) => {
                        commands.keep();
                        new_leaves.push((y, e, colour));
                    }
                    None => {
                        next_entity += 1;
                        commands.push_created(next_entity);
                        new_leaves.push((y, next_entity, colour));
                    }
                }
            }
            let deletions = commands.finish();
            let lingering = vec![false; deletions.deleted().len()];
            let _ = deletions.complete(&lingering);
            new_branches.push((x, entity, new_leaves));
        }
        let deleted = root_commands.finish();
        branches.retain(|b| !deleted.contains(&b.1));
        *branches = new_branches;
    };
    let count = |branches: &Vec<(u32, u64, Vec<(u32, u64, Colour)>)>, colour: Colour| -> usize {
        branches.iter().map(|b| b.2.iter().filter(|l| l.2 == colour).count()).sum()
    };

    run(0, 0, 0, &mut branches);
    assert_eq!((count(&branches, Colour::Blue), count(&branches, Colour::Red)), (0, 0));
    run(5, 5, 0, &mut branches);
    assert_eq!((count(&branches, Colour::Blue), count(&branches, Colour::Red)), (25, 0));
    run(5, 5, 5, &mut branches);
    assert_eq!((count(&branches, Colour::Blue), count(&branches, Colour::Red)), (25, 25));
    run(4, 6, 5, &mut branches);
    assert_eq!((count(&branches, Colour::Blue), count(&branches, Colour::Red)), (24, 20));
}
