use std::time::Duration;

use maveric::child_deletion_policy::DeletionPolicy;
use maveric::child_key::{str_equal, ChildKey, NumberKey};
use maveric::duplicate_checker::DuplicateChecker;
use maveric::has_changed::any_changed;
use maveric::scheduled_for_deletion::{advance_countdown, ScheduledForDeletion};
use maveric::set_event::{NodeChange, SetEvent};
use maveric::slab::Slab;
use maveric::transition::{starting_step, total_duration, TransitionPath, TransitionPathComponent};

#[test]
fn number_keys_are_written_in_decimal() {
    assert_eq!(ChildKey::from(5u32).to_string(), "5");
    assert_eq!(ChildKey::from(0u32).to_string(), "0");
    assert_eq!(ChildKey::from(u32::MAX).to_string(), "4294967295");
    assert_eq!(ChildKey::from(1230u32).to_string(), "1230");
    assert_eq!(ChildKey::from(-12i32).to_string(), "-12");
    assert_eq!(ChildKey::from(0i32).to_string(), "0");
    assert_eq!(ChildKey::from(i32::MIN).to_string(), "-2147483648");
    assert_eq!(ChildKey::from(i32::MAX).to_string(), "2147483647");
}

#[test]
fn tuple_keys_are_written_in_brackets() {
    assert_eq!(ChildKey::from((1u16, 2u16)).to_string(), "(1, 2)");
    assert_eq!(ChildKey::from((10u16, 0u16, 65535u16)).to_string(), "(10, 0, 65535)");
    assert_eq!(NumberKey::Pair(7, 8).to_string(), "(7, 8)");
}

#[test]
fn string_keys_are_written_as_they_are() {
    assert_eq!(ChildKey::from("branch").to_string(), "branch");
    assert_eq!(ChildKey::from("").to_string(), "");
    assert_eq!(ChildKey::from("ünïcödé").to_string(), "ünïcödé");
}

#[test]
fn keys_convert_from_numbers_and_strings() {
    assert_eq!(ChildKey::from(3u32), ChildKey::Number(NumberKey::Unsigned(3)));
    assert_eq!(ChildKey::from(-3i32), ChildKey::Number(NumberKey::Signed(-3)));
    assert_eq!(ChildKey::from((1u16, 2u16)), ChildKey::Number(NumberKey::Pair(1, 2)));
    assert_eq!(ChildKey::from((1u16, 2u16, 3u16)), ChildKey::Number(NumberKey::Trio(1, 2, 3)));
    assert_eq!(ChildKey::from("a"), ChildKey::String("a"));
}

#[test]
fn keys_are_equal_when_their_values_are() {
    assert!(ChildKey::from("leaf") == ChildKey::from("leaf"));
    assert!(ChildKey::from("leaf") != ChildKey::from("lea"));
    assert!(ChildKey::from(1u32) != ChildKey::from(1i32));
    assert!(ChildKey::from(1u32) != ChildKey::from("1"));
    assert!(str_equal("abc", "abc"));
    assert!(!str_equal("abc", "abd"));
}

#[test]
fn duplicate_checker_notices_second_use() {
    let mut checker = DuplicateChecker::new();
    assert!(checker.test(ChildKey::from(1u32)));
    assert!(checker.test(ChildKey::from("1")));
    assert!(!checker.test(ChildKey::from(1u32)));
    assert!(!checker.test(ChildKey::from("1")));
}

#[test]
fn deletion_transition_sets_the_linger_time() {
    let two = Duration::from_secs(2);
    assert_eq!(
        DeletionPolicy::DeleteImmediately.with_deletion_transition(two),
        DeletionPolicy::Linger(two)
    );
    assert_eq!(
        DeletionPolicy::Linger(Duration::from_secs(3)).with_deletion_transition(two),
        DeletionPolicy::Linger(Duration::from_secs(3))
    );
    assert_eq!(
        DeletionPolicy::Linger(Duration::from_millis(500)).with_deletion_transition(two),
        DeletionPolicy::Linger(two)
    );
}

#[test]
fn countdown_runs_out_when_delta_is_longer() {
    let mut remaining = Duration::from_millis(1000);
    assert!(!advance_countdown(&mut remaining, Duration::from_millis(300)));
    assert_eq!(remaining, Duration::from_millis(700));
    assert!(!advance_countdown(&mut remaining, Duration::from_millis(700)));
    assert_eq!(remaining, Duration::ZERO);
    assert!(advance_countdown(&mut remaining, Duration::from_nanos(1)));
    assert_eq!(remaining, Duration::ZERO);
}

#[test]
fn scheduled_deletion_is_due_when_time_runs_out() {
    let mut scheduled = ScheduledForDeletion { remaining: Duration::from_secs(1) };
    assert!(!scheduled.tick(Duration::from_millis(600)));
    assert_eq!(scheduled.remaining, Duration::from_millis(400));
    assert!(scheduled.tick(Duration::from_millis(600)));
    assert_eq!(scheduled.remaining, Duration::from_millis(400));
}

#[test]
fn created_and_undeleted_nodes_are_hot() {
    assert!(SetEvent::Created.is_hot(false, Some(true)));
    assert!(SetEvent::Undeleted.is_hot(false, Some(true)));
    assert!(!SetEvent::Updated.is_hot(false, Some(true)));
    assert!(SetEvent::Updated.is_hot(true, Some(true)));
    assert!(SetEvent::Updated.is_hot(false, Some(false)));
    assert!(SetEvent::Updated.is_hot(false, None));
}

#[test]
fn event_and_change_of_an_existing_node() {
    assert_eq!(SetEvent::for_existing(true), SetEvent::Undeleted);
    assert_eq!(SetEvent::for_existing(false), SetEvent::Updated);
    assert_eq!(NodeChange::of(None), NodeChange::Created);
    assert_eq!(NodeChange::of(Some(false)), NodeChange::Changed);
    assert_eq!(NodeChange::of(Some(true)), NodeChange::Unchanged);
}

#[test]
fn path_starts_where_it_should() {
    assert_eq!(starting_step(Some(1), None, 3), Some(1));
    assert_eq!(starting_step(Some(5), Some(true), 3), Some(2));
    assert_eq!(starting_step(Some(5), None, 0), Some(0));
    assert_eq!(starting_step(None, Some(true), 3), None);
    assert_eq!(starting_step(None, Some(false), 3), Some(0));
    assert_eq!(starting_step(None, None, 3), Some(0));
}

#[test]
fn path_steps_are_taken_in_turn() {
    let mut component = TransitionPathComponent {
        path: TransitionPath { steps: vec!['a', 'b'] },
        index: 0,
    };
    assert_eq!(component.current_step(), Some(&'a'));
    component.go_to_next_step();
    assert_eq!(component.current_step(), Some(&'b'));
    component.go_to_next_step();
    assert_eq!(component.current_step(), None);
}

#[test]
fn path_duration_is_the_sum_of_its_steps() {
    let steps = vec![Duration::from_millis(250), Duration::from_secs(1), Duration::from_nanos(7)];
    assert_eq!(total_duration(&steps), Some(Duration::new(1, 250_000_007)));
    assert_eq!(total_duration(&vec![]), Some(Duration::ZERO));
    assert_eq!(total_duration(&vec![Duration::MAX, Duration::from_nanos(1)]), None);
}

#[test]
fn slab_hands_back_cleared_containers() {
    let mut slab: Slab<Vec<u32>> = Slab::new();
    let fresh = slab.claim();
    assert!(fresh.is_empty());
    slab.reclaim(vec![1, 2, 3]);
    let reused = slab.claim();
    assert!(reused.is_empty());
    assert!(reused.capacity() >= 3);
}

#[test]
fn slab_hands_out_the_last_reclaimed_first() {
    let mut slab: Slab<Vec<u32>> = Slab::new();
    let mut small: Vec<u32> = Vec::with_capacity(10);
    small.push(7);
    let mut large: Vec<u32> = Vec::with_capacity(500);
    large.push(8);
    slab.reclaim(small);
    slab.reclaim(large);
    let first = slab.claim();
    assert!(first.is_empty());
    assert!(first.capacity() >= 500);
    let second = slab.claim();
    assert!(second.is_empty());
    assert!(second.capacity() >= 10);
    let third = slab.claim();
    assert!(third.is_empty());
    assert_eq!(third.capacity(), 0);
}

#[test]
fn a_value_changed_when_any_part_did() {
    assert!(!any_changed(&[]));
    assert!(!any_changed(&[false, false, false]));
    assert!(any_changed(&[false, true, false]));
    assert!(any_changed(&[true]));
    assert!(any_changed(&[false, false, true]));
}

#[test]
fn a_lingering_policy_schedules_a_timer() {
    assert_eq!(ScheduledForDeletion::for_policy(DeletionPolicy::DeleteImmediately), None);
    assert_eq!(
        ScheduledForDeletion::for_policy(DeletionPolicy::Linger(Duration::from_millis(250))),
        Some(ScheduledForDeletion { remaining: Duration::from_millis(250) })
    );
}
