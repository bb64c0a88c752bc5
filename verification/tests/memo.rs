use maveric::child_key::ChildKey;
use maveric::memo::MemoCell;
use maveric::unordered_children::RootChildren;

/// A memo over values that change between frames; counts how often the
/// value is calculated and how often the memo reports a change.
struct MemoRun<A: PartialEq + Copy> {
    cell: MemoCell<usize>,
    argument: A,
    changed_since_last_run: bool,
    calculate: fn(A) -> usize,
    times_calculated: usize,
    times_changed: usize,
}

impl<A: PartialEq + Copy> MemoRun<A> {
    fn new(initial: A, calculate: fn(A) -> usize) -> Self {
        Self {
            cell: MemoCell::new(),
            argument: initial,
            changed_since_last_run: true,
            calculate,
            times_calculated: 0,
            times_changed: 0,
        }
    }

    /// Sets the argument only when it differs, as a change-detected resource would.
    fn set_if_neq(&mut self, value: A) {
        if self.argument != value {
            self.argument = value;
            self.changed_since_last_run = true;
        }
    }

    /// Runs the system once: returns whether the memo changed.
    fn update(&mut self) -> bool {
        let changed = if self.cell.needs_calculation(self.changed_since_last_run) {
            self.times_calculated += 1;
            let value = (self.calculate)(self.argument);
            self.cell.store(value)
        } else {
            false
        };
        if changed {
            self.times_changed += 1;
        }
        self.changed_since_last_run = false;
        assert_eq!(*self.cell.get(), (self.calculate)(self.argument));
        changed
    }
}

#[test]
fn memo_test_with_one_arg() {
    let mut run = MemoRun::new(0usize, |count| count * 2);
    assert_eq!(run.times_calculated, 0);
    run.update();
    assert_eq!(run.times_calculated, 1);
    run.set_if_neq(1);
    run.update();
    assert_eq!(run.times_calculated, 2);
    run.update();
    assert_eq!(run.times_calculated, 2);
    run.set_if_neq(1);
    run.update();
    assert_eq!(run.times_calculated, 2);
    run.set_if_neq(2);
    run.set_if_neq(3);
    run.update();
    assert_eq!(run.times_calculated, 3);
}

#[test]
fn test_has_changed() {
    let mut run = MemoRun::new(0usize, |count| count / 2);
    assert_eq!(run.times_changed, 0, "Initial value");
    run.update();
    assert_eq!(run.times_changed, 1, "Has_Changed should be true on first system run");
    run.update();
    assert_eq!(run.times_changed, 1, "The resource has not changed since the system last ran");
    run.set_if_neq(1);
    run.update();
    assert_eq!(run.times_changed, 1, "The cached value has not changed since the system last ran");
    run.set_if_neq(2);
    run.update();
    assert_eq!(run.times_changed, 2, "The cached value has now changed");
    run.set_if_neq(4);
    run.update();
    assert_eq!(run.times_changed, 3, "The cached value has changed again");
}

#[test]
fn memo_test_with_two_args() {
    let mut run = MemoRun::new((0usize, 0usize), |(a, b)| a * b);
    assert_eq!(run.times_calculated, 0);
    run.update();
    assert_eq!(run.times_calculated, 1);
    run.set_if_neq((1, 1));
    run.update();
    assert_eq!(run.times_calculated, 2);
    run.update();
    assert_eq!(run.times_calculated, 2);
    run.set_if_neq((1, 1));
    run.update();
    assert_eq!(run.times_calculated, 2);
    run.set_if_neq((2, 2));
    run.set_if_neq((3, 3));
    run.update();
    assert_eq!(run.times_calculated, 3);
    run.set_if_neq((4, 3));
    run.update();
    assert_eq!(run.times_calculated, 4);
    run.set_if_neq((4, 4));
    run.update();
    assert_eq!(run.times_calculated, 5);
}

/// A tree whose only root shows the memo's value: it is set again only when
/// the memo changes.
#[test]
fn test_in_maveric() {
    let mut run = MemoRun::new(0usize, |count| count * 2);
    // the roots: (key, entity, shown value)
    let mut roots: Vec<(ChildKey, u64, usize)> = Vec::new();
    let mut next_entity = 0u64;
    let mut frame = |run: &mut MemoRun<usize>, roots: &mut Vec<(ChildKey, u64, usize)>| {
        if !run.update() {
            return;
        }
        let existing: Vec<(ChildKey, u64)> = roots.iter().map(|(k, e, _)| (*k, *e)).collect();
        let mut commands = RootChildren::new(&existing);
        let value = *run.cell.get();
        let entity = match commands.add_child(ChildKey::from(0u32)) {
            Some(entity) => entity,
            None => {
                next_entity += 1;
                next_entity
            }
        };
        let deleted = commands.finish();
        roots.retain(|r| !deleted.contains(&r.1) && r.1 != entity);
        roots.push((ChildKey::from(0u32), entity, value));
    };
    let assert_component_count = |roots: &Vec<(ChildKey, u64, usize)>, expected: usize| {
        assert_eq!(1, roots.len(), "Should be exactly one count component");
        for root in roots {
            assert_eq!(expected, root.2, "Expected component count to be {expected} but was {}", root.2);
        }
    };

    frame(&mut run, &mut roots);
    assert_component_count(&roots, 0);
    run.set_if_neq(1);
    frame(&mut run, &mut roots);
    frame(&mut run, &mut roots);
    frame(&mut run, &mut roots);
    assert_component_count(&roots, 2);
    frame(&mut run, &mut roots);
    assert_eq!(roots[0].1, 1, "the root is updated in place, not recreated");
}
