use microbench::strategy::{replay, run, FxHashSet, NoHashSet};
use microbench::workload::{build_actions, Action};

#[test]
fn build_actions_exact_length() {
    for n in [0usize, 1, 2, 3, 10, 1000] {
        let actions = build_actions(n);
        assert_eq!(actions.len(), n);
    }
}

#[test]
fn build_actions_zero_is_empty() {
    let actions = build_actions(0);
    assert!(actions.is_empty());
    let (ended_empty, get_all) = replay::<NoHashSet>(&actions);
    assert!(ended_empty && get_all);
}

#[test]
fn build_actions_single_is_one_add() {
    let actions = build_actions(1);
    assert_eq!(actions.len(), 1);
    assert!(matches!(actions[0], Action::Add(0)));
    let (ended_empty, get_all) = replay::<NoHashSet>(&actions);
    assert!(!ended_empty);
    assert!(get_all);
}

#[test]
fn build_actions_two_is_add_then_remove() {
    let actions = build_actions(2);
    assert_eq!(actions.len(), 2);
    assert!(matches!(actions[0], Action::Add(0)));
    assert!(matches!(actions[1], Action::Remove(0)));
}

#[test]
fn build_actions_adds_fresh_increasing_keys() {
    let actions = build_actions(400);
    let mut next: u32 = 0;
    for a in &actions {
        if let Action::Add(k) = a {
            assert_eq!(*k, next);
            next += 1;
        }
    }
}

#[test]
fn replay_drains_and_observes_all_gets() {
    // regenerating with fresh randomness keeps the guarantee every time
    for _ in 0..5 {
        let actions = build_actions(500);
        let (ended_empty, get_all) = replay::<NoHashSet>(&actions);
        assert!(ended_empty);
        assert!(get_all);
    }
}

#[test]
fn strategies_agree_on_fixed_sequence() {
    let actions = build_actions(2000);
    let no = replay::<NoHashSet>(&actions);
    let fx = replay::<FxHashSet>(&actions);
    assert_eq!(no, fx);
    assert_eq!(no, (true, true));
}

#[test]
fn strategies_agree_on_handwritten_sequence() {
    let actions = vec![
        Action::Add(7),
        Action::Get(7),
        Action::Add(9),
        Action::Remove(7),
        Action::Get(9),
        Action::Remove(9),
    ];
    let no = replay::<NoHashSet>(&actions);
    let fx = replay::<FxHashSet>(&actions);
    assert_eq!(no, fx);
    assert_eq!(no, (true, true));
}

#[test]
fn replay_reports_missing_key() {
    let actions = vec![Action::Add(1), Action::Get(2), Action::Remove(1)];
    let (ended_empty, get_all) = replay::<FxHashSet>(&actions);
    assert!(ended_empty);
    assert!(!get_all);
}

#[test]
fn run_checks_pass_for_generated_workload() {
    let actions = build_actions(300);
    run::<NoHashSet>(&actions);
    run::<FxHashSet>(&actions);
}
