use klotski::visited_history::VisitedHistory;

#[test]
fn first_visit_is_accepted_and_the_second_is_not() {
    let mut history: VisitedHistory<u128> = VisitedHistory::new();
    assert!(history.try_visit(42, 0));
    assert!(!history.try_visit(42, 0));
    assert!(history.try_visit(43, 0));
}

#[test]
fn first_visit_is_accepted_at_any_depth() {
    let mut history: VisitedHistory<u128> = VisitedHistory::new();
    assert!(history.try_visit(42, 5));
    assert!(!history.try_visit(42, 5));
}

#[test]
fn key_is_forgotten_after_three_changes_of_depth() {
    let mut history: VisitedHistory<u128> = VisitedHistory::new();
    assert!(history.try_visit(7, 0));
    assert!(!history.try_visit(7, 1));
    assert!(!history.try_visit(7, 2));
    assert!(history.try_visit(7, 3));
}

#[test]
fn key_is_rejected_for_three_levels_and_then_taken_again() {
    let mut history: VisitedHistory<u64> = VisitedHistory::new();
    assert!(history.try_visit(1, 0));
    assert!(history.try_visit(2, 1));
    assert!(history.try_visit(9, 2));
    assert!(!history.try_visit(9, 2));
    assert!(history.try_visit(3, 2));
    assert!(!history.try_visit(9, 3));
    assert!(history.try_visit(4, 3));
    assert!(!history.try_visit(9, 4));
    assert!(history.try_visit(5, 4));
    assert!(history.try_visit(9, 5));
    assert!(!history.try_visit(9, 5));
    assert!(!history.try_visit(9, 6));
    assert!(!history.try_visit(9, 7));
    assert!(history.try_visit(9, 8));
}

#[test]
fn a_jump_in_depth_turns_the_generations_once() {
    let mut history: VisitedHistory<u128> = VisitedHistory::new();
    assert!(history.try_visit(7, 0));
    assert!(!history.try_visit(7, 3));
    assert!(!history.try_visit(7, 4));
    assert!(history.try_visit(7, 5));
}

#[test]
fn default_history_has_seen_nothing() {
    let mut history: VisitedHistory<u8> = VisitedHistory::default();
    assert!(history.try_visit(0, 0));
    assert!(!history.try_visit(0, 1));
}

#[test]
fn history_takes_keys_of_any_hashable_type() {
    let mut history: VisitedHistory<(u8, String)> = VisitedHistory::new();
    assert!(history.try_visit((1, String::from("a")), 0));
    assert!(history.try_visit((1, String::from("b")), 0));
    assert!(!history.try_visit((1, String::from("a")), 1));
}
