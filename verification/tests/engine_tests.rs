use d_td::actions::{
    Action, ActionEffect, AddArgs, Arguments, ClearArgs, DeleteArgs, ListArgs, MoveArgs,
    OrderAlphaArgs, OrderDateArgs, ShiftArgs, ToggleArgs,
};
use d_td::engine::ToDo;
use d_td::entry::Entry;
use d_td::stamp::Timestamp;

fn stamp(sec: u8) -> Timestamp {
    Timestamp { year: 2024, month: 5, day: 1, hour: 10, minute: 20, second: sec, microsecond: 0 }
}

fn todo_with(texts: &[&str]) -> ToDo {
    let mut entries = Vec::new();
    for (i, t) in texts.iter().enumerate() {
        entries.push(Entry::new(t.to_string(), stamp(i as u8)));
    }
    ToDo { entries }
}

fn texts(t: &ToDo) -> Vec<String> {
    t.entries.iter().map(|e| e.text.clone()).collect()
}

fn run(t: &mut ToDo, action: Action) -> ActionEffect {
    d_td::actions::run_action(t, Arguments { action })
}

#[test]
fn add_appends_not_done() {
    let mut t = todo_with(&["a"]);
    let r = run(&mut t, Action::Add(AddArgs { item: "b".to_string() }));
    assert!(matches!(r, ActionEffect::Mutated));
    assert_eq!(texts(&t), vec!["a".to_string(), "b".to_string()]);
    assert!(!t.entries[1].done);
}

#[test]
fn delete_out_of_range_low_leaves_list_unchanged() {
    let mut t = todo_with(&["a", "b", "c"]);
    let r = run(&mut t, Action::Delete(DeleteArgs { index: 0 }));
    assert!(matches!(r, ActionEffect::NoItemFound { index: 0 }));
    assert_eq!(texts(&t), vec!["a".to_string(), "b".to_string(), "c".to_string()]);
}

#[test]
fn delete_out_of_range_high_leaves_list_unchanged() {
    let mut t = todo_with(&["a", "b", "c"]);
    let r = run(&mut t, Action::Delete(DeleteArgs { index: 4 }));
    assert!(matches!(r, ActionEffect::NoItemFound { index: 4 }));
    assert_eq!(texts(&t), vec!["a".to_string(), "b".to_string(), "c".to_string()]);
    let r2 = run(&mut t, Action::Delete(DeleteArgs { index: -3 }));
    assert!(matches!(r2, ActionEffect::NoItemFound { index: -3 }));
    assert_eq!(t.entries.len(), 3);
}

#[test]
fn delete_valid_index_removes() {
    let mut t = todo_with(&["a", "b", "c"]);
    let r = run(&mut t, Action::Delete(DeleteArgs { index: 2 }));
    assert!(matches!(r, ActionEffect::Mutated));
    assert_eq!(texts(&t), vec!["a".to_string(), "c".to_string()]);
}

#[test]
fn move_clamps_destination_to_end() {
    let mut t = todo_with(&["a", "b", "c"]);
    let r = run(&mut t, Action::Move(MoveArgs { index: 1, to: 100 }));
    assert!(matches!(r, ActionEffect::Mutated));
    assert_eq!(texts(&t), vec!["b".to_string(), "c".to_string(), "a".to_string()]);
}

#[test]
fn move_on_empty_list_reports_no_item() {
    let mut t = todo_with(&[]);
    let r = run(&mut t, Action::Move(MoveArgs { index: 1, to: 2 }));
    assert!(matches!(r, ActionEffect::NoItemFound { index: 1 }));
}

#[test]
fn shift_last_item_forward_wraps_to_front() {
    let mut t = todo_with(&["a", "b", "c"]);
    let r = run(&mut t, Action::Shift(ShiftArgs { index: 3, shift: 1 }));
    assert!(matches!(r, ActionEffect::Mutated));
    assert_eq!(texts(&t), vec!["c".to_string(), "a".to_string(), "b".to_string()]);
}

#[test]
fn shift_backward_wraps_to_back() {
    let mut t = todo_with(&["a", "b", "c"]);
    let r = run(&mut t, Action::Shift(ShiftArgs { index: 1, shift: -1 }));
    assert!(matches!(r, ActionEffect::Mutated));
    assert_eq!(texts(&t), vec!["b".to_string(), "c".to_string(), "a".to_string()]);
}

#[test]
fn toggle_flips_done_at_clamped_index() {
    let mut t = todo_with(&["a", "b"]);
    let r = run(&mut t, Action::Toggle(ToggleArgs { index: 2 }));
    assert!(matches!(r, ActionEffect::Mutated));
    assert!(!t.entries[0].done);
    assert!(t.entries[1].done);
    // Out-of-range toggles act on the nearest valid item.
    let _ = run(&mut t, Action::Toggle(ToggleArgs { index: 100 }));
    assert!(!t.entries[1].done);
}

#[test]
fn toggle_on_empty_list_reports_no_item() {
    let mut t = todo_with(&[]);
    let r = run(&mut t, Action::Toggle(ToggleArgs { index: 1 }));
    assert!(matches!(r, ActionEffect::NoItemFound { index: 1 }));
}

#[test]
fn clear_empties_the_list() {
    let mut t = todo_with(&["a", "b"]);
    let r = run(&mut t, Action::Clear(ClearArgs {}));
    assert!(matches!(r, ActionEffect::Mutated));
    assert_eq!(t.entries.len(), 0);
}

#[test]
fn order_alpha_non_strict_lowercases_both_sides() {
    let mut t = todo_with(&["banana", "Apple", "cherry"]);
    let r = run(
        &mut t,
        Action::OrderAlpha(OrderAlphaArgs { reverse: false, strict: false }),
    );
    assert!(matches!(r, ActionEffect::Mutated));
    assert_eq!(
        texts(&t),
        vec!["Apple".to_string(), "banana".to_string(), "cherry".to_string()]
    );
}

#[test]
fn order_alpha_strict_uses_code_point_order() {
    // Under code point order every uppercase letter sorts before every
    // lowercase one, so the strict order here equals the non-strict one.
    let mut t = todo_with(&["banana", "Apple", "cherry"]);
    let r = run(
        &mut t,
        Action::OrderAlpha(OrderAlphaArgs { reverse: false, strict: true }),
    );
    assert!(matches!(r, ActionEffect::Mutated));
    assert_eq!(
        texts(&t),
        vec!["Apple".to_string(), "banana".to_string(), "cherry".to_string()]
    );
}

#[test]
fn order_alpha_strict_and_non_strict_differ_on_case() {
    // Strict: 'B' (66) sorts before 'a' (97); non-strict lowercases first.
    let mut t = todo_with(&["a", "B"]);
    let _ = run(
        &mut t,
        Action::OrderAlpha(OrderAlphaArgs { reverse: false, strict: true }),
    );
    assert_eq!(texts(&t), vec!["B".to_string(), "a".to_string()]);
    let mut u = todo_with(&["B", "a"]);
    let _ = run(
        &mut u,
        Action::OrderAlpha(OrderAlphaArgs { reverse: false, strict: false }),
    );
    assert_eq!(texts(&u), vec!["a".to_string(), "B".to_string()]);
}

#[test]
fn order_alpha_reverse_descends() {
    let mut t = todo_with(&["a", "c", "b"]);
    let _ = run(
        &mut t,
        Action::OrderAlpha(OrderAlphaArgs { reverse: true, strict: true }),
    );
    assert_eq!(texts(&t), vec!["c".to_string(), "b".to_string(), "a".to_string()]);
}

#[test]
fn order_alpha_is_stable_on_equal_keys() {
    let mut t = todo_with(&["b", "a"]);
    t.entries.push(Entry::new("a".to_string(), stamp(9)));
    t.entries[1].done = true;
    let _ = run(
        &mut t,
        Action::OrderAlpha(OrderAlphaArgs { reverse: false, strict: true }),
    );
    assert_eq!(
        texts(&t),
        vec!["a".to_string(), "a".to_string(), "b".to_string()]
    );
    // The earlier of the two equal entries keeps its place.
    assert!(t.entries[0].done);
    assert!(!t.entries[1].done);
}

#[test]
fn order_date_sorts_chronologically() {
    let mut entries = Vec::new();
    entries.push(Entry::new("late".to_string(), stamp(30)));
    entries.push(Entry::new("early".to_string(), stamp(10)));
    entries.push(Entry::new("mid".to_string(), stamp(20)));
    let mut t = ToDo { entries };
    let r = run(&mut t, Action::OrderDate(OrderDateArgs { reverse: false }));
    assert!(matches!(r, ActionEffect::Mutated));
    assert_eq!(
        texts(&t),
        vec!["early".to_string(), "mid".to_string(), "late".to_string()]
    );
    let _ = run(&mut t, Action::OrderDate(OrderDateArgs { reverse: true }));
    assert_eq!(
        texts(&t),
        vec!["late".to_string(), "mid".to_string(), "early".to_string()]
    );
}

#[test]
fn list_renders_one_based_indices_and_flags() {
    let mut t = todo_with(&["first", "second"]);
    t.entries[1].done = true;
    let lines = t.list();
    assert_eq!(lines[0], "1 [ ]: first".to_string());
    assert_eq!(lines[1], "2 [X]: second".to_string());
}

#[test]
fn list_twice_without_mutation_is_identical() {
    let mut t = todo_with(&["alpha", "beta"]);
    t.entries[0].done = true;
    let first = match run(&mut t, Action::List(ListArgs {})) {
        ActionEffect::Listing { lines } => lines,
        _ => panic!("expected a listing"),
    };
    let second = match run(&mut t, Action::List(ListArgs {})) {
        ActionEffect::Listing { lines } => lines,
        _ => panic!("expected a listing"),
    };
    assert_eq!(first, second);
}

#[test]
fn index_policies() {
    let t = todo_with(&["a", "b", "c"]);
    assert_eq!(t.validate_index(0), None);
    assert_eq!(t.validate_index(1), Some(0));
    assert_eq!(t.validate_index(3), Some(2));
    assert_eq!(t.validate_index(4), None);
    assert_eq!(t.clamp_index(-5), 0);
    assert_eq!(t.clamp_index(1), 0);
    assert_eq!(t.clamp_index(2), 1);
    assert_eq!(t.clamp_index(100), 2);
    assert_eq!(t.loop_index(2, 1), 0);
    assert_eq!(t.loop_index(0, -1), 2);
    assert_eq!(t.loop_index(1, 7), 2);
    let empty = todo_with(&[]);
    assert_eq!(empty.clamp_index(3), 0);
    assert_eq!(empty.loop_index(0, 5), 0);
}
