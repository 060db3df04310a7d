use driftdb::store::{ApplyResult, DeleteInstruction, PushInstruction, Store};
use driftdb::types::{Action, Key, SequenceNumber, SequenceValue};
use serde_json::Value;

fn entry(value: i64, seq: u64) -> SequenceValue {
    SequenceValue { value: Value::from(value), seq: SequenceNumber(seq) }
}

fn text_entry(value: &str, seq: u64) -> SequenceValue {
    SequenceValue { value: Value::from(value), seq: SequenceNumber(seq) }
}

fn three_appends() -> Store {
    let mut store = Store::new();
    let key = Key::from("a");
    store.apply(&key, Value::from(1), &Action::Append);
    store.apply(&key, Value::from(2), &Action::Append);
    store.apply(&key, Value::from(3), &Action::Append);
    store
}

#[test]
fn new_store_is_empty() {
    let store = Store::new();
    assert_eq!(store.sequence_number(), SequenceNumber(0));
    assert_eq!(store.dump(SequenceNumber(0)), vec![]);
}

#[test]
fn dump_after_two_appends() {
    let mut store = Store::new();
    let key = Key::from("a");
    store.apply(&key, Value::from(1), &Action::Append);
    store.apply(&key, Value::from(2), &Action::Append);
    assert_eq!(
        store.dump(SequenceNumber(0)),
        vec![(Key::from("a"), vec![entry(1, 1), entry(2, 2)])]
    );
    assert_eq!(store.dump(SequenceNumber(1)), vec![(Key::from("a"), vec![entry(2, 2)])]);
}

#[test]
fn dump_leaves_out_subjects_without_newer_entries() {
    let mut store = Store::new();
    store.apply(&Key::from("a"), Value::from(1), &Action::Append);
    store.apply(&Key::from("b"), Value::from(2), &Action::Append);
    assert_eq!(store.dump(SequenceNumber(1)), vec![(Key::from("b"), vec![entry(2, 2)])]);
    assert_eq!(store.dump(SequenceNumber(2)), vec![]);
}

#[test]
fn dump_lists_subjects_in_the_order_of_their_first_value() {
    let mut store = Store::new();
    store.apply(&Key::from("b"), Value::from(1), &Action::Append);
    store.apply(&Key::from("a"), Value::from(2), &Action::Append);
    store.apply(&Key::from("b"), Value::from(3), &Action::Append);
    assert_eq!(
        store.dump(SequenceNumber(0)),
        vec![
            (Key::from("b"), vec![entry(1, 1), entry(3, 3)]),
            (Key::from("a"), vec![entry(2, 2)]),
        ]
    );
}

#[test]
fn append_reports_push_and_broadcast() {
    let mut store = Store::new();
    let result = store.apply(&Key::from("a"), Value::from(1), &Action::Append);
    assert_eq!(
        result,
        ApplyResult {
            delete_instruction: None,
            push_instruction: Some(PushInstruction::Push(entry(1, 1))),
            broadcast: Some(entry(1, 1)),
            subject_size: 1,
        }
    );
    assert!(result.mutates());
}

#[test]
fn replace_leaves_one_entry() {
    let mut store = three_appends();
    let result = store.apply(&Key::from("a"), Value::from(9), &Action::Replace);
    assert_eq!(
        result,
        ApplyResult {
            delete_instruction: Some(DeleteInstruction::Delete),
            push_instruction: Some(PushInstruction::Push(entry(9, 4))),
            broadcast: Some(entry(9, 4)),
            subject_size: 1,
        }
    );
    assert!(result.mutates());
    assert_eq!(store.dump(SequenceNumber(0)), vec![(Key::from("a"), vec![entry(9, 4)])]);
}

#[test]
fn replace_of_an_unknown_subject_creates_it() {
    let mut store = Store::new();
    let result = store.apply(&Key::from("a"), Value::from(9), &Action::Replace);
    assert_eq!(result.subject_size, 1);
    assert_eq!(store.dump(SequenceNumber(0)), vec![(Key::from("a"), vec![entry(9, 1)])]);
}

#[test]
fn compact_rolls_up_history() {
    let mut store = three_appends();
    let result = store.apply(
        &Key::from("a"),
        Value::from("snap"),
        &Action::Compact { seq: SequenceNumber(2) },
    );
    assert_eq!(
        result,
        ApplyResult {
            delete_instruction: Some(DeleteInstruction::DeleteUpTo(SequenceNumber(2))),
            push_instruction: Some(PushInstruction::PushStart(text_entry("snap", 2))),
            broadcast: None,
            subject_size: 2,
        }
    );
    assert!(result.mutates());
    assert_eq!(store.sequence_number(), SequenceNumber(3));
    assert_eq!(
        store.dump(SequenceNumber(0)),
        vec![(Key::from("a"), vec![text_entry("snap", 2), entry(3, 3)])]
    );
}

#[test]
fn compact_twice_at_the_same_number_keeps_one_snapshot() {
    let mut store = three_appends();
    let action = Action::Compact { seq: SequenceNumber(2) };
    store.apply(&Key::from("a"), Value::from("snap"), &action);
    let result = store.apply(&Key::from("a"), Value::from("again"), &action);
    assert_eq!(result.subject_size, 2);
    assert_eq!(
        store.dump(SequenceNumber(0)),
        vec![(Key::from("a"), vec![text_entry("again", 2), entry(3, 3)])]
    );
}

#[test]
fn compact_at_a_smaller_number_keeps_the_later_snapshot() {
    let mut store = three_appends();
    store.apply(&Key::from("a"), Value::from("snap"), &Action::Compact { seq: SequenceNumber(2) });
    store.apply(&Key::from("a"), Value::from("old"), &Action::Compact { seq: SequenceNumber(1) });
    assert_eq!(
        store.dump(SequenceNumber(0)),
        vec![(Key::from("a"), vec![text_entry("old", 1), text_entry("snap", 2), entry(3, 3)])]
    );
}

#[test]
fn compact_of_everything_leaves_the_snapshot() {
    let mut store = three_appends();
    let result = store.apply(
        &Key::from("a"),
        Value::from("snap"),
        &Action::Compact { seq: SequenceNumber(3) },
    );
    assert_eq!(result.subject_size, 1);
    assert_eq!(store.dump(SequenceNumber(0)), vec![(Key::from("a"), vec![text_entry("snap", 3)])]);
    assert_eq!(store.dump(SequenceNumber(3)), vec![]);
}

#[test]
fn relay_keeps_dump_and_advances_counter() {
    let mut store = three_appends();
    let before = store.dump(SequenceNumber(0));
    let result = store.apply(&Key::from("a"), Value::from("ping"), &Action::Relay);
    assert_eq!(
        result,
        ApplyResult {
            delete_instruction: None,
            push_instruction: None,
            broadcast: Some(text_entry("ping", 4)),
            subject_size: 3,
        }
    );
    assert!(!result.mutates());
    assert_eq!(store.dump(SequenceNumber(0)), before);
    let next = store.apply(&Key::from("a"), Value::from(4), &Action::Append);
    assert_eq!(next.broadcast, Some(entry(4, 5)));
}

#[test]
fn relay_to_an_unknown_subject_reports_size_zero() {
    let mut store = Store::new();
    let result = store.apply(&Key::from("nobody"), Value::Null, &Action::Relay);
    assert_eq!(result.subject_size, 0);
    assert_eq!(store.sequence_number(), SequenceNumber(1));
    assert_eq!(store.dump(SequenceNumber(0)), vec![]);
}

#[test]
fn sequence_numbers_increase_across_subjects() {
    let mut store = Store::new();
    let actions = [Action::Append, Action::Relay, Action::Replace, Action::Append, Action::Relay];
    let keys = ["a", "b", "c", "a", "b"];
    let mut last = 0;
    for (key, action) in keys.iter().zip(actions.iter()) {
        let result = store.apply(&Key::from(*key), Value::from(0), action);
        let seq = result.broadcast.unwrap().seq.0;
        assert_eq!(seq, last + 1);
        last = seq;
    }
    assert_eq!(store.sequence_number(), SequenceNumber(5));
}

#[test]
fn keys_are_compared_without_normalisation() {
    let mut store = Store::new();
    store.apply(&Key::from("a"), Value::from(1), &Action::Append);
    store.apply(&Key::from("A"), Value::from(2), &Action::Append);
    store.apply(&Key::from("a "), Value::from(3), &Action::Append);
    assert_eq!(store.dump(SequenceNumber(0)).len(), 3);
    assert!(Key::from("a") == Key::from("a"));
    assert!(Key::from("a") != Key::from("A"));
}

#[test]
fn compact_beyond_the_counter_puts_an_entry_ahead_of_later_appends() {
    let mut store = Store::new();
    let key = Key::from("a");
    store.apply(&key, Value::from("snap"), &Action::Compact { seq: SequenceNumber(1000) });
    store.apply(&key, Value::from(1), &Action::Append);
    assert_eq!(
        store.dump(SequenceNumber(0)),
        vec![(Key::from("a"), vec![text_entry("snap", 1000), entry(1, 1)])]
    );
}

#[test]
fn restore_entry_places_by_sequence_number_and_raises_the_counter() {
    let mut store = Store::new();
    store.restore_entry(Key::from("a"), entry(3, 3));
    store.restore_entry(Key::from("a"), entry(1, 1));
    store.restore_entry(Key::from("b"), entry(7, 7));
    store.restore_entry(Key::from("a"), entry(2, 2));
    assert_eq!(store.sequence_number(), SequenceNumber(7));
    assert_eq!(
        store.dump(SequenceNumber(0)),
        vec![
            (Key::from("a"), vec![entry(1, 1), entry(2, 2), entry(3, 3)]),
            (Key::from("b"), vec![entry(7, 7)]),
        ]
    );
    let next = store.apply(&Key::from("a"), Value::from(8), &Action::Append);
    assert_eq!(next.broadcast, Some(entry(8, 8)));
}

#[test]
fn next_seq_takes_consecutive_numbers_and_changes_nothing_else() {
    let mut store = three_appends();
    let before = store.dump(SequenceNumber(0));
    let taken: Vec<u64> = (0..5).map(|_| store.next_seq().0).collect();
    assert_eq!(taken, vec![4, 5, 6, 7, 8]);
    assert_eq!(store.sequence_number(), SequenceNumber(8));
    assert_eq!(store.dump(SequenceNumber(0)), before);
    let next = store.apply(&Key::from("a"), Value::from(9), &Action::Append);
    assert_eq!(next.broadcast, Some(entry(9, 9)));
}
