use driftdb::database::{Database, Fanout, Outcome, Replication};
use driftdb::registry::{Connection, Policy};
use driftdb::store::{ApplyResult, DeleteInstruction, PushInstruction, Store};
use driftdb::types::{
    Action, Key, MessageFromDatabase, MessageToDatabase, SequenceNumber, SequenceValue,
};
use serde_json::Value;

fn seq_value(value: i64, seq: u64) -> SequenceValue {
    SequenceValue { value: Value::from(value), seq: SequenceNumber(seq) }
}

fn push(key: &str, value: i64, action: Action) -> MessageToDatabase {
    MessageToDatabase::Push { key: Key::from(key), value: Value::from(value), action }
}

fn pushed(key: &str, value: i64, seq: u64) -> MessageFromDatabase {
    MessageFromDatabase::Push { key: Key::from(key), value: seq_value(value, seq) }
}

fn size(key: &str, size: usize) -> MessageFromDatabase {
    MessageFromDatabase::StreamSize { key: Key::from(key), size }
}

fn received(outcome: &Outcome, id: u64) -> Vec<MessageFromDatabase> {
    outcome
        .fanouts
        .iter()
        .filter(|fanout| fanout.recipients.contains(&id))
        .map(|fanout| fanout.message.clone())
        .collect()
}

#[test]
fn registration_hands_out_fresh_handles() {
    let mut database = Database::new();
    assert_eq!(database.register(false), Connection { id: 0, debug: false });
    assert_eq!(database.register(true), Connection { id: 1, debug: true });
    let first = Connection { id: 0, debug: false };
    database.deregister(&first);
    assert_eq!(database.register(false), Connection { id: 2, debug: false });
    assert!(!database.registry().is_registered(0));
    assert!(database.registry().is_registered(1));
    assert!(database.registry().is_registered(2));
}

#[test]
fn dump_is_answered_to_the_requester_alone() {
    let mut database = Database::new();
    let first = database.register(false);
    let second = database.register(false);
    database.submit(&first, push("a", 1, Action::Append));
    let outcome = database.submit(&second, MessageToDatabase::Dump { seq: SequenceNumber(0) });
    assert_eq!(
        outcome,
        Outcome {
            fanouts: vec![Fanout {
                message: MessageFromDatabase::Init {
                    data: vec![(Key::from("a"), vec![seq_value(1, 1)])],
                },
                recipients: vec![second.id],
            }],
            replication: None,
        }
    );
}

#[test]
fn dump_before_push_misses_the_value_and_the_broadcast_follows() {
    let mut database = Database::new();
    let dumping = database.register(false);
    let init = database.submit(&dumping, MessageToDatabase::Dump { seq: SequenceNumber(0) });
    assert_eq!(
        received(&init, dumping.id),
        vec![MessageFromDatabase::Init { data: vec![] }]
    );
    let pushing = database.register(false);
    let outcome = database.submit(&pushing, push("a", 7, Action::Append));
    assert_eq!(received(&outcome, dumping.id), vec![pushed("a", 7, 1)]);
}

#[test]
fn push_is_broadcast_to_every_connection() {
    let mut database = Database::new();
    let first = database.register(false);
    let second = database.register(false);
    let third = database.register(false);
    let outcome = database.submit(&second, push("a", 1, Action::Append));
    assert_eq!(
        outcome,
        Outcome {
            fanouts: vec![Fanout {
                message: pushed("a", 1, 1),
                recipients: vec![first.id, second.id, third.id],
            }],
            replication: None,
        }
    );
}

#[test]
fn pushes_of_many_connections_take_consecutive_numbers() {
    let mut database = Database::new();
    let connections: Vec<Connection> = (0..20).map(|_| database.register(false)).collect();
    let mut numbers = Vec::new();
    for round in 0..3 {
        for connection in connections.iter().rev() {
            let action = if round == 1 { Action::Relay } else { Action::Append };
            let outcome = database.submit(connection, push("a", round, action));
            match &outcome.fanouts[0].message {
                MessageFromDatabase::Push { value, .. } => numbers.push(value.seq.0),
                other => panic!("unexpected message {:?}", other),
            }
        }
    }
    assert_eq!(numbers, (1..=60).collect::<Vec<u64>>());
}

#[test]
fn sender_is_spared_where_the_policy_says_so() {
    let mut database = Database::new();
    database.set_policy(Policy { echo_to_sender: false, stream_size_to_all: true });
    let first = database.register(false);
    let second = database.register(false);
    let outcome = database.submit(&first, push("a", 1, Action::Append));
    assert_eq!(received(&outcome, first.id), vec![]);
    assert_eq!(received(&outcome, second.id), vec![pushed("a", 1, 1)]);
    database.deregister(&second);
    let alone = database.submit(&first, push("a", 2, Action::Append));
    assert_eq!(alone, Outcome { fanouts: vec![], replication: None });
}

#[test]
fn debug_connections_get_the_stream_size_after_the_broadcast() {
    let mut database = Database::new();
    let plain = database.register(false);
    let debug = database.register(true);
    database.submit(&plain, push("a", 1, Action::Append));
    let outcome = database.submit(&plain, push("a", 2, Action::Append));
    assert_eq!(
        outcome.fanouts,
        vec![
            Fanout { message: pushed("a", 2, 2), recipients: vec![plain.id, debug.id] },
            Fanout { message: size("a", 2), recipients: vec![debug.id] },
        ]
    );
    assert_eq!(received(&outcome, plain.id), vec![pushed("a", 2, 2)]);
}

#[test]
fn stream_size_follows_a_push_that_mutates_nothing_or_broadcasts_nothing() {
    let mut database = Database::new();
    let debug = database.register(true);
    database.submit(&debug, push("a", 1, Action::Append));
    let relay = database.submit(&debug, push("a", 2, Action::Relay));
    assert_eq!(received(&relay, debug.id), vec![pushed("a", 2, 2), size("a", 1)]);
    let compact =
        database.submit(&debug, push("a", 3, Action::Compact { seq: SequenceNumber(1) }));
    assert_eq!(received(&compact, debug.id), vec![size("a", 1)]);
}

#[test]
fn stream_size_goes_to_the_sender_alone_where_the_policy_says_so() {
    let mut database = Database::new();
    database.set_policy(Policy { echo_to_sender: true, stream_size_to_all: false });
    let plain = database.register(false);
    let debug = database.register(true);
    let other = database.register(true);
    let by_debug = database.submit(&debug, push("a", 1, Action::Append));
    assert_eq!(received(&by_debug, debug.id), vec![pushed("a", 1, 1), size("a", 1)]);
    assert_eq!(received(&by_debug, other.id), vec![pushed("a", 1, 1)]);
    let by_plain = database.submit(&plain, push("a", 2, Action::Append));
    assert_eq!(by_plain.fanouts.len(), 1);
}

#[test]
fn deregistered_connection_receives_nothing_more() {
    let mut database = Database::new();
    let first = database.register(true);
    let second = database.register(false);
    database.deregister(&first);
    database.deregister(&first);
    let outcome = database.submit(&second, push("a", 1, Action::Append));
    assert_eq!(
        outcome.fanouts,
        vec![Fanout { message: pushed("a", 1, 1), recipients: vec![second.id] }]
    );
}

#[test]
fn submission_of_a_deregistered_connection_changes_nothing() {
    let mut database = Database::new();
    let first = database.register(false);
    let second = database.register(false);
    database.deregister(&first);
    let outcome = database.submit(&first, push("a", 1, Action::Append));
    assert_eq!(outcome, Outcome { fanouts: vec![], replication: None });
    let dump = database.submit(&first, MessageToDatabase::Dump { seq: SequenceNumber(0) });
    assert_eq!(dump, Outcome { fanouts: vec![], replication: None });
    assert_eq!(database.store().sequence_number(), SequenceNumber(0));
    let next = database.submit(&second, push("a", 2, Action::Append));
    assert_eq!(received(&next, second.id), vec![pushed("a", 2, 1)]);
}

#[test]
fn mutations_are_handed_to_the_replication_hook_where_one_is_set() {
    let mut database = Database::new();
    let connection = database.register(false);
    let silent = database.submit(&connection, push("a", 1, Action::Append));
    assert_eq!(silent.replication, None);
    database.set_replicated(true);
    let replace = database.submit(&connection, push("a", 2, Action::Replace));
    assert_eq!(
        replace.replication,
        Some(Replication {
            key: Key::from("a"),
            result: ApplyResult {
                delete_instruction: Some(DeleteInstruction::Delete),
                push_instruction: Some(PushInstruction::Push(seq_value(2, 2))),
                broadcast: Some(seq_value(2, 2)),
                subject_size: 1,
            },
        })
    );
    let relay = database.submit(&connection, push("a", 3, Action::Relay));
    assert_eq!(relay.replication, None);
    let dump = database.submit(&connection, MessageToDatabase::Dump { seq: SequenceNumber(0) });
    assert_eq!(dump.replication, None);
}

#[test]
fn database_over_a_restored_store_goes_on_from_its_counter() {
    let mut store = Store::new();
    store.restore_entry(Key::from("a"), seq_value(5, 41));
    let mut database = Database::new_from_store(store);
    let connection = database.register(false);
    let outcome = database.submit(&connection, push("a", 6, Action::Append));
    assert_eq!(received(&outcome, connection.id), vec![pushed("a", 6, 42)]);
}

#[test]
fn exhausted_counter_accepts_only_what_takes_no_number() {
    let mut store = Store::new();
    store.restore_entry(Key::from("a"), seq_value(5, u64::MAX));
    let database = Database::new_from_store(store);
    assert!(!database.accepts(&push("a", 1, Action::Append)));
    assert!(!database.accepts(&push("a", 1, Action::Replace)));
    assert!(!database.accepts(&push("a", 1, Action::Relay)));
    assert!(database.accepts(&push("a", 1, Action::Compact { seq: SequenceNumber(3) })));
    assert!(database.accepts(&MessageToDatabase::Dump { seq: SequenceNumber(0) }));
    assert!(Database::new().accepts(&push("a", 1, Action::Append)));
}

#[test]
fn connections_with_failed_deliveries_are_dropped() {
    let mut database = Database::new();
    let first = database.register(true);
    let second = database.register(false);
    let third = database.register(true);
    database.drop_failed(&vec![third.id, first.id, third.id, 99]);
    assert!(!database.registry().is_registered(first.id));
    assert!(database.registry().is_registered(second.id));
    assert!(!database.registry().is_registered(third.id));
    let outcome = database.submit(&second, push("a", 1, Action::Append));
    assert_eq!(
        outcome.fanouts,
        vec![Fanout { message: pushed("a", 1, 1), recipients: vec![second.id] }]
    );
    database.drop_failed(&vec![]);
    assert!(database.registry().is_registered(second.id));
}
