use driftdb::replica::{
    decode_record, load_store, plan, PlanError, Put, RecordError, ReplicaTask, ReplicationPlan,
    Reply, RestoreError, RetryPolicy, Scan, Stage,
};
use driftdb::storage::KeyError;
use driftdb::store::{ApplyResult, DeleteInstruction, PushInstruction, Store};
use driftdb::types::{Action, Key, SequenceNumber, SequenceValue};
use serde_json::Value;

fn object() -> Value {
    let mut map = serde_json::Map::new();
    map.insert("b".to_string(), Value::from(vec![1, 2]));
    map.insert("a".to_string(), Value::from("x"));
    Value::Object(map)
}

fn record(key: &str, value: &str) -> (String, String) {
    (key.to_string(), value.to_string())
}

fn policy() -> RetryPolicy {
    RetryPolicy { max_attempts: 3, base_delay_ms: 100, max_delay_ms: 1000 }
}

#[test]
fn append_is_mirrored_by_one_put() {
    let mut store = Store::new();
    let result = store.apply(&Key::from("a/b"), object(), &Action::Append);
    assert_eq!(
        plan(&Key::from("a/b"), &result),
        Ok(ReplicationPlan {
            delete: None,
            put: Some(Put {
                key: "a%2Fb/00000000000000000001".to_string(),
                value: "{\"a\":\"x\",\"b\":[1,2]}".to_string(),
            }),
        })
    );
}

#[test]
fn replace_is_mirrored_by_a_scan_of_the_subject_and_a_put() {
    let mut store = Store::new();
    store.apply(&Key::from("a"), Value::from(1), &Action::Append);
    let result = store.apply(&Key::from("a"), Value::from("two"), &Action::Replace);
    assert_eq!(
        plan(&Key::from("a"), &result),
        Ok(ReplicationPlan {
            delete: Some(Scan { prefix: "a/".to_string(), end: None }),
            put: Some(Put {
                key: "a/00000000000000000002".to_string(),
                value: "\"two\"".to_string(),
            }),
        })
    );
}

#[test]
fn compact_is_mirrored_by_a_bounded_scan_and_a_put() {
    let mut store = Store::new();
    let action = Action::Compact { seq: SequenceNumber(9) };
    let result = store.apply(&Key::from("a"), Value::Null, &action);
    assert_eq!(
        plan(&Key::from("a"), &result),
        Ok(ReplicationPlan {
            delete: Some(Scan {
                prefix: "a/".to_string(),
                end: Some("a/00000000000000000010".to_string()),
            }),
            put: Some(Put { key: "a/00000000000000000009".to_string(), value: "null".to_string() }),
        })
    );
}

#[test]
fn compact_at_the_last_number_scans_the_whole_subject() {
    let result = ApplyResult {
        delete_instruction: Some(DeleteInstruction::DeleteUpTo(SequenceNumber(u64::MAX))),
        push_instruction: None,
        broadcast: None,
        subject_size: 0,
    };
    assert_eq!(
        plan(&Key::from("a"), &result),
        Ok(ReplicationPlan {
            delete: Some(Scan { prefix: "a/".to_string(), end: None }),
            put: None,
        })
    );
}

#[test]
fn relay_is_mirrored_by_nothing() {
    let mut store = Store::new();
    let result = store.apply(&Key::from("a"), Value::from(1), &Action::Relay);
    assert_eq!(plan(&Key::from("a"), &result), Ok(ReplicationPlan { delete: None, put: None }));
}

#[test]
fn plan_without_text_for_a_push_fails() {
    let entry = SequenceValue { value: Value::from(1), seq: SequenceNumber(4) };
    let pushing = ApplyResult {
        delete_instruction: None,
        push_instruction: Some(PushInstruction::PushStart(entry)),
        broadcast: None,
        subject_size: 1,
    };
    let key = Key::from("a");
    assert_eq!(ReplicationPlan::assemble(&key, &pushing, None), Err(PlanError::Unwritable));
    assert_eq!(
        ReplicationPlan::assemble(&key, &pushing, Some("1".to_string())),
        Ok(ReplicationPlan {
            delete: None,
            put: Some(Put { key: "a/00000000000000000004".to_string(), value: "1".to_string() }),
        })
    );
    let idle = ApplyResult {
        delete_instruction: None,
        push_instruction: None,
        broadcast: None,
        subject_size: 1,
    };
    assert_eq!(
        ReplicationPlan::assemble(&key, &idle, None),
        Ok(ReplicationPlan { delete: None, put: None })
    );
}

#[test]
fn record_is_taken_back() {
    assert_eq!(
        decode_record("a%2Fb/00000000000000000012", "{\"a\":\"x\",\"b\":[1,2]}"),
        Ok((Key::from("a/b"), SequenceValue { value: object(), seq: SequenceNumber(12) }))
    );
    assert_eq!(
        decode_record("a/0000000000000000001", "1"),
        Err(RecordError::Key(KeyError::MissingSequence))
    );
    assert_eq!(
        decode_record("a/0000000000000000001x", "1"),
        Err(RecordError::Key(KeyError::InvalidSequence))
    );
    assert_eq!(
        decode_record("%/00000000000000000012", "1"),
        Err(RecordError::Key(KeyError::InvalidEscape))
    );
    assert_eq!(decode_record("a/00000000000000000012", "{1"), Err(RecordError::Value));
    assert_eq!(decode_record("a/00000000000000000012", ""), Err(RecordError::Value));
}

#[test]
fn store_is_rebuilt_from_a_listing() {
    let records = vec![
        record("a/00000000000000000001", "1"),
        record("a/00000000000000000003", "[3]"),
        record("b/00000000000000000002", "\"two\""),
    ];
    let store = load_store(&records).ok().unwrap();
    assert_eq!(store.sequence_number(), SequenceNumber(3));
    assert_eq!(
        store.dump(SequenceNumber(0)),
        vec![
            (
                Key::from("a"),
                vec![
                    SequenceValue { value: Value::from(1), seq: SequenceNumber(1) },
                    SequenceValue { value: Value::from(vec![3]), seq: SequenceNumber(3) },
                ],
            ),
            (
                Key::from("b"),
                vec![SequenceValue { value: Value::from("two"), seq: SequenceNumber(2) }],
            ),
        ]
    );
}

#[test]
fn store_is_rebuilt_alike_from_records_in_another_order() {
    let sorted = vec![
        record("a/00000000000000000001", "1"),
        record("a/00000000000000000002", "2"),
        record("a/00000000000000000010", "10"),
    ];
    let shuffled = vec![sorted[2].clone(), sorted[0].clone(), sorted[1].clone()];
    let first = load_store(&sorted).ok().unwrap();
    let second = load_store(&shuffled).ok().unwrap();
    assert_eq!(first.dump(SequenceNumber(0)), second.dump(SequenceNumber(0)));
    assert_eq!(first.sequence_number(), second.sequence_number());
    assert_eq!(second.sequence_number(), SequenceNumber(10));
}

#[test]
fn empty_listing_gives_an_empty_store() {
    let store = load_store(&vec![]).ok().unwrap();
    assert_eq!(store.sequence_number(), SequenceNumber(0));
    assert_eq!(store.dump(SequenceNumber(0)), vec![]);
}

#[test]
fn first_bad_record_stops_the_rebuild() {
    let records = vec![
        record("a/00000000000000000001", "1"),
        record("a/00000000000000000002", "{"),
        record("nonsense", "3"),
    ];
    assert_eq!(
        load_store(&records).err(),
        Some(RestoreError { record: 1, cause: RecordError::Value })
    );
    let records = vec![record("nonsense", "3"), record("a/00000000000000000002", "{")];
    assert_eq!(
        load_store(&records).err(),
        Some(RestoreError { record: 0, cause: RecordError::Key(KeyError::MissingSequence) })
    );
}

#[test]
fn what_was_mirrored_is_rebuilt() {
    let mut store = Store::new();
    let mut storage: Vec<(String, String)> = Vec::new();
    let pushes = [
        ("a", Action::Append),
        ("b", Action::Append),
        ("a", Action::Append),
        ("a", Action::Compact { seq: SequenceNumber(1) }),
        ("b", Action::Replace),
        ("a", Action::Relay),
        ("a", Action::Append),
    ];
    for (round, (key, action)) in pushes.iter().enumerate() {
        let key = Key::from(*key);
        let result = store.apply(&key, Value::from(round), action);
        let plan = plan(&key, &result).unwrap();
        if let Some(scan) = plan.delete {
            storage.retain(|(stored, _)| {
                !(stored.starts_with(&scan.prefix)
                    && scan.end.as_ref().map_or(true, |end| stored < end))
            });
        }
        if let Some(put) = plan.put {
            storage.retain(|(stored, _)| *stored != put.key);
            storage.push((put.key, put.value));
        }
    }
    storage.sort();
    let rebuilt = load_store(&storage).ok().unwrap();
    assert_eq!(rebuilt.dump(SequenceNumber(0)), store.dump(SequenceNumber(0)));
    assert_eq!(rebuilt.sequence_number(), SequenceNumber(6));
}

#[test]
fn task_goes_through_the_stages_of_its_plan() {
    let scan = Scan { prefix: "a/".to_string(), end: None };
    let put = Put { key: "a/00000000000000000001".to_string(), value: "1".to_string() };
    let full = ReplicationPlan { delete: Some(scan), put: Some(put) };
    let task = ReplicaTask::start(&full);
    assert_eq!(task, ReplicaTask { stage: Stage::Scan, failures: 0, puts: true });
    let task = task.advance(Reply::Done, &policy());
    assert_eq!(task.stage, Stage::Delete);
    let task = task.advance(Reply::Done, &policy());
    assert_eq!(task.stage, Stage::Put);
    let task = task.advance(Reply::Done, &policy());
    assert_eq!(task.stage, Stage::Finished);
    assert_eq!(task.advance(Reply::Failed, &policy()), task);

    let only_delete = ReplicationPlan { delete: full.delete, put: None };
    let task = ReplicaTask::start(&only_delete).advance(Reply::Done, &policy());
    assert_eq!(task.advance(Reply::Done, &policy()).stage, Stage::Finished);

    let only_put = ReplicationPlan { delete: None, put: full.put };
    assert_eq!(ReplicaTask::start(&only_put).stage, Stage::Put);
    let nothing = ReplicationPlan { delete: None, put: None };
    assert_eq!(ReplicaTask::start(&nothing).stage, Stage::Finished);
}

#[test]
fn task_is_abandoned_after_the_allowed_tries() {
    let task = ReplicaTask { stage: Stage::Put, failures: 0, puts: true };
    let once = task.advance(Reply::Failed, &policy());
    assert_eq!(once, ReplicaTask { stage: Stage::Put, failures: 1, puts: true });
    let twice = once.advance(Reply::Failed, &policy());
    assert_eq!(twice, ReplicaTask { stage: Stage::Put, failures: 2, puts: true });
    let thrice = twice.advance(Reply::Failed, &policy());
    assert_eq!(thrice.stage, Stage::Abandoned);
    assert_eq!(thrice.advance(Reply::Done, &policy()), thrice);
    let recovered = twice.advance(Reply::Done, &policy());
    assert_eq!(recovered, ReplicaTask { stage: Stage::Finished, failures: 0, puts: true });
    let never = RetryPolicy { max_attempts: 0, base_delay_ms: 1, max_delay_ms: 1 };
    assert_eq!(task.advance(Reply::Failed, &never).stage, Stage::Abandoned);
}

#[test]
fn wait_doubles_up_to_the_longest() {
    let waits: Vec<u64> = (0..7).map(|failures| policy().delay_ms(failures)).collect();
    assert_eq!(waits, vec![0, 100, 200, 400, 800, 1000, 1000]);
    let short = RetryPolicy { max_attempts: 9, base_delay_ms: 500, max_delay_ms: 300 };
    assert_eq!(short.delay_ms(1), 300);
    let huge = RetryPolicy { max_attempts: 9, base_delay_ms: 1 << 62, max_delay_ms: u64::MAX };
    assert_eq!(huge.delay_ms(2), 1 << 63);
    assert_eq!(huge.delay_ms(3), u64::MAX);
    assert_eq!(huge.delay_ms(u32::MAX.min(200)), u64::MAX);
}
