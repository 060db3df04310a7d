//! What a replica holds, as mathematics, and what comes of carrying out the
//! plans of the mutations on it: the storage keeps mirroring the store, and
//! the store can be rebuilt from a listing of it.

use crate::history::{
    ascending, lemma_apply_touches_one_log, lemma_counter_rises, lemma_log_ascending,
    lemma_newer_than_members, lemma_run_keeps_chronological, Push,
};
use crate::json::{json_text, json_value};
use crate::replica::{
    came_from, decoded, held_in, lemma_ascending_logs_equal, lemma_restored_holds_records,
    lemma_restored_in_order, lemma_scan_finds_deleted, plan_for, restored, scan_finds, scan_for,
    PlanView, RecordError,
};
use crate::storage::{
    lemma_parse_storage_key, lemma_storage_key_of_parsed, parse_key, storage_key, KeyError,
};
use crate::store::{newer_than, DeleteInstruction, Log, StoreState};
use crate::types::{Action, SequenceValue};
use serde_json::Value;
use vstd::prelude::*;

verus! {

/// What a replica holds: the stored texts by their storage keys.
pub type Stored = Map<Seq<char>, Seq<char>>;

impl PlanView {
    /// What the replica holds after the plan was carried out: what the scan
    /// finds is deleted, then the put is stored.
    pub open spec fn carried_out(self, stored: Stored) -> Stored {
        let kept = match self.delete {
            Some(scan) => Map::new(
                |k: Seq<char>| stored.dom().contains(k) && !scan_finds(scan, k),
                |k: Seq<char>| stored[k],
            ),
            None => stored,
        };
        match self.put {
            Some(put) => kept.insert(put.key, put.value),
            None => kept,
        }
    }
}

/// Whether `log` holds an entry with the sequence number `seq`.
pub open spec fn holds_number(log: Log, seq: u64) -> bool {
    exists|i: int| 0 <= i < log.len() && (#[trigger] log[i]).seq.0 == seq
}

/// Whether the replica mirrors the store: it holds storage keys only, the
/// storage key of a subject and a number exactly where the subject's log
/// holds an entry with that number, and under it the JSON text of that
/// entry's value.
pub open spec fn mirrors(stored: Stored, state: StoreState) -> bool {
    &&& forall|k: Seq<char>| stored.dom().contains(k) ==> #[trigger] parse_key(k) is Ok
    &&& forall|key: Seq<char>, seq: u64| #[trigger]
        stored.dom().contains(storage_key(key, seq)) <==> holds_number(state.log(key), seq)
    &&& forall|key: Seq<char>, i: int|
        0 <= i < state.log(key).len() ==> json_text((#[trigger] state.log(key)[i]).value) == Some(
            stored[storage_key(key, state.log(key)[i].seq.0)],
        )
}

/// Whether every value that the store retains reads back from its JSON text
/// as the value that it is.
pub open spec fn reads_back(state: StoreState) -> bool {
    forall|key: Seq<char>, i: int|
        0 <= i < state.log(key).len() ==> (json_text(
            (#[trigger] state.log(key)[i]).value,
        ) matches Some(text) ==> json_value(text) == Some(state.log(key)[i].value))
}

/// Whether `records` is a listing of what the replica holds: every stored
/// text with its storage key, each once.
pub open spec fn lists(records: Seq<(Seq<char>, Seq<char>)>, stored: Stored) -> bool {
    &&& forall|i: int, j: int|
        0 <= i < j < records.len() ==> (#[trigger] records[i]).0 != (#[trigger] records[j]).0
    &&& forall|record: (Seq<char>, Seq<char>)|
        records.contains(record) <==> stored.dom().contains(record.0) && stored[record.0]
            == record.1
}

/// An empty replica mirrors an empty store, whose values all read back.
pub proof fn lemma_empty_mirrors()
    ensures
        mirrors(Map::empty(), StoreState::empty()),
        reads_back(StoreState::empty()),
        StoreState::empty().wf(),
        StoreState::empty().chronological(),
        lists(Seq::empty(), Map::empty()),
{
    assert forall|key: Seq<char>| #[trigger] StoreState::empty().log(key).len() == 0 by {}
    assert forall|key: Seq<char>, seq: u64|
        !#[trigger] holds_number(StoreState::empty().log(key), seq) by {}
}

/// The storage keys of two entries are the same only for the same subject
/// and number.
pub proof fn lemma_storage_keys_differ(key: Seq<char>, seq: u64, other: Seq<char>, number: u64)
    ensures
        storage_key(key, seq) == storage_key(other, number) <==> key == other && seq == number,
{
    lemma_parse_storage_key(key, seq);
    lemma_parse_storage_key(other, number);
}

/// A replica that mirrors the store still mirrors it after the plan of a
/// mutation was carried out on it, as long as no entry of the store lies
/// beyond the counter.
pub proof fn lemma_plan_keeps_mirror(
    stored: Stored,
    state: StoreState,
    key: Seq<char>,
    value: Value,
    action: Action,
)
    requires
        state.wf(),
        state.chronological(),
        !(action is Compact) ==> state.sequence_number < u64::MAX,
        mirrors(stored, state),
        plan_for(key, state.outcome(key, value, action)) is Ok,
    ensures
        mirrors(
            plan_for(key, state.outcome(key, value, action))->Ok_0.carried_out(stored),
            state.apply(key, value, action),
        ),
{
    let result = state.outcome(key, value, action);
    let plan = plan_for(key, result)->Ok_0;
    let after = state.apply(key, value, action);
    let held = plan.carried_out(stored);
    let log = state.log(key);
    let entry = SequenceValue { value, seq: state.assigned(action) };
    let new_log = state.log_after(key, value, action);
    lemma_log_ascending(state, key);
    assert forall|other: Seq<char>| other != key implies #[trigger] after.log(other) == state.log(
        other,
    ) by {
        lemma_apply_touches_one_log(state, key, value, action, other);
    }
    lemma_apply_touches_one_log(state, key, value, action, key);
    assert(after.log(key) == new_log);
    if action is Relay {
        assert(held == stored);
    } else {
        let put_key = storage_key(key, entry.seq.0);
        assert(plan.put is Some && plan.put->0.key == put_key);
        assert(json_text(value) == Some(plan.put->0.value));
        lemma_parse_storage_key(key, entry.seq.0);
        // Which storage keys the plan's scan finds.
        assert forall|other: Seq<char>, seq: u64|
            result.delete_instruction is Some implies (#[trigger] scan_finds(
            scan_for(key, result.delete_instruction->0),
            storage_key(other, seq),
        ) <==> other == key && (result.delete_instruction->0 matches DeleteInstruction::DeleteUpTo(
            bound,
        ) ==> seq <= bound.0)) by {
            lemma_scan_finds_deleted(key, result.delete_instruction->0, other, seq);
        }
        assert forall|k: Seq<char>| held.dom().contains(k) implies #[trigger] parse_key(k)
            is Ok by {
            if k != put_key {
                assert(stored.dom().contains(k));
            }
        }
        assert forall|other: Seq<char>, seq: u64| #[trigger]
            held.dom().contains(storage_key(other, seq)) <==> holds_number(
                after.log(other),
                seq,
            ) by {
            lemma_storage_keys_differ(other, seq, key, entry.seq.0);
            assert(stored.dom().contains(storage_key(other, seq)) <==> holds_number(
                state.log(other),
                seq,
            ));
            if other == key {
                lemma_holds_number_after(state, key, value, action, seq);
            }
        }
        assert forall|other: Seq<char>, i: int| 0 <= i < after.log(other).len() implies json_text(
            (#[trigger] after.log(other)[i]).value,
        ) == Some(held[storage_key(other, after.log(other)[i].seq.0)]) by {
            let e = after.log(other)[i];
            lemma_storage_keys_differ(other, e.seq.0, key, entry.seq.0);
            if other != key {
                assert(state.log(other)[i] == e);
                assert(holds_number(state.log(other), e.seq.0));
                assert(stored.dom().contains(storage_key(other, e.seq.0)));
            } else if e != entry {
                lemma_old_entry_stays(state, key, value, action, i);
                let at = choose|at: int| 0 <= at < log.len() && log[at] == e;
                assert(log[at].seq.0 != entry.seq.0);
                assert(holds_number(log, e.seq.0));
                assert(stored.dom().contains(storage_key(key, e.seq.0)));
                assert(held.dom().contains(storage_key(key, e.seq.0))) by {
                    assert(holds_number(new_log, e.seq.0));
                }
            }
        }
    }
}

/// Which numbers the log of a subject holds after an action on it.
proof fn lemma_holds_number_after(
    state: StoreState,
    key: Seq<char>,
    value: Value,
    action: Action,
    seq: u64,
)
    requires
        !(action is Relay),
    ensures
        holds_number(state.log_after(key, value, action), seq) <==> seq == state.assigned(
            action,
        ).0 || (holds_number(state.log(key), seq) && match action {
            Action::Append => true,
            Action::Compact { seq: bound } => seq > bound.0,
            _ => false,
        }),
{
    let log = state.log(key);
    let new_log = state.log_after(key, value, action);
    let entry = SequenceValue { value, seq: state.assigned(action) };
    match action {
        Action::Append => {
            if holds_number(log, seq) {
                let i = choose|i: int| 0 <= i < log.len() && (#[trigger] log[i]).seq.0 == seq;
                assert(new_log[i].seq.0 == seq);
            }
            if holds_number(new_log, seq) {
                let i = choose|i: int|
                    0 <= i < new_log.len() && (#[trigger] new_log[i]).seq.0 == seq;
                if i < log.len() {
                    assert(log[i].seq.0 == seq);
                }
            }
            assert(new_log[log.len() as int] == entry);
        },
        Action::Replace => {
            assert(new_log[0] == entry);
        },
        Action::Compact { seq: bound } => {
            let rest = newer_than(log, bound);
            assert(new_log[0] == entry);
            if holds_number(log, seq) && seq > bound.0 {
                let i = choose|i: int| 0 <= i < log.len() && (#[trigger] log[i]).seq.0 == seq;
                lemma_newer_than_members(log, bound, log[i]);
                assert(log.contains(log[i]));
                let k = choose|k: int| 0 <= k < rest.len() && rest[k] == log[i];
                assert(new_log[k + 1] == log[i]);
            }
            if holds_number(new_log, seq) && seq != bound.0 {
                let i = choose|i: int|
                    0 <= i < new_log.len() && (#[trigger] new_log[i]).seq.0 == seq;
                assert(new_log[i] == rest[i - 1]);
                assert(rest.contains(rest[i - 1]));
                lemma_newer_than_members(log, bound, rest[i - 1]);
                let at = choose|at: int| 0 <= at < log.len() && log[at] == rest[i - 1];
                assert(log[at].seq.0 == seq);
            }
        },
        Action::Relay => {},
    }
}

/// An entry of the log after an action that is not the action's own entry
/// was an entry of the log before, and has another number than the action's
/// own where no entry of the log lay beyond the counter.
proof fn lemma_old_entry_stays(
    state: StoreState,
    key: Seq<char>,
    value: Value,
    action: Action,
    i: int,
)
    requires
        !(action is Relay),
        ascending(state.log(key), state.sequence_number),
        !(action is Compact) ==> state.sequence_number < u64::MAX,
        0 <= i < state.log_after(key, value, action).len(),
        state.log_after(key, value, action)[i] != (SequenceValue {
            value,
            seq: state.assigned(action),
        }),
    ensures
        state.log(key).contains(state.log_after(key, value, action)[i]),
        state.log_after(key, value, action)[i].seq != state.assigned(action),
{
    let log = state.log(key);
    let new_log = state.log_after(key, value, action);
    let e = new_log[i];
    match action {
        Action::Append => {
            assert(log[i] == e);
            assert(log[i].seq.0 <= state.sequence_number);
        },
        Action::Compact { seq: bound } => {
            let rest = newer_than(log, bound);
            assert(e == rest[i - 1]);
            assert(rest.contains(rest[i - 1]));
            lemma_newer_than_members(log, bound, e);
        },
        _ => {},
    }
}

/// A store is rebuilt from a listing of a replica that mirrors it: the
/// records, in whatever order, restore for every subject the log that the
/// store holds, as long as the store's values read back from their JSON
/// texts and its logs are ascending.
pub proof fn lemma_mirror_restores(
    records: Seq<(Seq<char>, Seq<char>)>,
    stored: Stored,
    state: StoreState,
    key: Seq<char>,
)
    requires
        state.chronological(),
        mirrors(stored, state),
        reads_back(state),
        lists(records, stored),
    ensures
        restored(records).log(key) == state.log(key),
{
    let rebuilt = restored(records);
    let a = rebuilt.log(key);
    let b = state.log(key);
    lemma_restored_in_order(records);
    lemma_restored_holds_records(records);
    lemma_log_ascending(rebuilt, key);
    lemma_log_ascending(state, key);
    let top = if rebuilt.sequence_number > state.sequence_number {
        rebuilt.sequence_number
    } else {
        state.sequence_number
    };
    assert forall|e: SequenceValue| a.contains(e) <==> b.contains(e) by {
        if a.contains(e) {
            let i = choose|i: int| 0 <= i < a.len() && a[i] == e;
            let subject = rebuilt.subjects[rebuilt.position(key)];
            assert(subject.1[i] == e);
            assert(came_from(records, key, e));
            let j = choose|j: int|
                0 <= j < records.len() && decoded(#[trigger] records[j]) == Ok::<_, RecordError>(
                    (key, e),
                );
            let record = records[j];
            assert(records.contains(record));
            assert(parse_key(record.0) == Ok::<_, KeyError>((key, e.seq.0)));
            lemma_storage_key_of_parsed(record.0, key, e.seq.0);
            assert(stored.dom().contains(storage_key(key, e.seq.0)));
            assert(holds_number(b, e.seq.0));
            let at = choose|at: int| 0 <= at < b.len() && (#[trigger] b[at]).seq.0 == e.seq.0;
            assert(json_text(b[at].value) == Some(record.1));
            assert(b[at] == e);
        }
        if b.contains(e) {
            let at = choose|at: int| 0 <= at < b.len() && b[at] == e;
            assert(b[at].seq.0 == e.seq.0);
            assert(holds_number(b, e.seq.0));
            let stored_key = storage_key(key, e.seq.0);
            assert(stored.dom().contains(stored_key));
            let record = (stored_key, stored[stored_key]);
            assert(records.contains(record));
            let j = choose|j: int| 0 <= j < records.len() && records[j] == record;
            lemma_parse_storage_key(key, e.seq.0);
            assert(json_text(b[at].value) == Some(record.1));
            assert(decoded(record) == Ok::<_, RecordError>((key, e)));
            assert(held_in(rebuilt, records[j]));
        }
    }
    assert(ascending(a, top));
    assert(ascending(b, top));
    lemma_ascending_logs_equal(a, b, top);
}

/// What the replica holds after the plans of a run of pushes were carried
/// out on it, one after the other. A push whose value has no JSON text has no
/// plan and leaves the replica as it is.
pub open spec fn mirrored(state: StoreState, stored: Stored, pushes: Seq<Push>) -> Stored
    decreases pushes.len(),
{
    if pushes.len() == 0 {
        stored
    } else {
        let last = pushes.last();
        let before = state.run(pushes.drop_last());
        let earlier = mirrored(state, stored, pushes.drop_last());
        match plan_for(last.key, before.outcome(last.key, last.value, last.action)) {
            Ok(plan) => plan.carried_out(earlier),
            Err(_) => earlier,
        }
    }
}

/// Whether push `k` of the run has a plan.
pub open spec fn planned(state: StoreState, pushes: Seq<Push>, k: int) -> bool {
    plan_for(
        pushes[k].key,
        state.run(pushes.take(k)).outcome(pushes[k].key, pushes[k].value, pushes[k].action),
    ) is Ok
}

/// Through a whole run the replica keeps mirroring the store, as long as
/// every push of the run has a plan and the compactions of the run name
/// numbers that were handed out before the run.
pub proof fn lemma_run_keeps_mirror(state: StoreState, stored: Stored, pushes: Seq<Push>)
    requires
        state.wf(),
        state.chronological(),
        mirrors(stored, state),
        state.sequence_number + pushes.len() <= u64::MAX,
        forall|k: int|
            0 <= k < pushes.len() ==> ((#[trigger] pushes[k]).action matches Action::Compact {
                seq,
            } ==> seq.0 <= state.sequence_number),
        forall|k: int| 0 <= k < pushes.len() ==> #[trigger] planned(state, pushes, k),
    ensures
        state.run(pushes).wf(),
        state.run(pushes).chronological(),
        mirrors(mirrored(state, stored, pushes), state.run(pushes)),
    decreases pushes.len(),
{
    lemma_run_keeps_chronological(state, pushes);
    if pushes.len() > 0 {
        let front = pushes.drop_last();
        let last = pushes.last();
        let end = pushes.len() - 1;
        assert forall|k: int| 0 <= k < front.len() implies ((
        #[trigger] front[k]).action matches Action::Compact { seq } ==> seq.0
            <= state.sequence_number) by {
            assert(front[k] == pushes[k]);
        }
        assert forall|k: int| 0 <= k < front.len() implies #[trigger] planned(state, front, k) by {
            assert(planned(state, pushes, k));
            assert(front.take(k) =~= pushes.take(k));
            assert(front[k] == pushes[k]);
        }
        lemma_run_keeps_mirror(state, stored, front);
        lemma_counter_rises(state, pushes, 0, end);
        assert(pushes.take(0) =~= Seq::<Push>::empty());
        assert(pushes.take(end) =~= front);
        assert(planned(state, pushes, end));
        assert(pushes[end] == last);
        lemma_plan_keeps_mirror(
            mirrored(state, stored, front),
            state.run(front),
            last.key,
            last.value,
            last.action,
        );
    }
}

} // verus!
