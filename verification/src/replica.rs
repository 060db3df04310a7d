//! Mirroring the store into durable storage: what to scan, delete and put
//! for one mutation, and how to rebuild a store from what was put.

use crate::history::{
    ascending, lemma_log_ascending, lemma_place_of, lemma_placed_ascending, lemma_with_log,
};
use crate::json::{from_json, json_text, json_value, to_json};
use crate::storage::{
    comes_before, lemma_order_follows_sequence, lemma_prefix_selects_subject,
    lemma_storage_key_of_parsed, parse_key, storage_key, storage_prefix, KeyAndSeq, KeyError,
};
use crate::store::{
    place_of, placed, ApplyResult, DeleteInstruction, PushInstruction, Store, StoreState,
};
use crate::types::{Key, SequenceNumber, SequenceValue};
use vstd::prelude::*;

verus! {

/// A scan of the storage keys that begin with `prefix` and, where there is
/// an `end`, come before it.
#[derive(Debug, PartialEq, Eq)]
pub struct Scan {
    pub prefix: String,
    pub end: Option<String>,
}

/// A scan, as mathematics.
pub struct ScanView {
    pub prefix: Seq<char>,
    pub end: Option<Seq<char>>,
}

impl View for Scan {
    type V = ScanView;

    open spec fn view(&self) -> ScanView {
        ScanView {
            prefix: self.prefix@,
            end: match self.end {
                Some(end) => Some(end@),
                None => None,
            },
        }
    }
}

/// The scan that finds what `instruction` deletes of subject `key`: all
/// entries of the subject, or those up to and including a sequence number.
pub open spec fn scan_for(key: Seq<char>, instruction: DeleteInstruction) -> ScanView {
    ScanView {
        prefix: storage_prefix(key),
        end: match instruction {
            DeleteInstruction::DeleteUpTo(seq) if seq.0 < u64::MAX => Some(
                storage_key(key, (seq.0 + 1) as u64),
            ),
            _ => None,
        },
    }
}

impl Scan {
    /// The scan that finds what `instruction` deletes of subject `key`.
    pub fn of(key: &Key, instruction: &DeleteInstruction) -> (scan: Scan)
        ensures
            scan@ == scan_for(key@, *instruction),
    {
        let prefix = KeyAndSeq::prefix_str(key);
        let end = match instruction {
            DeleteInstruction::Delete => None,
            DeleteInstruction::DeleteUpTo(seq) => {
                if seq.0 < u64::MAX {
                    Some(KeyAndSeq::new(key.clone(), SequenceNumber(seq.0 + 1)).to_string())
                } else {
                    None
                }
            },
        };
        Scan { prefix, end }
    }
}

/// Whether the scan finds the storage key `text`.
pub open spec fn scan_finds(scan: ScanView, text: Seq<char>) -> bool {
    scan.prefix.is_prefix_of(text) && (scan.end matches Some(end) ==> comes_before(text, end))
}

/// The scan for a delete instruction finds the storage keys of exactly the
/// entries that the instruction deletes: those of the subject, all of them
/// or those up to and including the instruction's sequence number.
pub proof fn lemma_scan_finds_deleted(
    key: Seq<char>,
    instruction: DeleteInstruction,
    other: Seq<char>,
    seq: u64,
)
    ensures
        scan_finds(scan_for(key, instruction), storage_key(other, seq)) <==> other == key && (
        instruction matches DeleteInstruction::DeleteUpTo(bound) ==> seq <= bound.0),
{
    lemma_prefix_selects_subject(key, other, seq);
    match instruction {
        DeleteInstruction::DeleteUpTo(bound) if bound.0 < u64::MAX => {
            lemma_order_follows_sequence(key, seq, (bound.0 + 1) as u64);
        },
        _ => {},
    }
}

/// One value to store under one storage key.
#[derive(Debug, PartialEq, Eq)]
pub struct Put {
    pub key: String,
    pub value: String,
}

/// A put, as mathematics.
pub struct PutView {
    pub key: Seq<char>,
    pub value: Seq<char>,
}

impl View for Put {
    type V = PutView;

    open spec fn view(&self) -> PutView {
        PutView { key: self.key@, value: self.value@ }
    }
}

/// The entry that a push instruction carries.
pub open spec fn pushed(instruction: PushInstruction) -> SequenceValue {
    match instruction {
        PushInstruction::Push(entry) => entry,
        PushInstruction::PushStart(entry) => entry,
    }
}

/// The put that stores `entry` of subject `key`, with `text` for its value.
pub open spec fn put_for(key: Seq<char>, entry: SequenceValue, text: Seq<char>) -> PutView {
    PutView { key: storage_key(key, entry.seq.0), value: text }
}

impl Put {
    /// The put that stores `entry` of subject `key`, with `text` for its
    /// value.
    pub fn of(key: &Key, entry: &SequenceValue, text: String) -> (put: Put)
        ensures
            put@ == put_for(key@, *entry, text@),
    {
        Put { key: KeyAndSeq::new(key.clone(), entry.seq).to_string(), value: text }
    }
}

/// What a replica does for one mutation: first it deletes what the scan
/// finds, then it puts the new value.
#[derive(Debug, PartialEq, Eq)]
pub struct ReplicationPlan {
    pub delete: Option<Scan>,
    pub put: Option<Put>,
}

/// A plan, as mathematics.
pub struct PlanView {
    pub delete: Option<ScanView>,
    pub put: Option<PutView>,
}

impl View for ReplicationPlan {
    type V = PlanView;

    open spec fn view(&self) -> PlanView {
        PlanView {
            delete: match self.delete {
                Some(scan) => Some(scan@),
                None => None,
            },
            put: match self.put {
                Some(put) => Some(put@),
                None => None,
            },
        }
    }
}

/// Why no plan could be made.
#[derive(Debug, Clone, Copy, PartialEq, Eq, Structural)]
pub enum PlanError {
    /// The value to put could not be written as JSON.
    Unwritable,
}

/// The plan for `result` where `text` is what came of writing the pushed
/// value as JSON: the scan for the delete instruction, then the put of the
/// pushed entry with that text. Without a text there is no plan for a
/// result that pushes.
pub open spec fn assembled(key: Seq<char>, result: ApplyResult, text: Option<Seq<char>>) -> Result<
    PlanView,
    PlanError,
> {
    let delete = match result.delete_instruction {
        Some(instruction) => Some(scan_for(key, instruction)),
        None => None,
    };
    match (result.push_instruction, text) {
        (None, _) => Ok(PlanView { delete, put: None }),
        (Some(instruction), Some(text)) => Ok(
            PlanView { delete, put: Some(put_for(key, pushed(instruction), text)) },
        ),
        (Some(_), None) => Err(PlanError::Unwritable),
    }
}

impl ReplicationPlan {
    /// The plan for `result`, a mutation of subject `key`, where `text` is
    /// what came of writing the pushed value as JSON.
    pub fn assemble(key: &Key, result: &ApplyResult, text: Option<String>) -> (res: Result<
        ReplicationPlan,
        PlanError,
    >)
        ensures
            match res {
                Ok(plan) => assembled(key@, *result, text.deep_view()) == Ok::<_, PlanError>(plan@),
                Err(e) => assembled(key@, *result, text.deep_view()) == Err::<PlanView, _>(e),
            },
    {
        let delete = match &result.delete_instruction {
            Some(instruction) => Some(Scan::of(key, instruction)),
            None => None,
        };
        let put = match &result.push_instruction {
            Some(instruction) => {
                let entry = match instruction {
                    PushInstruction::Push(entry) => entry,
                    PushInstruction::PushStart(entry) => entry,
                };
                match text {
                    Some(text) => Some(Put::of(key, entry, text)),
                    None => {
                        return Err(PlanError::Unwritable);
                    },
                }
            },
            None => None,
        };
        Ok(ReplicationPlan { delete, put })
    }
}

/// What comes of writing the value that `result` pushes as JSON: nothing
/// where it pushes nothing or the value has no JSON text.
pub open spec fn written(result: ApplyResult) -> Option<Seq<char>> {
    match result.push_instruction {
        Some(instruction) => json_text(pushed(instruction).value),
        None => None,
    }
}

/// The plan that mirrors `result`, a mutation of subject `key`: the scan for
/// its delete instruction, then the put of the pushed entry under its storage
/// key, with the JSON text of its value. There is none where the pushed value
/// has no JSON text.
pub open spec fn plan_for(key: Seq<char>, result: ApplyResult) -> Result<PlanView, PlanError> {
    assembled(key, result, written(result))
}

/// The plan that mirrors `result`, a mutation of subject `key`, into durable
/// storage. A result that pushes nothing always has a plan; one that pushes
/// has none exactly where its value has no JSON text.
pub fn plan(key: &Key, result: &ApplyResult) -> (res: Result<ReplicationPlan, PlanError>)
    ensures
        match res {
            Ok(plan) => plan_for(key@, *result) == Ok::<_, PlanError>(plan@),
            Err(e) => plan_for(key@, *result) == Err::<PlanView, _>(e),
        },
{
    let text = match &result.push_instruction {
        Some(PushInstruction::Push(entry)) => to_json(&entry.value).ok(),
        Some(PushInstruction::PushStart(entry)) => to_json(&entry.value).ok(),
        None => None,
    };
    assert(text.deep_view() == written(*result));
    ReplicationPlan::assemble(key, result, text)
}

/// Where a task stands among the storage operations of its plan.
#[derive(Debug, Clone, Copy, PartialEq, Eq, Structural)]
pub enum Stage {
    /// List the storage keys that the plan's scan names.
    Scan,
    /// Delete the storage keys that the scan listed.
    Delete,
    /// Store the plan's put.
    Put,
    /// Every operation of the plan was done.
    Finished,
    /// An operation failed too often; the failure is to be reported.
    Abandoned,
}

/// What came of the storage operation that a task asked for.
#[derive(Debug, Clone, Copy, PartialEq, Eq, Structural)]
pub enum Reply {
    Done,
    Failed,
}

/// How often an operation is tried and how long to wait between the tries.
#[derive(Debug, Clone, Copy, PartialEq, Eq, Structural)]
pub struct RetryPolicy {
    /// How many times one operation is tried before the task is abandoned.
    pub max_attempts: u32,
    /// The wait before the second try, in milliseconds.
    pub base_delay_ms: u64,
    /// The longest wait, in milliseconds.
    pub max_delay_ms: u64,
}

/// `base` doubled `times` times.
pub open spec fn doubled(base: nat, times: nat) -> nat
    decreases times,
{
    if times == 0 {
        base
    } else {
        2 * doubled(base, (times - 1) as nat)
    }
}

impl RetryPolicy {
    /// The wait before an operation that has failed `failures` times is
    /// tried again: none before the first try, then the base delay, doubled
    /// with each further failure, and never more than the longest wait.
    pub open spec fn backoff(self, failures: nat) -> nat {
        if failures == 0 {
            0
        } else if doubled(self.base_delay_ms as nat, (failures - 1) as nat)
            < self.max_delay_ms {
            doubled(self.base_delay_ms as nat, (failures - 1) as nat)
        } else {
            self.max_delay_ms as nat
        }
    }

    /// The wait before an operation that has failed `failures` times is
    /// tried again, in milliseconds.
    pub fn delay_ms(&self, failures: u32) -> (delay: u64)
        ensures
            delay == self.backoff(failures as nat),
    {
        if failures == 0 {
            return 0;
        }
        let mut delay: u64 = if self.base_delay_ms < self.max_delay_ms {
            self.base_delay_ms
        } else {
            self.max_delay_ms
        };
        let mut k: u32 = 1;
        while k < failures
            invariant
                1 <= k <= failures,
                delay == self.backoff(k as nat),
            decreases failures - k,
        {
            delay = if delay > self.max_delay_ms / 2 {
                self.max_delay_ms
            } else {
                delay * 2
            };
            k += 1;
        }
        delay
    }
}

/// The progress of one plan through its storage operations.
#[derive(Debug, Clone, Copy, PartialEq, Eq, Structural)]
pub struct ReplicaTask {
    /// The operation to perform next, or how the task ended.
    pub stage: Stage,
    /// How often that operation has failed.
    pub failures: u32,
    /// Whether the plan ends with a put.
    pub puts: bool,
}

impl ReplicaTask {
    /// The task as it starts on a plan.
    pub open spec fn started(plan: PlanView) -> ReplicaTask {
        ReplicaTask {
            stage: if plan.delete is Some {
                Stage::Scan
            } else if plan.put is Some {
                Stage::Put
            } else {
                Stage::Finished
            },
            failures: 0,
            puts: plan.put is Some,
        }
    }

    /// Whether the task has ended.
    pub open spec fn ended(self) -> bool {
        self.stage is Finished || self.stage is Abandoned
    }

    /// The stage that follows when the operation of this stage was done.
    pub open spec fn following(self) -> Stage {
        match self.stage {
            Stage::Scan => Stage::Delete,
            Stage::Delete => if self.puts {
                Stage::Put
            } else {
                Stage::Finished
            },
            Stage::Put => Stage::Finished,
            ended => ended,
        }
    }

    /// The task after `reply` came back for its operation. A done operation
    /// leads to the next stage; a failed one is tried again, until it has
    /// been tried as often as the policy allows.
    pub open spec fn after(self, reply: Reply, policy: RetryPolicy) -> ReplicaTask {
        if self.ended() {
            self
        } else {
            match reply {
                Reply::Done => ReplicaTask { stage: self.following(), failures: 0, ..self },
                Reply::Failed => if self.failures + 1 >= policy.max_attempts {
                    ReplicaTask { stage: Stage::Abandoned, ..self }
                } else {
                    ReplicaTask { failures: (self.failures + 1) as u32, ..self }
                },
            }
        }
    }

    /// The task as it starts on `plan`.
    pub fn start(plan: &ReplicationPlan) -> (task: ReplicaTask)
        ensures
            task == ReplicaTask::started(plan@),
    {
        let puts = plan.put.is_some();
        let stage = if plan.delete.is_some() {
            Stage::Scan
        } else if puts {
            Stage::Put
        } else {
            Stage::Finished
        };
        ReplicaTask { stage, failures: 0, puts }
    }

    /// The task after `reply` came back for its operation.
    pub fn advance(&self, reply: Reply, policy: &RetryPolicy) -> (task: ReplicaTask)
        ensures
            task == self.after(reply, *policy),
    {
        let following = match self.stage {
            Stage::Finished => {
                return *self;
            },
            Stage::Abandoned => {
                return *self;
            },
            Stage::Scan => Stage::Delete,
            Stage::Delete => if self.puts {
                Stage::Put
            } else {
                Stage::Finished
            },
            Stage::Put => Stage::Finished,
        };
        match reply {
            Reply::Done => ReplicaTask { stage: following, failures: 0, puts: self.puts },
            Reply::Failed => {
                if policy.max_attempts == 0 || self.failures >= policy.max_attempts - 1 {
                    ReplicaTask { stage: Stage::Abandoned, ..*self }
                } else {
                    ReplicaTask { failures: self.failures + 1, ..*self }
                }
            },
        }
    }

    /// The task after `n` failures in a row.
    pub open spec fn after_failures(self, n: nat, policy: RetryPolicy) -> ReplicaTask
        decreases n,
    {
        if n == 0 {
            self
        } else {
            self.after_failures((n - 1) as nat, policy).after(Reply::Failed, policy)
        }
    }
}

/// The wait between tries never exceeds the longest wait of the policy, and
/// never gets shorter as the failures go on.
pub proof fn lemma_backoff_bounded(policy: RetryPolicy, fewer: nat, more: nat)
    requires
        fewer <= more,
    ensures
        policy.backoff(more) <= policy.max_delay_ms,
        policy.backoff(fewer) <= policy.backoff(more),
    decreases more - fewer,
{
    if fewer < more {
        lemma_backoff_bounded(policy, fewer + 1, more);
    }
}

/// An operation that keeps failing is tried as often as the policy allows
/// and no more: before that the task stays at its stage and counts the
/// failures, then it is abandoned.
pub proof fn lemma_task_gives_up(task: ReplicaTask, policy: RetryPolicy, n: nat)
    requires
        !task.ended(),
        task.failures == 0,
    ensures
        n < policy.max_attempts ==> task.after_failures(n, policy) == (ReplicaTask {
            failures: n as u32,
            ..task
        }),
        n >= policy.max_attempts && n > 0 ==> task.after_failures(n, policy).stage
            is Abandoned,
    decreases n,
{
    if n > 0 {
        lemma_task_gives_up(task, policy, (n - 1) as nat);
    }
}

/// A task whose operations are all done goes through the stages of its plan
/// in order and finishes: scan and delete where the plan deletes, then the
/// put where the plan puts.
pub proof fn lemma_task_finishes(plan: PlanView, policy: RetryPolicy)
    ensures
        ({
            let task = ReplicaTask::started(plan);
            let first = task.after(Reply::Done, policy);
            let second = first.after(Reply::Done, policy);
            let third = second.after(Reply::Done, policy);
            &&& plan.delete is Some ==> task.stage is Scan && first.stage is Delete
            &&& plan.delete is Some && plan.put is Some ==> second.stage is Put && third.stage
                is Finished
            &&& plan.delete is Some && plan.put is None ==> second.stage is Finished
            &&& plan.delete is None && plan.put is Some ==> task.stage is Put && first.stage
                is Finished
            &&& plan.delete is None && plan.put is None ==> task.stage is Finished
        }),
{
}

/// Why a stored record could not be taken back.
#[derive(Debug, Clone, Copy, PartialEq, Eq, Structural)]
pub enum RecordError {
    /// The record's key is no storage key.
    Key(KeyError),
    /// The record's value is no JSON.
    Value,
}

/// The first record that could not be taken back, and why.
#[derive(Debug, Clone, Copy, PartialEq, Eq, Structural)]
pub struct RestoreError {
    /// The place of the record among the records.
    pub record: usize,
    pub cause: RecordError,
}

/// The subject and entry that a stored record stands for.
pub open spec fn decoded(record: (Seq<char>, Seq<char>)) -> Result<
    (Seq<char>, SequenceValue),
    RecordError,
> {
    match parse_key(record.0) {
        Err(e) => Err(RecordError::Key(e)),
        Ok((key, seq)) => match json_value(record.1) {
            None => Err(RecordError::Value),
            Some(value) => Ok((key, SequenceValue { value, seq: SequenceNumber(seq) })),
        },
    }
}

/// The state that the records restore: each record's entry goes into its
/// subject's log at its place by sequence number, and the counter is the
/// greatest sequence number among them.
pub open spec fn restored(records: Seq<(Seq<char>, Seq<char>)>) -> StoreState
    decreases records.len(),
{
    if records.len() == 0 {
        StoreState::empty()
    } else {
        match decoded(records.last()) {
            Ok((key, entry)) => restored(records.drop_last()).with_entry(key, entry),
            Err(_) => restored(records.drop_last()),
        }
    }
}

/// Takes back one stored record.
pub fn decode_record(key: &str, value: &str) -> (res: Result<(Key, SequenceValue), RecordError>)
    ensures
        match res {
            Ok((key_back, entry)) => decoded((key@, value@)) == Ok::<_, RecordError>(
                (key_back@, entry),
            ),
            Err(e) => decoded((key@, value@)) == Err::<(Seq<char>, SequenceValue), _>(e),
        },
{
    let parsed = match KeyAndSeq::from_str(key) {
        Ok(parsed) => parsed,
        Err(e) => {
            return Err(RecordError::Key(e));
        },
    };
    match from_json(value) {
        Ok(value) => Ok((parsed.key, SequenceValue { value, seq: parsed.seq })),
        Err(_) => Err(RecordError::Value),
    }
}

/// Rebuilds a store from the records of a replica, as a listing gives them:
/// pairs of storage key and stored value. It fails at the first record that
/// is no storage key with a JSON value.
pub fn load_store(records: &Vec<(String, String)>) -> (res: Result<Store, RestoreError>)
    ensures
        match res {
            Ok(store) => {
                &&& forall|i: int|
                    0 <= i < records.len() ==> decoded(#[trigger] records.deep_view()[i]) is Ok
                &&& store@ == restored(records.deep_view())
                &&& store@.wf()
            },
            Err(e) => {
                &&& e.record < records.len()
                &&& forall|i: int|
                    0 <= i < e.record ==> decoded(#[trigger] records.deep_view()[i]) is Ok
                &&& decoded(records.deep_view()[e.record as int]) == Err::<
                    (Seq<char>, SequenceValue),
                    _,
                >(e.cause)
            },
        },
{
    let mut store = Store::new();
    let ghost all = records.deep_view();
    let mut i: usize = 0;
    assert(all.take(0) =~= Seq::<(Seq<char>, Seq<char>)>::empty());
    while i < records.len()
        invariant
            i <= records.len(),
            all == records.deep_view(),
            all.len() == records.len(),
            forall|j: int| 0 <= j < i ==> decoded(#[trigger] all[j]) is Ok,
            store@ == restored(all.take(i as int)),
            store@.wf(),
        decreases records.len() - i,
    {
        let record = &records[i];
        assert(all[i as int] == (record.0@, record.1@));
        proof {
            assert(all.take(i + 1).drop_last() =~= all.take(i as int));
            assert(all.take(i + 1).last() == all[i as int]);
        }
        match decode_record(record.0.as_str(), record.1.as_str()) {
            Ok((key, entry)) => {
                store.restore_entry(key, entry);
            },
            Err(cause) => {
                return Err(RestoreError { record: i, cause });
            },
        }
        i += 1;
    }
    assert(all.take(i as int) =~= all);
    Ok(store)
}

/// Whether `entry` of subject `key` is what one of `records` stands for.
pub open spec fn came_from(
    records: Seq<(Seq<char>, Seq<char>)>,
    key: Seq<char>,
    entry: SequenceValue,
) -> bool {
    exists|j: int|
        0 <= j < records.len() && decoded(#[trigger] records[j]) == Ok::<_, RecordError>(
            (key, entry),
        )
}

/// Whether every entry of `state` is what one of `records` stands for.
pub open spec fn all_from(state: StoreState, records: Seq<(Seq<char>, Seq<char>)>) -> bool {
    forall|s: int, i: int|
        0 <= s < state.subjects.len() && 0 <= i < state.subjects[s].1.len() ==> came_from(
            records,
            state.subjects[s].0,
            #[trigger] state.subjects[s].1[i],
        )
}

/// Records under distinct storage keys, as a listing of a key-value storage
/// gives them, restore a store in which every log is ascending and no entry
/// lies beyond the counter, in whatever order the records come. Every entry
/// of the store is what one of the records stands for.
pub proof fn lemma_restored_in_order(records: Seq<(Seq<char>, Seq<char>)>)
    requires
        forall|i: int, j: int|
            0 <= i < j < records.len() ==> (#[trigger] records[i]).0 != (#[trigger] records[j]).0,
    ensures
        restored(records).wf(),
        restored(records).chronological(),
        all_from(restored(records), records),
    decreases records.len(),
{
    if records.len() > 0 {
        let front = records.drop_last();
        let last = records.last();
        let end = records.len() - 1;
        let before = restored(front);
        assert forall|i: int, j: int| 0 <= i < j < front.len() implies (#[trigger] front[i]).0 != (
        #[trigger] front[j]).0 by {
            assert(records[i].0 != records[j].0);
        }
        lemma_restored_in_order(front);
        assert forall|key: Seq<char>, entry: SequenceValue|
            came_from(front, key, entry) implies came_from(records, key, entry) by {
            let j = choose|j: int|
                0 <= j < front.len() && decoded(#[trigger] front[j]) == Ok::<_, RecordError>(
                    (key, entry),
                );
            assert(records[j] == front[j]);
        }
        match decoded(last) {
            Ok((key, entry)) => {
                let after = restored(records);
                let log = before.log(key);
                let top = after.sequence_number;
                lemma_with_log(before, key, placed(log, entry), key);
                if before.has(key) {
                    assert(ascending(before.subjects[before.position(key)].1, top));
                }
                assert forall|i: int| 0 <= i < log.len() implies (#[trigger] log[i]).seq
                    != entry.seq by {
                    if log[i].seq == entry.seq {
                        let held = before.subjects[before.position(key)];
                        assert(held.1[i] == log[i]);
                        assert(came_from(front, key, log[i]));
                        let j = choose|j: int|
                            0 <= j < front.len() && decoded(#[trigger] front[j]) == Ok::<
                                _,
                                RecordError,
                            >((key, log[i]));
                        lemma_storage_key_of_parsed(front[j].0, key, entry.seq.0);
                        lemma_storage_key_of_parsed(last.0, key, entry.seq.0);
                        assert(records[j].0 != records[end].0);
                    }
                }
                lemma_placed_ascending(log, entry, top);
                lemma_place_of(log, entry.seq);
                assert(came_from(records, key, entry)) by {
                    assert(decoded(records[end]) == Ok::<_, RecordError>((key, entry)));
                }
                assert forall|s: int| 0 <= s < after.subjects.len() implies ascending(
                    (#[trigger] after.subjects[s]).1,
                    top,
                ) by {
                    if after.subjects[s] != (key, placed(log, entry)) {
                        assert(ascending(before.subjects[s].1, before.sequence_number));
                    }
                }
                assert forall|s: int, i: int|
                    0 <= s < after.subjects.len() && 0 <= i < after.subjects[s].1.len()
                    implies came_from(
                    records,
                    after.subjects[s].0,
                    #[trigger] after.subjects[s].1[i],
                ) by {
                    if after.subjects[s] == (key, placed(log, entry)) {
                        let at = place_of(log, entry.seq);
                        let there = if i < at { i } else { i - 1 };
                        if i != at {
                            assert(placed(log, entry)[i] == log[there]);
                            let held = before.subjects[before.position(key)];
                            assert(held.1[there] == log[there]);
                            assert(came_from(front, key, log[there]));
                        }
                    } else {
                        assert(came_from(front, before.subjects[s].0, before.subjects[s].1[i]));
                    }
                }
            },
            Err(_) => {
                assert forall|s: int, i: int|
                    0 <= s < before.subjects.len() && 0 <= i < before.subjects[s].1.len()
                    implies came_from(
                    records,
                    before.subjects[s].0,
                    #[trigger] before.subjects[s].1[i],
                ) by {
                    assert(came_from(front, before.subjects[s].0, before.subjects[s].1[i]));
                }
            },
        }
    }
}

/// Whether the restored log of the subject of `record` holds the entry of
/// `record`, where it stands for one.
pub open spec fn held_in(state: StoreState, record: (Seq<char>, Seq<char>)) -> bool {
    decoded(record) matches Ok((key, entry)) ==> state.log(key).contains(entry)
}

/// Whether `record` stands for an entry with sequence number `seq`.
pub open spec fn numbered(record: (Seq<char>, Seq<char>), seq: u64) -> bool {
    decoded(record) matches Ok((_, entry)) && entry.seq.0 == seq
}

/// Every record that stands for an entry has that entry in the restored log
/// of its subject, and the restored counter is the number of one of the
/// records unless it is zero.
pub proof fn lemma_restored_holds_records(records: Seq<(Seq<char>, Seq<char>)>)
    requires
        forall|i: int, j: int|
            0 <= i < j < records.len() ==> (#[trigger] records[i]).0 != (#[trigger] records[j]).0,
    ensures
        forall|j: int| 0 <= j < records.len() ==> held_in(restored(records), #[trigger] records[j]),
        restored(records).sequence_number == 0 || exists|j: int|
            0 <= j < records.len() && numbered(
                #[trigger] records[j],
                restored(records).sequence_number,
            ),
    decreases records.len(),
{
    if records.len() > 0 {
        let front = records.drop_last();
        let last = records.last();
        let end = records.len() - 1;
        let before = restored(front);
        let after = restored(records);
        assert forall|i: int, j: int| 0 <= i < j < front.len() implies (#[trigger] front[i]).0 != (
        #[trigger] front[j]).0 by {
            assert(records[i].0 != records[j].0);
        }
        lemma_restored_holds_records(front);
        lemma_restored_in_order(front);
        if before.sequence_number != 0 && after.sequence_number == before.sequence_number {
            let j = choose|j: int|
                0 <= j < front.len() && numbered(#[trigger] front[j], before.sequence_number);
            assert(records[j] == front[j]);
        }
        match decoded(last) {
            Ok((key, entry)) => {
                let log = before.log(key);
                lemma_place_of(log, entry.seq);
                let at = place_of(log, entry.seq);
                if after.sequence_number != before.sequence_number {
                    assert(numbered(records[end], after.sequence_number));
                }
                assert forall|j: int| 0 <= j < records.len() implies held_in(
                    after,
                    #[trigger] records[j],
                ) by {
                    if decoded(records[j]) is Ok {
                        let (k, e) = decoded(records[j])->Ok_0;
                        lemma_with_log(before, key, placed(log, entry), k);
                        if j < end {
                            assert(front[j] == records[j]);
                            assert(held_in(before, front[j]));
                            if k == key {
                                let i = choose|i: int| 0 <= i < log.len() && log[i] == e;
                                let there = if i < at { i } else { i + 1 };
                                assert(placed(log, entry)[there] == e);
                            }
                        } else {
                            assert(placed(log, entry)[at] == e);
                        }
                    }
                }
            },
            Err(_) => {
                assert forall|j: int| 0 <= j < records.len() implies held_in(
                    after,
                    #[trigger] records[j],
                ) by {
                    if j < end {
                        assert(front[j] == records[j]);
                        assert(held_in(before, front[j]));
                    }
                }
            },
        }
    }
}

/// Two logs that are strictly ascending and hold the same entries are the
/// same log.
pub proof fn lemma_ascending_logs_equal(a: Seq<SequenceValue>, b: Seq<SequenceValue>, top: u64)
    requires
        ascending(a, top),
        ascending(b, top),
        forall|e: SequenceValue| a.contains(e) <==> b.contains(e),
    ensures
        a == b,
    decreases a.len(),
{
    if a.len() == 0 {
        if b.len() > 0 {
            assert(b.contains(b[0]));
        }
        assert(a =~= b);
    } else {
        let last = a.last();
        assert(a.contains(last));
        let i = choose|i: int| 0 <= i < b.len() && b[i] == last;
        assert(b.contains(b.last()));
        let k = choose|k: int| 0 <= k < a.len() && a[k] == b.last();
        if i < b.len() - 1 {
            assert(b[i].seq.0 < b[b.len() - 1].seq.0);
            if k < a.len() - 1 {
                assert(a[k].seq.0 < a[a.len() - 1].seq.0);
            }
        }
        let front_a = a.drop_last();
        let front_b = b.drop_last();
        assert forall|e: SequenceValue| front_a.contains(e) <==> front_b.contains(e) by {
            if front_a.contains(e) {
                let x = choose|x: int| 0 <= x < front_a.len() && front_a[x] == e;
                assert(a[x] == e);
                assert(a.contains(e));
                let y = choose|y: int| 0 <= y < b.len() && b[y] == e;
                assert(a[x].seq.0 < a[a.len() - 1].seq.0);
                assert(front_b[y] == e);
            }
            if front_b.contains(e) {
                let y = choose|y: int| 0 <= y < front_b.len() && front_b[y] == e;
                assert(b[y] == e);
                assert(b.contains(e));
                let x = choose|x: int| 0 <= x < a.len() && a[x] == e;
                assert(b[y].seq.0 < b[b.len() - 1].seq.0);
                assert(front_a[x] == e);
            }
        }
        assert(ascending(front_a, top)) by {
            assert forall|x: int, y: int| 0 <= x < y < front_a.len() implies (
            #[trigger] front_a[x]).seq.0 < (#[trigger] front_a[y]).seq.0 by {
                assert(a[x].seq.0 < a[y].seq.0);
            }
            assert forall|x: int| 0 <= x < front_a.len() implies (#[trigger] front_a[x]).seq.0
                <= top by {
                assert(a[x].seq.0 <= top);
            }
        }
        assert(ascending(front_b, top)) by {
            assert forall|x: int, y: int| 0 <= x < y < front_b.len() implies (
            #[trigger] front_b[x]).seq.0 < (#[trigger] front_b[y]).seq.0 by {
                assert(b[x].seq.0 < b[y].seq.0);
            }
            assert forall|x: int| 0 <= x < front_b.len() implies (#[trigger] front_b[x]).seq.0
                <= top by {
                assert(b[x].seq.0 <= top);
            }
        }
        lemma_ascending_logs_equal(front_a, front_b, top);
        assert(a =~= front_a.push(last));
        assert(b =~= front_b.push(b.last()));
    }
}

/// The order of the records does not matter to what they restore: two
/// listings of the same records under distinct storage keys restore the same
/// log for every subject and the same counter.
pub proof fn lemma_restore_in_any_order(
    one: Seq<(Seq<char>, Seq<char>)>,
    other: Seq<(Seq<char>, Seq<char>)>,
    key: Seq<char>,
)
    requires
        forall|i: int, j: int|
            0 <= i < j < one.len() ==> (#[trigger] one[i]).0 != (#[trigger] one[j]).0,
        forall|i: int, j: int|
            0 <= i < j < other.len() ==> (#[trigger] other[i]).0 != (#[trigger] other[j]).0,
        forall|record: (Seq<char>, Seq<char>)| one.contains(record) <==> other.contains(record),
    ensures
        restored(one).log(key) == restored(other).log(key),
        restored(one).sequence_number == restored(other).sequence_number,
{
    let a = restored(one);
    let b = restored(other);
    lemma_restored_in_order(one);
    lemma_restored_in_order(other);
    lemma_restored_holds_records(one);
    lemma_restored_holds_records(other);
    let top = if a.sequence_number > b.sequence_number {
        a.sequence_number
    } else {
        b.sequence_number
    };
    lemma_log_from_records(one, other, key);
    lemma_log_from_records(other, one, key);
    lemma_log_ascending(a, key);
    lemma_log_ascending(b, key);
    lemma_ascending_logs_equal(a.log(key), b.log(key), top);
    lemma_counter_from_records(one, other);
    lemma_counter_from_records(other, one);
}

proof fn lemma_log_from_records(
    one: Seq<(Seq<char>, Seq<char>)>,
    other: Seq<(Seq<char>, Seq<char>)>,
    key: Seq<char>,
)
    requires
        all_from(restored(one), one),
        forall|j: int| 0 <= j < other.len() ==> held_in(restored(other), #[trigger] other[j]),
        forall|record: (Seq<char>, Seq<char>)| one.contains(record) <==> other.contains(record),
    ensures
        forall|e: SequenceValue|
            restored(one).log(key).contains(e) ==> restored(other).log(key).contains(e),
{
    let a = restored(one);
    assert forall|e: SequenceValue| a.log(key).contains(e) implies restored(other).log(
        key,
    ).contains(e) by {
        let i = choose|i: int| 0 <= i < a.log(key).len() && a.log(key)[i] == e;
        let held = a.subjects[a.position(key)];
        assert(held.1[i] == e);
        assert(came_from(one, key, e));
        let j = choose|j: int|
            0 <= j < one.len() && decoded(#[trigger] one[j]) == Ok::<_, RecordError>((key, e));
        assert(one.contains(one[j]));
        let k = choose|k: int| 0 <= k < other.len() && other[k] == one[j];
        assert(held_in(restored(other), other[k]));
    }
}

proof fn lemma_counter_from_records(
    one: Seq<(Seq<char>, Seq<char>)>,
    other: Seq<(Seq<char>, Seq<char>)>,
)
    requires
        restored(one).sequence_number == 0 || exists|j: int|
            0 <= j < one.len() && numbered(#[trigger] one[j], restored(one).sequence_number),
        forall|j: int| 0 <= j < other.len() ==> held_in(restored(other), #[trigger] other[j]),
        restored(other).chronological(),
        forall|record: (Seq<char>, Seq<char>)| one.contains(record) <==> other.contains(record),
    ensures
        restored(one).sequence_number <= restored(other).sequence_number,
{
    let a = restored(one);
    let b = restored(other);
    if a.sequence_number != 0 {
        let j = choose|j: int| 0 <= j < one.len() && numbered(#[trigger] one[j], a.sequence_number);
        let (key, entry) = decoded(one[j])->Ok_0;
        assert(one.contains(one[j]));
        let k = choose|k: int| 0 <= k < other.len() && other[k] == one[j];
        assert(held_in(b, other[k]));
        assert(b.log(key).contains(entry));
        lemma_log_ascending(b, key);
        let i = choose|i: int| 0 <= i < b.log(key).len() && b.log(key)[i] == entry;
        assert(b.log(key)[i].seq.0 <= b.sequence_number);
    }
}

} // verus!
