//! The store: every subject's retained log and the one global sequence
//! counter, changed only by `apply` and read by `dump`.

use crate::types::{Action, Key, SequenceNumber, SequenceValue};
use serde_json::Value;
use std::collections::VecDeque;
use vstd::prelude::*;

verus! {

/// The retained history of one subject, oldest entry first.
pub type Log = Seq<SequenceValue>;

/// What a store holds, as mathematics: the subjects in the order in which
/// they first received a value, each with its log, and the last sequence
/// number that was handed out.
pub struct StoreState {
    pub subjects: Seq<(Seq<char>, Log)>,
    pub sequence_number: u64,
}

/// The entries of `log` that come after `min`, in their order.
pub open spec fn newer_than(log: Log, min: SequenceNumber) -> Log {
    log.filter(|v: SequenceValue| v.seq.0 > min.0)
}

/// No key stands at two places of `subjects`.
pub open spec fn distinct_keys(subjects: Seq<(Seq<char>, Log)>) -> bool {
    forall|i: int, j: int|
        0 <= i < j < subjects.len() ==> (#[trigger] subjects[i]).0 != (#[trigger] subjects[j]).0
}

/// Whether `key` stands somewhere in `subjects`.
pub open spec fn listed(subjects: Seq<(Seq<char>, Log)>, key: Seq<char>) -> bool {
    exists|i: int| 0 <= i < subjects.len() && (#[trigger] subjects[i]).0 == key
}

/// A place of `subjects` at which `key` stands, if there is one.
pub open spec fn position_of(subjects: Seq<(Seq<char>, Log)>, key: Seq<char>) -> int {
    choose|i: int| 0 <= i < subjects.len() && (#[trigger] subjects[i]).0 == key
}

/// Among distinct keys, a key that stands at place `at` stands nowhere else.
pub proof fn lemma_position(subjects: Seq<(Seq<char>, Log)>, key: Seq<char>, at: int)
    requires
        distinct_keys(subjects),
        0 <= at < subjects.len(),
        subjects[at].0 == key,
    ensures
        listed(subjects, key),
        position_of(subjects, key) == at,
{
    let found = position_of(subjects, key);
    assert(subjects[found].0 == key);
    if found < at {
        assert(subjects[found].0 != subjects[at].0);
    } else if at < found {
        assert(subjects[at].0 != subjects[found].0);
    }
}

/// The snapshot of `subjects` after `min`: each subject with its entries that
/// come after `min`, in the subjects' order, without the subjects of which no
/// entry qualifies.
pub open spec fn dump_of(subjects: Seq<(Seq<char>, Log)>, min: SequenceNumber) -> Seq<
    (Seq<char>, Log),
> {
    subjects.map_values(|s: (Seq<char>, Log)| (s.0, newer_than(s.1, min))).filter(
        |s: (Seq<char>, Log)| s.1.len() > 0,
    )
}

impl StoreState {
    /// The state of a store that has seen nothing.
    pub open spec fn empty() -> StoreState {
        StoreState { subjects: Seq::empty(), sequence_number: 0 }
    }

    /// No subject is listed twice.
    pub open spec fn wf(self) -> bool {
        distinct_keys(self.subjects)
    }

    /// Whether `key` has an entry among the subjects.
    pub open spec fn has(self, key: Seq<char>) -> bool {
        listed(self.subjects, key)
    }

    /// Where `key` stands among the subjects, if it has an entry.
    pub open spec fn position(self, key: Seq<char>) -> int {
        position_of(self.subjects, key)
    }

    /// The log of `key`: empty for a subject that was never written.
    pub open spec fn log(self, key: Seq<char>) -> Log {
        if self.has(key) {
            self.subjects[self.position(key)].1
        } else {
            Seq::empty()
        }
    }

    /// What `dump` returns of this state.
    pub open spec fn dump(self, min: SequenceNumber) -> Seq<(Seq<char>, Log)> {
        dump_of(self.subjects, min)
    }

    /// The sequence number under which `action` orders its value: the one
    /// that a compaction names, else the next of the global counter.
    pub open spec fn assigned(self, action: Action) -> SequenceNumber {
        match action {
            Action::Compact { seq } => seq,
            _ => SequenceNumber((self.sequence_number + 1) as u64),
        }
    }

    /// The state after `n` numbers were taken of the counter: the counter is
    /// `n` greater, and nothing else has changed.
    pub open spec fn advanced(self, n: nat) -> StoreState {
        StoreState { sequence_number: (self.sequence_number + n) as u64, ..self }
    }

    /// The subjects with the log of `key` set to `log`: in place where the
    /// subject has an entry, else as a new last entry.
    pub open spec fn with_log(self, key: Seq<char>, log: Log) -> Seq<(Seq<char>, Log)> {
        if self.has(key) {
            self.subjects.update(self.position(key), (key, log))
        } else {
            self.subjects.push((key, log))
        }
    }

    /// The state with one more entry in the log of `key`, at its place by
    /// sequence number, and with the counter raised to the entry's number
    /// where that is greater.
    pub open spec fn with_entry(self, key: Seq<char>, entry: SequenceValue) -> StoreState {
        StoreState {
            subjects: self.with_log(key, placed(self.log(key), entry)),
            sequence_number: if entry.seq.0 > self.sequence_number {
                entry.seq.0
            } else {
                self.sequence_number
            },
        }
    }

    /// The log of `key` after the action.
    pub open spec fn log_after(self, key: Seq<char>, value: Value, action: Action) -> Log {
        let entry = SequenceValue { value, seq: self.assigned(action) };
        match action {
            Action::Append => self.log(key).push(entry),
            Action::Replace => seq![entry],
            Action::Compact { seq } => seq![entry] + newer_than(self.log(key), seq),
            Action::Relay => self.log(key),
        }
    }

    /// What `apply` reports of the action: what a replica is to delete and
    /// to push, what the subscribers are told, and how many values the
    /// subject retains afterwards.
    pub open spec fn outcome(self, key: Seq<char>, value: Value, action: Action) -> ApplyResult {
        let entry = SequenceValue { value, seq: self.assigned(action) };
        ApplyResult {
            delete_instruction: match action {
                Action::Replace => Some(DeleteInstruction::Delete),
                Action::Compact { seq } => Some(DeleteInstruction::DeleteUpTo(seq)),
                _ => None,
            },
            push_instruction: match action {
                Action::Append => Some(PushInstruction::Push(entry)),
                Action::Replace => Some(PushInstruction::Push(entry)),
                Action::Compact { seq } => Some(PushInstruction::PushStart(entry)),
                Action::Relay => None,
            },
            broadcast: match action {
                Action::Compact { seq } => None,
                _ => Some(entry),
            },
            subject_size: self.log_after(key, value, action).len() as usize,
        }
    }

    /// The state after the action. A relay leaves the subjects as they are;
    /// a compaction leaves the counter as it is.
    pub open spec fn apply(self, key: Seq<char>, value: Value, action: Action) -> StoreState {
        StoreState {
            subjects: if action is Relay {
                self.subjects
            } else {
                self.with_log(key, self.log_after(key, value, action))
            },
            sequence_number: if action is Compact {
                self.sequence_number
            } else {
                (self.sequence_number + 1) as u64
            },
        }
    }
}

/// An instruction to remove some or all of a subject's retained values.
#[derive(Debug, PartialEq, Eq, Structural, Clone, Copy)]
pub enum DeleteInstruction {
    /// Delete all values of the subject.
    Delete,
    /// Delete the values of the subject up to and including the given
    /// sequence number.
    DeleteUpTo(SequenceNumber),
}

/// An instruction to add one value to a subject's log.
#[derive(Debug, PartialEq, Eq)]
pub enum PushInstruction {
    /// Push the value to the end of the log.
    Push(SequenceValue),
    /// Push the value to the start of the log.
    PushStart(SequenceValue),
}

impl Clone for PushInstruction {
    fn clone(&self) -> (res: Self)
        ensures
            res == *self,
    {
        match self {
            PushInstruction::Push(value) => PushInstruction::Push(value.clone()),
            PushInstruction::PushStart(value) => PushInstruction::PushStart(value.clone()),
        }
    }
}

/// What one `apply` did, as instructions that a replica can follow.
#[derive(Debug, PartialEq, Eq)]
pub struct ApplyResult {
    /// Instruction to remove some or all existing values, if any.
    pub delete_instruction: Option<DeleteInstruction>,
    /// Instruction to push a value to the subject, if any.
    pub push_instruction: Option<PushInstruction>,
    /// The value to broadcast to the subscribers, if any.
    pub broadcast: Option<SequenceValue>,
    /// The number of values that the subject retains after the action.
    pub subject_size: usize,
}

impl Clone for ApplyResult {
    fn clone(&self) -> (res: Self)
        ensures
            res == *self,
    {
        ApplyResult {
            delete_instruction: self.delete_instruction,
            push_instruction: match &self.push_instruction {
                Some(instruction) => Some(instruction.clone()),
                None => None,
            },
            broadcast: match &self.broadcast {
                Some(value) => Some(value.clone()),
                None => None,
            },
            subject_size: self.subject_size,
        }
    }
}

impl ApplyResult {
    /// Whether the result carries an instruction: whether the action changed
    /// what the store retains.
    pub open spec fn changes(self) -> bool {
        self.delete_instruction is Some || self.push_instruction is Some
    }

    /// Whether the action changed what the store retains.
    pub fn mutates(&self) -> (res: bool)
        ensures
            res == self.changes(),
    {
        self.delete_instruction.is_some() || self.push_instruction.is_some()
    }
}

/// The values that `instruction` leaves of `log`.
pub open spec fn after_delete(log: Log, instruction: Option<DeleteInstruction>) -> Log {
    match instruction {
        Some(DeleteInstruction::Delete) => Seq::empty(),
        Some(DeleteInstruction::DeleteUpTo(seq)) => newer_than(log, seq),
        None => log,
    }
}

/// The log that `instruction` makes of `log`.
pub open spec fn after_push(log: Log, instruction: Option<PushInstruction>) -> Log {
    match instruction {
        Some(PushInstruction::Push(value)) => log.push(value),
        Some(PushInstruction::PushStart(value)) => seq![value] + log,
        None => log,
    }
}

/// Where an entry with number `seq` goes in `log`: behind the last entry
/// whose number is not greater.
pub open spec fn place_of(log: Log, seq: SequenceNumber) -> int
    decreases log.len(),
{
    if log.len() == 0 || log.last().seq.0 <= seq.0 {
        log.len() as int
    } else {
        place_of(log.drop_last(), seq)
    }
}

/// `log` with `entry` at its place by sequence number.
pub open spec fn placed(log: Log, entry: SequenceValue) -> Log {
    log.insert(place_of(log, entry.seq), entry)
}

/// The log of one subject.
pub struct ValueLog {
    pub values: VecDeque<SequenceValue>,
}

impl Default for ValueLog {
    fn default() -> (log: ValueLog)
        ensures
            log.values@ == Seq::<SequenceValue>::empty(),
    {
        ValueLog::new()
    }
}

impl ValueLog {
    /// A log that retains nothing.
    pub fn new() -> (log: ValueLog)
        ensures
            log.values@ == Seq::<SequenceValue>::empty(),
    {
        ValueLog { values: VecDeque::new() }
    }

    /// Puts `entry` behind the last entry whose sequence number is not
    /// greater: at the end of a log that is ordered and older than the
    /// entry.
    pub fn insert_in_order(&mut self, entry: SequenceValue)
        ensures
            final(self).values@ == placed(old(self).values@, entry),
    {
        let ghost log = self.values@;
        let mut at: usize = self.values.len();
        assert(log.take(at as int) =~= log);
        while at > 0 && self.values[at - 1].seq.0 > entry.seq.0
            invariant
                at <= log.len(),
                log == self.values@,
                place_of(log, entry.seq) == place_of(log.take(at as int), entry.seq),
            decreases at,
        {
            assert(log.take(at as int).drop_last() =~= log.take(at - 1));
            at -= 1;
        }
        self.values.insert(at, entry);
    }

    /// Copies of the entries that come after `min`, in their order.
    pub fn newer(&self, min: SequenceNumber) -> (entries: Vec<SequenceValue>)
        ensures
            entries@ == newer_than(self.values@, min),
            entries.deep_view() == entries@,
    {
        let mut entries: Vec<SequenceValue> = Vec::new();
        let ghost pred = |v: SequenceValue| v.seq.0 > min.0;
        let mut i: usize = 0;
        assert(self.values@.take(0).filter(pred) =~= entries@) by {
            reveal(Seq::filter);
        }
        while i < self.values.len()
            invariant
                i <= self.values@.len(),
                pred == (|v: SequenceValue| v.seq.0 > min.0),
                entries@ == self.values@.take(i as int).filter(pred),
            decreases self.values@.len() - i,
        {
            let entry = &self.values[i];
            proof {
                let ghost upto = self.values@.take(i + 1);
                assert(upto.drop_last() =~= self.values@.take(i as int));
                assert(upto.last() == *entry);
                reveal(Seq::filter);
            }
            if entry.seq.0 > min.0 {
                entries.push(entry.clone());
            }
            i += 1;
        }
        assert(self.values@.take(i as int) =~= self.values@);
        assert(entries.deep_view() =~= entries@);
        entries
    }

    /// Removes every entry whose sequence number is at most `seq` and keeps
    /// the others in their order.
    pub fn delete_up_to(&mut self, seq: SequenceNumber)
        ensures
            final(self).values@ == newer_than(old(self).values@, seq),
    {
        let mut kept: VecDeque<SequenceValue> = VecDeque::new();
        let ghost pred = |v: SequenceValue| v.seq.0 > seq.0;
        let ghost whole = self.values@;
        let ghost done: Seq<SequenceValue> = Seq::empty();
        proof {
            assert(done + self.values@ =~= whole);
            assert(done.filter(pred) =~= kept@) by {
                reveal(Seq::filter);
            }
        }
        loop
            invariant
                done + self.values@ == whole,
                kept@ == done.filter(pred),
                pred == (|v: SequenceValue| v.seq.0 > seq.0),
            ensures
                kept@ == whole.filter(pred),
            decreases self.values@.len(),
        {
            match self.values.pop_front() {
                Some(entry) => {
                    proof {
                        let ghost one = seq![entry];
                        assert(one.filter(pred) =~= (if pred(entry) {
                            one
                        } else {
                            Seq::empty()
                        })) by {
                            reveal_with_fuel(Seq::filter, 2);
                            assert(one.drop_last() =~= Seq::empty());
                        }
                        Seq::filter_distributes_over_add(done, one, pred);
                        assert(done + one + self.values@ =~= whole);
                        done = done + one;
                    }
                    if entry.seq.0 > seq.0 {
                        kept.push_back(entry);
                    }
                    assert(kept@ =~= done.filter(pred));
                },
                None => {
                    assert(done =~= whole);
                    break ;
                },
            }
        }
        self.values = kept;
    }
}

struct Subject {
    key: Key,
    log: ValueLog,
}

/// All subjects' logs and the global sequence counter.
pub struct Store {
    subjects: Vec<Subject>,
    sequence_number: SequenceNumber,
}

impl View for Store {
    type V = StoreState;

    closed spec fn view(&self) -> StoreState {
        StoreState {
            subjects: subjects_model(self.subjects@),
            sequence_number: self.sequence_number.0,
        }
    }
}

spec fn subjects_model(subjects: Seq<Subject>) -> Seq<(Seq<char>, Log)> {
    Seq::new(subjects.len(), |i: int| (subjects[i].key@, subjects[i].log.values@))
}

impl Default for Store {
    fn default() -> (store: Store)
        ensures
            store@ == StoreState::empty(),
    {
        Store::new()
    }
}

impl Store {
    /// What holds of every store: no subject is listed twice.
    #[verifier::type_invariant]
    pub open spec fn well_formed(&self) -> bool {
        self@.wf()
    }

    /// A store with no subject and the counter at zero.
    pub fn new() -> (store: Store)
        ensures
            store@ == StoreState::empty(),
    {
        let store = Store { subjects: Vec::new(), sequence_number: SequenceNumber(0) };
        assert(store@.subjects =~= Seq::empty());
        store
    }

    /// The last sequence number that was handed out.
    pub fn sequence_number(&self) -> (seq: SequenceNumber)
        ensures
            seq.0 == self@.sequence_number,
    {
        self.sequence_number
    }

    fn find(&self, key: &Key) -> (at: Option<usize>)
        ensures
            self@.wf(),
            at is Some <==> self@.has(key@),
            at matches Some(i) ==> i < self@.subjects.len() && i == self@.position(key@),
    {
        proof {
            use_type_invariant(self);
        }
        let mut i: usize = 0;
        while i < self.subjects.len()
            invariant
                i <= self.subjects.len(),
                self@.wf(),
                forall|j: int| 0 <= j < i ==> (#[trigger] self@.subjects[j]).0 != key@,
            decreases self.subjects.len() - i,
        {
            if self.subjects[i].key == *key {
                assert(self@.subjects[i as int].0 == key@);
                return Some(i);
            }
            i += 1;
        }
        None
    }

    /// The retained values after `min_sequence`: each subject that has any,
    /// with those values in their order. The subjects come in the order in
    /// which they first received a value.
    pub fn dump(&self, min_sequence: SequenceNumber) -> (data: Vec<(Key, Vec<SequenceValue>)>)
        ensures
            self@.wf(),
            data.deep_view() == self@.dump(min_sequence),
    {
        proof {
            use_type_invariant(self);
        }
        let mut data: Vec<(Key, Vec<SequenceValue>)> = Vec::new();
        let ghost each = |s: (Seq<char>, Log)| (s.0, newer_than(s.1, min_sequence));
        let ghost kept = |s: (Seq<char>, Log)| s.1.len() > 0;
        let mut i: usize = 0;
        assert(self@.subjects.take(0).map_values(each).filter(kept) =~= data.deep_view()) by {
            reveal(Seq::filter);
        }
        while i < self.subjects.len()
            invariant
                i <= self.subjects@.len(),
                self@.subjects.len() == self.subjects@.len(),
                each == (|s: (Seq<char>, Log)| (s.0, newer_than(s.1, min_sequence))),
                kept == (|s: (Seq<char>, Log)| s.1.len() > 0),
                data.deep_view() == self@.subjects.take(i as int).map_values(each).filter(kept),
            decreases self.subjects@.len() - i,
        {
            let subject = &self.subjects[i];
            let entries = subject.log.newer(min_sequence);
            let ghost earlier = data.deep_view();
            proof {
                let ghost upto = self@.subjects.take(i + 1).map_values(each);
                assert(upto.drop_last() =~= self@.subjects.take(i as int).map_values(each));
                assert(upto.last() == (subject.key@, entries@));
                reveal(Seq::filter);
            }
            if entries.len() > 0 {
                data.push((subject.key.clone(), entries));
                assert(data.deep_view() =~= earlier.push((subject.key@, entries@)));
            }
            i += 1;
        }
        assert(self@.subjects.take(i as int) =~= self@.subjects);
        data
    }

    /// Applies one action to the log of `key` and reports what it did.
    ///
    /// Append, replace and relay take the next number of the global counter,
    /// which must have one left; a compaction orders its value under the
    /// number that it names.
    pub fn apply(&mut self, key: &Key, value: Value, action: &Action) -> (result: ApplyResult)
        requires
            !(action is Compact) ==> old(self)@.sequence_number < u64::MAX,
        ensures
            final(self)@.wf(),
            final(self)@ == old(self)@.apply(key@, value, *action),
            result == old(self)@.outcome(key@, value, *action),
    {
        proof {
            use_type_invariant(&*self);
        }
        let ghost before = self@;
        let mut result = match action {
            Action::Append => {
                let seq = self.next_seq();
                let value = SequenceValue { value, seq };
                ApplyResult {
                    delete_instruction: None,
                    push_instruction: Some(PushInstruction::Push(value.clone())),
                    broadcast: Some(value),
                    subject_size: 0,
                }
            },
            Action::Replace => {
                let seq = self.next_seq();
                let value = SequenceValue { value, seq };
                ApplyResult {
                    delete_instruction: Some(DeleteInstruction::Delete),
                    push_instruction: Some(PushInstruction::Push(value.clone())),
                    broadcast: Some(value),
                    subject_size: 0,
                }
            },
            Action::Compact { seq } => ApplyResult {
                delete_instruction: Some(DeleteInstruction::DeleteUpTo(*seq)),
                push_instruction: Some(
                    PushInstruction::PushStart(SequenceValue { value, seq: *seq }),
                ),
                broadcast: None,
                subject_size: 0,
            },
            Action::Relay => {
                let seq = self.next_seq();
                ApplyResult {
                    delete_instruction: None,
                    push_instruction: None,
                    broadcast: Some(SequenceValue { value, seq }),
                    subject_size: 0,
                }
            },
        };
        let found = self.find(key);
        if result.mutates() {
            let mut subjects = self.take_subjects();
            let at = match found {
                Some(at) => at,
                None => {
                    subjects.push(Subject { key: key.clone(), log: ValueLog::new() });
                    subjects.len() - 1
                },
            };
            let log = &mut subjects[at].log;
            match &result.delete_instruction {
                Some(DeleteInstruction::Delete) => {
                    log.values.clear();
                },
                Some(DeleteInstruction::DeleteUpTo(seq)) => {
                    log.delete_up_to(*seq);
                },
                None => {},
            }
            match &result.push_instruction {
                Some(PushInstruction::Push(value)) => {
                    log.values.push_back(value.clone());
                },
                Some(PushInstruction::PushStart(value)) => {
                    log.values.push_front(value.clone());
                },
                None => {},
            }
            result.subject_size = log.values.len();
            proof {
                let after = before.with_log(key@, before.log_after(key@, value, *action));
                assert(subjects_model(subjects@) =~= after);
            }
            self.put_subjects(subjects);
        } else {
            result.subject_size = match found {
                Some(at) => self.subjects[at].log.values.len(),
                None => 0,
            };
        }
        result
    }

    /// Takes back one entry that was persisted: it goes into its subject's
    /// log at its place by sequence number, and the counter is raised to its
    /// number where that is greater.
    pub fn restore_entry(&mut self, key: Key, entry: SequenceValue)
        ensures
            final(self)@.wf(),
            final(self)@ == old(self)@.with_entry(key@, entry),
    {
        proof {
            use_type_invariant(&*self);
        }
        let ghost before = self@;
        let found = self.find(&key);
        if entry.seq.0 > self.sequence_number.0 {
            let raised = entry.seq;
            assert((StoreState { subjects: self@.subjects, sequence_number: raised.0 }).wf());
            self.sequence_number = raised;
        }
        let mut subjects = self.take_subjects();
        match found {
            Some(at) => {
                subjects[at].log.insert_in_order(entry);
            },
            None => {
                let mut log = ValueLog::new();
                log.insert_in_order(entry);
                subjects.push(Subject { key, log });
            },
        }
        proof {
            let after = before.with_log(key@, placed(before.log(key@), entry));
            assert(subjects_model(subjects@) =~= after);
        }
        self.put_subjects(subjects);
    }

    /// Takes the subjects out for a change, leaving none behind.
    fn take_subjects(&mut self) -> (subjects: Vec<Subject>)
        ensures
            subjects_model(subjects@) == old(self)@.subjects,
            old(self)@.wf(),
            final(self)@ == (StoreState { subjects: Seq::empty(), ..old(self)@ }),
    {
        proof {
            use_type_invariant(&*self);
        }
        let mut subjects: Vec<Subject> = Vec::new();
        assert(subjects_model(subjects@) =~= Seq::empty());
        assert(distinct_keys(subjects_model(subjects@)));
        core::mem::swap(&mut self.subjects, &mut subjects);
        subjects
    }

    /// Puts the changed subjects back.
    fn put_subjects(&mut self, subjects: Vec<Subject>)
        requires
            distinct_keys(subjects_model(subjects@)),
        ensures
            final(self)@ == (StoreState { subjects: subjects_model(subjects@), ..old(self)@ }),
    {
        self.subjects = subjects;
    }

    /// Takes the next number of the global counter, which must have one
    /// left: the counter plus one. Nothing but the counter changes.
    pub fn next_seq(&mut self) -> (seq: SequenceNumber)
        requires
            old(self)@.sequence_number < u64::MAX,
        ensures
            final(self)@.wf(),
            seq.0 == old(self)@.sequence_number + 1,
            final(self)@ == old(self)@.advanced(1),
    {
        proof {
            use_type_invariant(&*self);
            assert(self@.wf());
        }
        let next = SequenceNumber(self.sequence_number.0 + 1);
        assert((StoreState { subjects: self@.subjects, sequence_number: next.0 }).wf());
        self.sequence_number = next;
        self.sequence_number
    }
}

} // verus!
