//! Runs of pushes against a store, and what holds of the sequence numbers and
//! logs that they leave.

use crate::store::{
    after_delete, after_push, distinct_keys, dump_of, lemma_position, listed, newer_than, place_of,
    placed, position_of, Log, StoreState,
};
use crate::types::{Action, SequenceNumber, SequenceValue};
use serde_json::Value;
use vstd::prelude::*;

verus! {

/// One push as the store sees it: the subject, the value and the action.
pub struct Push {
    pub key: Seq<char>,
    pub value: Value,
    pub action: Action,
}

impl Push {
    /// Whether the push takes a fresh number of the global counter. Only a
    /// compaction does not: it names its own.
    pub open spec fn allocates(self) -> bool {
        !(self.action is Compact)
    }
}

impl StoreState {
    /// The state after the pushes, applied one after the other.
    pub open spec fn run(self, pushes: Seq<Push>) -> StoreState
        decreases pushes.len(),
    {
        if pushes.len() == 0 {
            self
        } else {
            let last = pushes.last();
            self.run(pushes.drop_last()).apply(last.key, last.value, last.action)
        }
    }

    /// The sequence number under which push `i` of the run orders its value.
    pub open spec fn assigned_in(self, pushes: Seq<Push>, i: int) -> SequenceNumber {
        self.run(pushes.take(i)).assigned(pushes[i].action)
    }

    /// Every log is strictly ascending by sequence number, and no entry lies
    /// beyond the global counter.
    pub open spec fn chronological(self) -> bool {
        forall|s: int|
            0 <= s < self.subjects.len() ==> ascending(
                (#[trigger] self.subjects[s]).1,
                self.sequence_number,
            )
    }
}

/// `log` is strictly ascending by sequence number and ends at or before `top`.
pub open spec fn ascending(log: Log, top: u64) -> bool {
    &&& forall|i: int, j: int|
        0 <= i < j < log.len() ==> (#[trigger] log[i]).seq.0 < (#[trigger] log[j]).seq.0
    &&& forall|i: int| 0 <= i < log.len() ==> (#[trigger] log[i]).seq.0 <= top
}

/// The counter never goes back during a run, and rises by at most one with
/// each push.
pub proof fn lemma_counter_rises(state: StoreState, pushes: Seq<Push>, i: int, j: int)
    requires
        0 <= i <= j <= pushes.len(),
        state.sequence_number + pushes.len() <= u64::MAX,
    ensures
        state.run(pushes.take(i)).sequence_number <= state.run(pushes.take(j)).sequence_number,
        state.run(pushes.take(j)).sequence_number <= state.sequence_number + j,
    decreases j,
{
    if j == 0 {
        assert(pushes.take(0) =~= Seq::<Push>::empty());
    } else {
        assert(pushes.take(j).drop_last() =~= pushes.take(j - 1));
        if i < j {
            lemma_counter_rises(state, pushes, i, j - 1);
        } else {
            lemma_counter_rises(state, pushes, j - 1, j - 1);
        }
    }
}

/// Sequence numbers are handed out in strictly increasing order: of two
/// pushes of a run that take a fresh number, whatever their subjects, the
/// later one gets the greater number.
pub proof fn lemma_assigned_strictly_increasing(
    state: StoreState,
    pushes: Seq<Push>,
    i: int,
    j: int,
)
    requires
        0 <= i < j < pushes.len(),
        pushes[i].allocates(),
        pushes[j].allocates(),
        state.sequence_number + pushes.len() <= u64::MAX,
    ensures
        state.assigned_in(pushes, i).0 < state.assigned_in(pushes, j).0,
{
    lemma_counter_rises(state, pushes, i, i);
    lemma_counter_rises(state, pushes, i + 1, j);
    assert(pushes.take(i + 1).drop_last() =~= pushes.take(i));
    assert(pushes.take(i + 1).last() == pushes[i]);
}

/// Where every push of a run takes a fresh number, the numbers are
/// consecutive from the counter on: push `i` gets the counter plus `i + 1`,
/// so that none is given twice and none is left out.
pub proof fn lemma_assigned_consecutive(state: StoreState, pushes: Seq<Push>, i: int)
    requires
        0 <= i < pushes.len(),
        forall|k: int| 0 <= k < pushes.len() ==> (#[trigger] pushes[k]).allocates(),
        state.sequence_number + pushes.len() <= u64::MAX,
    ensures
        state.assigned_in(pushes, i).0 == state.sequence_number + i + 1,
        state.run(pushes.take(i + 1)).sequence_number == state.sequence_number + i + 1,
    decreases i,
{
    assert(pushes.take(i + 1).drop_last() =~= pushes.take(i));
    assert(pushes.take(i + 1).last() == pushes[i]);
    if i == 0 {
        assert(pushes.take(0) =~= Seq::<Push>::empty());
    } else {
        lemma_assigned_consecutive(state, pushes, i - 1);
    }
}

/// Numbers taken of the counter one after the other are consecutive: the
/// one taken after `i` others is the counter plus `i + 1`, so that of two the
/// later is the greater, none is given twice and none is left out; and
/// taking them changes nothing but the counter.
pub proof fn lemma_numbers_taken_in_turn(state: StoreState, n: nat, i: nat, j: nat)
    requires
        state.sequence_number + n <= u64::MAX,
        i < j < n,
    ensures
        state.advanced(i).assigned(Action::Append).0 == state.sequence_number + i + 1,
        state.advanced(i).assigned(Action::Append).0 < state.advanced(j).assigned(
            Action::Append,
        ).0,
        state.advanced(i).advanced(1) == state.advanced(i + 1),
        state.advanced(n).subjects == state.subjects,
        state.advanced(n).sequence_number == state.sequence_number + n,
        state.advanced(0) == state,
{
}

/// Setting the log of one subject sets that log and no other, and lists no
/// subject twice.
pub proof fn lemma_with_log(state: StoreState, key: Seq<char>, log: Log, other: Seq<char>)
    requires
        state.wf(),
    ensures
        distinct_keys(state.with_log(key, log)),
        listed(state.with_log(key, log), key),
        state.with_log(key, log)[position_of(state.with_log(key, log), key)] == (key, log),
        other != key ==> listed(state.with_log(key, log), other) == state.has(other),
        other != key && state.has(other) ==> position_of(state.with_log(key, log), other)
            == state.position(other) && state.with_log(key, log)[state.position(other)]
            == state.subjects[state.position(other)],
        state.with_log(key, log).len() >= state.subjects.len(),
        forall|s: int|
            0 <= s < state.with_log(key, log).len() ==> #[trigger] state.with_log(key, log)[s] == (
                key,
                log,
            ) || (s < state.subjects.len() && state.with_log(key, log)[s] == state.subjects[s]),
{
    let after = state.with_log(key, log);
    let at = if state.has(key) {
        state.position(key)
    } else {
        state.subjects.len() as int
    };
    assert(after[at] == (key, log));
    assert(distinct_keys(after)) by {
        assert forall|i: int, j: int| 0 <= i < j < after.len() implies (#[trigger] after[i]).0 != (
        #[trigger] after[j]).0 by {
            if state.has(key) {
                assert(after[i].0 == state.subjects[i].0);
                assert(after[j].0 == state.subjects[j].0);
            } else if j < state.subjects.len() {
                assert(after[i] == state.subjects[i]);
                assert(after[j] == state.subjects[j]);
            } else {
                assert(after[i] == state.subjects[i]);
            }
        }
    }
    lemma_position(after, key, at);
    if other != key {
        if state.has(other) {
            let there = state.position(other);
            assert(after[there] == state.subjects[there]);
            lemma_position(after, other, there);
        } else if listed(after, other) {
            let there = position_of(after, other);
            assert(state.subjects[there].0 == other);
        }
    }
}

/// An action changes the log of its own subject as `log_after` says and
/// leaves the log of every other subject as it was; no subject comes to be
/// listed twice.
pub proof fn lemma_apply_touches_one_log(
    state: StoreState,
    key: Seq<char>,
    value: Value,
    action: Action,
    other: Seq<char>,
)
    requires
        state.wf(),
    ensures
        state.apply(key, value, action).wf(),
        state.apply(key, value, action).log(key) == state.log_after(key, value, action),
        other != key ==> state.apply(key, value, action).log(other) == state.log(other),
{
    if !(action is Relay) {
        lemma_with_log(state, key, state.log_after(key, value, action), other);
    }
}

/// A replica that follows the instructions of a result, first the delete
/// and then the push, makes of the subject's log what the store made of it.
pub proof fn lemma_instructions_give_log(
    state: StoreState,
    key: Seq<char>,
    value: Value,
    action: Action,
)
    ensures
        after_push(
            after_delete(state.log(key), state.outcome(key, value, action).delete_instruction),
            state.outcome(key, value, action).push_instruction,
        ) == state.log_after(key, value, action),
{
    let entry = SequenceValue { value, seq: state.assigned(action) };
    if action is Replace {
        assert(Seq::<SequenceValue>::empty().push(entry) =~= seq![entry]);
    }
}

/// A relay changes no log, and so no snapshot, of any subject; it still takes
/// a number, so that the next push that takes one gets the number after it.
pub proof fn lemma_relay_keeps_logs(
    state: StoreState,
    key: Seq<char>,
    value: Value,
    min: SequenceNumber,
    other: Seq<char>,
)
    requires
        state.sequence_number + 2 <= u64::MAX,
    ensures
        state.apply(key, value, Action::Relay).dump(min) == state.dump(min),
        state.apply(key, value, Action::Relay).log(other) == state.log(other),
        state.apply(key, value, Action::Relay).sequence_number == state.sequence_number + 1,
        state.apply(key, value, Action::Relay).assigned(Action::Append).0 == state.assigned(
            Action::Append,
        ).0 + 1,
{
}

/// A replace leaves its subject with exactly one entry: the new value under
/// the number that the action took.
pub proof fn lemma_replace_leaves_one_entry(state: StoreState, key: Seq<char>, value: Value)
    requires
        state.wf(),
    ensures
        state.apply(key, value, Action::Replace).log(key) == seq![
            SequenceValue { value, seq: state.assigned(Action::Replace) },
        ],
        state.outcome(key, value, Action::Replace).subject_size == 1,
{
    lemma_apply_touches_one_log(state, key, value, Action::Replace, key);
}

/// A compaction leaves its subject with the snapshot value under the named
/// number, followed by the entries that came after that number.
pub proof fn lemma_compact_rolls_up(
    state: StoreState,
    key: Seq<char>,
    value: Value,
    seq: SequenceNumber,
)
    requires
        state.wf(),
    ensures
        state.apply(key, value, Action::Compact { seq }).log(key) == seq![
            SequenceValue { value, seq },
        ] + newer_than(state.log(key), seq),
        state.apply(key, value, Action::Compact { seq }).sequence_number == state.sequence_number,
        state.outcome(key, value, Action::Compact { seq }).broadcast is None,
{
    lemma_apply_touches_one_log(state, key, value, Action::Compact { seq }, key);
}

/// The entries after `later` among the entries after `earlier` are the
/// entries after `later`, where `earlier` is not the greater number.
pub proof fn lemma_newer_than_twice(log: Log, earlier: SequenceNumber, later: SequenceNumber)
    requires
        earlier.0 <= later.0,
    ensures
        newer_than(newer_than(log, earlier), later) == newer_than(log, later),
        newer_than(newer_than(log, later), earlier) == newer_than(log, later),
    decreases log.len(),
{
    reveal(Seq::filter);
    if log.len() > 0 {
        let front = log.drop_last();
        let last = log.last();
        lemma_newer_than_twice(front, earlier, later);
        if last.seq.0 > earlier.0 {
            let kept = newer_than(front, earlier);
            assert(kept.push(last).drop_last() =~= kept);
        }
        if last.seq.0 > later.0 {
            let kept = newer_than(front, later);
            assert(kept.push(last).drop_last() =~= kept);
        }
    }
}

/// Compacting a subject again at the same number changes nothing but the
/// snapshot value: the earlier snapshot goes and nothing else. Compacting it
/// at a smaller number deletes nothing and puts the new snapshot before the
/// earlier one.
pub proof fn lemma_compact_again(
    state: StoreState,
    key: Seq<char>,
    first: Value,
    second: Value,
    seq: SequenceNumber,
    again: SequenceNumber,
)
    requires
        state.wf(),
        again.0 <= seq.0,
    ensures
        ({
            let once = state.apply(key, first, Action::Compact { seq });
            let twice = once.apply(key, second, Action::Compact { seq: again });
            let rest = newer_than(state.log(key), seq);
            &&& again == seq ==> twice.log(key) == seq![SequenceValue { value: second, seq }] + rest
            &&& again.0 < seq.0 ==> twice.log(key) == seq![
                SequenceValue { value: second, seq: again },
                SequenceValue { value: first, seq },
            ] + rest
        }),
{
    let once = state.apply(key, first, Action::Compact { seq });
    let twice = once.apply(key, second, Action::Compact { seq: again });
    let rest = newer_than(state.log(key), seq);
    let snapshot = seq![SequenceValue { value: first, seq }];
    lemma_compact_rolls_up(state, key, first, seq);
    lemma_compact_rolls_up(once, key, second, again);
    Seq::filter_distributes_over_add(snapshot, rest, |v: SequenceValue| v.seq.0 > again.0);
    assert(newer_than(snapshot, again) =~= if again.0 < seq.0 {
        snapshot
    } else {
        Seq::empty()
    }) by {
        reveal_with_fuel(Seq::filter, 2);
        assert(snapshot.drop_last() =~= Seq::<SequenceValue>::empty());
    }
    lemma_newer_than_twice(state.log(key), again, seq);
    if again == seq {
        assert(twice.log(key) =~= seq![SequenceValue { value: second, seq }] + rest);
    } else {
        assert(twice.log(key) =~= seq![
            SequenceValue { value: second, seq: again },
            SequenceValue { value: first, seq },
        ] + rest);
    }
}

proof fn lemma_dump_of_step(subjects: Seq<(Seq<char>, Log)>, min: SequenceNumber)
    requires
        subjects.len() > 0,
    ensures
        dump_of(subjects, min) == if newer_than(subjects.last().1, min).len() > 0 {
            dump_of(subjects.drop_last(), min).push(
                (subjects.last().0, newer_than(subjects.last().1, min)),
            )
        } else {
            dump_of(subjects.drop_last(), min)
        },
{
    let each = |s: (Seq<char>, Log)| (s.0, newer_than(s.1, min));
    assert(subjects.map_values(each).drop_last() =~= subjects.drop_last().map_values(each));
    assert(subjects.map_values(each).last() == each(subjects.last()));
    reveal(Seq::filter);
}

/// Whether entry `i` of the snapshot of `subjects` was made of subject `j`.
spec fn dumped_from(subjects: Seq<(Seq<char>, Log)>, min: SequenceNumber, i: int, j: int) -> bool {
    &&& 0 <= j < subjects.len()
    &&& dump_of(subjects, min)[i] == (subjects[j].0, newer_than(subjects[j].1, min))
}

proof fn lemma_dump_of_entries(subjects: Seq<(Seq<char>, Log)>, min: SequenceNumber)
    requires
        distinct_keys(subjects),
    ensures
        forall|i: int|
            0 <= i < dump_of(subjects, min).len() ==> (#[trigger] dump_of(subjects, min)[i]).1.len()
                > 0 && exists|j: int| #[trigger] dumped_from(subjects, min, i, j),
        forall|j: int|
            0 <= j < subjects.len() && newer_than((#[trigger] subjects[j]).1, min).len() > 0
                ==> exists|i: int|
                0 <= i < dump_of(subjects, min).len() && #[trigger] dumped_from(
                    subjects,
                    min,
                    i,
                    j,
                ),
        distinct_keys(dump_of(subjects, min)),
    decreases subjects.len(),
{
    let data = dump_of(subjects, min);
    if subjects.len() == 0 {
        assert(data.len() == 0) by {
            reveal(Seq::filter);
        }
    } else {
        let front = subjects.drop_last();
        let last = subjects.last();
        let end = subjects.len() - 1;
        assert(distinct_keys(front)) by {
            assert forall|i: int, j: int| 0 <= i < j < front.len() implies (#[trigger] front[i]).0
                != (#[trigger] front[j]).0 by {
                assert(subjects[i].0 != subjects[j].0);
            }
        }
        lemma_dump_of_entries(front, min);
        lemma_dump_of_step(subjects, min);
        let earlier = dump_of(front, min);
        assert forall|i: int| 0 <= i < data.len() implies (#[trigger] data[i]).1.len() > 0
            && exists|j: int| #[trigger] dumped_from(subjects, min, i, j) by {
            if i < earlier.len() {
                assert(data[i] == earlier[i]);
                let j = choose|j: int| #[trigger] dumped_from(front, min, i, j);
                assert(subjects[j] == front[j]);
                assert(dumped_from(subjects, min, i, j));
            } else {
                assert(dumped_from(subjects, min, i, end));
            }
        }
        assert forall|j: int|
            0 <= j < subjects.len() && newer_than((#[trigger] subjects[j]).1, min).len()
                > 0 implies exists|i: int|
            0 <= i < data.len() && #[trigger] dumped_from(subjects, min, i, j) by {
            if j < front.len() {
                assert(front[j] == subjects[j]);
                let i = choose|i: int|
                    0 <= i < earlier.len() && #[trigger] dumped_from(front, min, i, j);
                assert(data[i] == earlier[i]);
                assert(dumped_from(subjects, min, i, j));
            } else {
                assert(dumped_from(subjects, min, data.len() - 1, j));
            }
        }
        assert forall|i: int, k: int| 0 <= i < k < data.len() implies (#[trigger] data[i]).0 != (
        #[trigger] data[k]).0 by {
            assert(data[i] == earlier[i]);
            if k < earlier.len() {
                assert(data[k] == earlier[k]);
                assert(earlier[i].0 != earlier[k].0);
            } else {
                let j = choose|j: int| #[trigger] dumped_from(front, min, i, j);
                assert(subjects[j] == front[j]);
                assert(subjects[j].0 != subjects[end].0);
            }
        }
    }
}

/// A snapshot lists a subject exactly when one of its entries comes after
/// `min`, lists it once, and gives it exactly those entries in their order.
pub proof fn lemma_dump_holds_newer_entries(state: StoreState, min: SequenceNumber, key: Seq<char>)
    requires
        state.wf(),
    ensures
        newer_than(state.log(key), min).len() > 0 ==> exists|i: int|
            0 <= i < state.dump(min).len() && #[trigger] state.dump(min)[i] == (
                key,
                newer_than(state.log(key), min),
            ),
        forall|i: int|
            0 <= i < state.dump(min).len() && (#[trigger] state.dump(min)[i]).0 == key
                ==> state.dump(min)[i].1 == newer_than(state.log(key), min) && state.dump(
                min,
            )[i].1.len() > 0,
        distinct_keys(state.dump(min)),
{
    let subjects = state.subjects;
    let data = state.dump(min);
    lemma_dump_of_entries(subjects, min);
    if newer_than(state.log(key), min).len() > 0 {
        assert(newer_than(Seq::<SequenceValue>::empty(), min).len() == 0) by {
            reveal(Seq::filter);
        }
        let j = state.position(key);
        assert(newer_than(subjects[j].1, min).len() > 0);
        let i = choose|i: int| 0 <= i < data.len() && #[trigger] dumped_from(subjects, min, i, j);
        assert(data[i] == (key, newer_than(state.log(key), min)));
    }
    assert forall|i: int| 0 <= i < data.len() && (#[trigger] data[i]).0 == key implies data[i].1
        == newer_than(state.log(key), min) && data[i].1.len() > 0 by {
        let j = choose|j: int| #[trigger] dumped_from(subjects, min, i, j);
        assert(dumped_from(subjects, min, i, j));
        lemma_position(subjects, key, j);
    }
}

/// The entries after `min` are exactly the entries of the log whose sequence
/// number is greater than `min`: none of them is left out and no other is
/// let in.
pub proof fn lemma_newer_than_members(log: Log, min: SequenceNumber, entry: SequenceValue)
    ensures
        newer_than(log, min).contains(entry) <==> log.contains(entry) && entry.seq.0 > min.0,
    decreases log.len(),
{
    reveal(Seq::filter);
    let kept = newer_than(log, min);
    if log.len() > 0 {
        let front = log.drop_last();
        let earlier = newer_than(front, min);
        lemma_newer_than_members(front, min, entry);
        if kept.contains(entry) {
            let i = choose|i: int| 0 <= i < kept.len() && kept[i] == entry;
            if i < earlier.len() {
                assert(earlier[i] == entry);
                assert(earlier.contains(entry));
                let at = choose|at: int| 0 <= at < front.len() && front[at] == entry;
                assert(log[at] == entry);
            } else {
                assert(log[log.len() - 1] == entry);
            }
        }
        if log.contains(entry) && entry.seq.0 > min.0 {
            let at = choose|at: int| 0 <= at < log.len() && log[at] == entry;
            if at < front.len() {
                assert(front[at] == entry);
                assert(front.contains(entry));
                let i = choose|i: int| 0 <= i < earlier.len() && earlier[i] == entry;
                assert(kept[i] == entry);
            } else {
                assert(kept[kept.len() - 1] == entry);
            }
        }
    }
}

/// The entries of an ascending log that come after `min` are ascending too,
/// and each of them comes after `min`.
pub proof fn lemma_newer_than_ascending(log: Log, min: SequenceNumber, top: u64)
    requires
        ascending(log, top),
    ensures
        ascending(newer_than(log, min), top),
        forall|i: int|
            0 <= i < newer_than(log, min).len() ==> (#[trigger] newer_than(log, min)[i]).seq.0
                > min.0,
        forall|i: int|
            0 <= i < newer_than(log, min).len() ==> log.contains(
                #[trigger] newer_than(log, min)[i],
            ),
    decreases log.len(),
{
    reveal(Seq::filter);
    if log.len() > 0 {
        let front = log.drop_last();
        lemma_newer_than_ascending(front, min, top);
        let kept = newer_than(log, min);
        let earlier = newer_than(front, min);
        assert forall|i: int| 0 <= i < kept.len() implies log.contains(#[trigger] kept[i]) by {
            if i < earlier.len() {
                let at = choose|at: int| 0 <= at < front.len() && front[at] == earlier[i];
                assert(log[at] == kept[i]);
            } else {
                assert(log[log.len() - 1] == kept[i]);
            }
        }
        assert forall|i: int, j: int| 0 <= i < j < kept.len() implies (#[trigger] kept[i]).seq.0 < (
        #[trigger] kept[j]).seq.0 by {
            if j < earlier.len() {
                assert(earlier[i].seq.0 < earlier[j].seq.0);
            } else {
                let at = choose|at: int| 0 <= at < front.len() && front[at] == earlier[i];
                assert(log[at].seq.0 < log[log.len() - 1].seq.0);
            }
        }
        assert forall|i: int| 0 <= i < kept.len() implies (#[trigger] kept[i]).seq.0 <= top by {
            let at = choose|at: int| 0 <= at < log.len() && log[at] == kept[i];
            assert(log[at].seq.0 <= top);
        }
    }
}

/// An action keeps every log ascending and below the counter, as long as a
/// compaction names a number that was already handed out. (One that names a
/// later number puts an entry beyond the counter, and the next append to that
/// subject then comes to stand behind a greater number.)
pub proof fn lemma_apply_keeps_chronological(
    state: StoreState,
    key: Seq<char>,
    value: Value,
    action: Action,
)
    requires
        state.wf(),
        state.chronological(),
        !(action is Compact) ==> state.sequence_number < u64::MAX,
        action matches Action::Compact { seq } ==> seq.0 <= state.sequence_number,
    ensures
        state.apply(key, value, action).chronological(),
{
    let after = state.apply(key, value, action);
    let top = after.sequence_number;
    let log = state.log(key);
    if state.has(key) {
        assert(ascending(state.subjects[state.position(key)].1, state.sequence_number));
    }
    assert(ascending(log, state.sequence_number));
    let entry = SequenceValue { value, seq: state.assigned(action) };
    let new_log = state.log_after(key, value, action);
    assert(ascending(new_log, top)) by {
        match action {
            Action::Compact { seq } => {
                lemma_newer_than_ascending(log, seq, top);
            },
            _ => {},
        }
    }
    assert forall|s: int| 0 <= s < after.subjects.len() implies ascending(
        (#[trigger] after.subjects[s]).1,
        top,
    ) by {
        if s < state.subjects.len() && after.subjects[s] == state.subjects[s] {
            assert(ascending(state.subjects[s].1, state.sequence_number));
        } else {
            assert(after.subjects[s].1 == new_log);
        }
    }
}

/// Through a whole run every log stays ascending and below the counter, as
/// long as the compactions of the run name numbers that were handed out
/// before the run.
pub proof fn lemma_run_keeps_chronological(state: StoreState, pushes: Seq<Push>)
    requires
        state.wf(),
        state.chronological(),
        state.sequence_number + pushes.len() <= u64::MAX,
        forall|k: int|
            0 <= k < pushes.len() ==> ((#[trigger] pushes[k]).action matches Action::Compact {
                seq,
            } ==> seq.0 <= state.sequence_number),
    ensures
        state.run(pushes).wf(),
        state.run(pushes).chronological(),
    decreases pushes.len(),
{
    if pushes.len() > 0 {
        let front = pushes.drop_last();
        let last = pushes.last();
        assert forall|k: int| 0 <= k < front.len() implies ((
        #[trigger] front[k]).action matches Action::Compact { seq } ==> seq.0
            <= state.sequence_number) by {
            assert(front[k] == pushes[k]);
        }
        lemma_run_keeps_chronological(state, front);
        lemma_counter_rises(state, pushes, 0, pushes.len() - 1);
        assert(pushes.take(0) =~= Seq::<Push>::empty());
        assert(pushes.take(pushes.len() - 1) =~= front);
        assert(last == pushes[pushes.len() - 1]);
        lemma_apply_touches_one_log(state.run(front), last.key, last.value, last.action, last.key);
        lemma_apply_keeps_chronological(state.run(front), last.key, last.value, last.action);
    }
}

/// In a state whose logs are all ascending and below the counter, the log of
/// every subject is, that of a subject never written too.
pub proof fn lemma_log_ascending(state: StoreState, key: Seq<char>)
    requires
        state.chronological(),
    ensures
        ascending(state.log(key), state.sequence_number),
{
    if state.has(key) {
        assert(ascending(state.subjects[state.position(key)].1, state.sequence_number));
    }
}

/// The place of an entry in a log is a place of the log; every entry from
/// there on has a greater number, and the entry before it has none greater.
pub proof fn lemma_place_of(log: Log, seq: SequenceNumber)
    ensures
        0 <= place_of(log, seq) <= log.len(),
        forall|i: int| place_of(log, seq) <= i < log.len() ==> (#[trigger] log[i]).seq.0 > seq.0,
        place_of(log, seq) > 0 ==> log[place_of(log, seq) - 1].seq.0 <= seq.0,
    decreases log.len(),
{
    if !(log.len() == 0 || log.last().seq.0 <= seq.0) {
        lemma_place_of(log.drop_last(), seq);
        assert forall|i: int| place_of(log, seq) <= i < log.len() implies (#[trigger] log[i]).seq.0
            > seq.0 by {
            if i < log.len() - 1 {
                assert(log.drop_last()[i] == log[i]);
            }
        }
    }
}

/// An entry that is put at its place into an ascending log that does not
/// hold its number leaves the log ascending.
pub proof fn lemma_placed_ascending(log: Log, entry: SequenceValue, top: u64)
    requires
        ascending(log, top),
        entry.seq.0 <= top,
        forall|i: int| 0 <= i < log.len() ==> (#[trigger] log[i]).seq != entry.seq,
    ensures
        ascending(placed(log, entry), top),
{
    let at = place_of(log, entry.seq);
    let after = placed(log, entry);
    lemma_place_of(log, entry.seq);
    assert forall|i: int| 0 <= i < at implies (#[trigger] log[i]).seq.0 < entry.seq.0 by {
        if i < at - 1 {
            assert(log[i].seq.0 < log[at - 1].seq.0);
        }
    }
    assert forall|i: int, j: int| 0 <= i < j < after.len() implies (#[trigger] after[i]).seq.0 < (
    #[trigger] after[j]).seq.0 by {
        let a = if i < at { i } else { i - 1 };
        let b = if j < at { j } else { j - 1 };
        if i != at && j != at {
            assert(after[i] == log[a] && after[j] == log[b]);
            assert(log[a].seq.0 < log[b].seq.0);
        } else if i == at {
            assert(after[j] == log[b]);
        } else {
            assert(after[i] == log[a]);
        }
    }
    assert forall|i: int| 0 <= i < after.len() implies (#[trigger] after[i]).seq.0 <= top by {
        if i < at {
            assert(after[i] == log[i]);
        } else if i > at {
            assert(after[i] == log[i - 1]);
        }
    }
}

} // verus!
