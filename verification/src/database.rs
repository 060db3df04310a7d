//! The broadcast orchestrator: one store, the registry of its subscribers,
//! and for every inbound message the decision of what changes and who is
//! told. It performs no delivery itself: `submit` returns the messages with
//! their recipients, and the transport hands them out in that order before
//! it lets the next message in.

use crate::registry::{
    lemma_push_recipients, lemma_size_recipients, lemma_without, Connection, Policy, Registry,
    RegistryState,
};
use crate::store::{ApplyResult, Store, StoreState};
use crate::types::{
    Action, Key, MessageFromDatabase, MessageToDatabase, Notice, Request, SequenceNumber,
    SequenceValue,
};
use vstd::prelude::*;

verus! {

/// One message and the connections that are to receive it, in the order of
/// their registration.
#[derive(Debug, PartialEq, Eq)]
pub struct Fanout {
    pub message: MessageFromDatabase,
    pub recipients: Vec<u64>,
}

/// What a fan-out says and to whom, as mathematics.
pub struct FanoutView {
    pub notice: Notice,
    pub recipients: Seq<u64>,
}

impl View for Fanout {
    type V = FanoutView;

    open spec fn view(&self) -> FanoutView {
        FanoutView { notice: self.message@, recipients: self.recipients@ }
    }
}

/// A mutation to mirror into durable storage: the subject and what was done
/// to it.
#[derive(Debug, PartialEq, Eq)]
pub struct Replication {
    pub key: Key,
    pub result: ApplyResult,
}

/// What one submitted message leads to.
#[derive(Debug, PartialEq, Eq)]
pub struct Outcome {
    /// The messages to deliver, in this order.
    pub fanouts: Vec<Fanout>,
    /// The mutation to hand to the replication hook, if there is one.
    pub replication: Option<Replication>,
}

/// What an outcome holds, as mathematics.
pub struct OutcomeView {
    pub fanouts: Seq<FanoutView>,
    pub replication: Option<(Seq<char>, ApplyResult)>,
}

impl View for Outcome {
    type V = OutcomeView;

    open spec fn view(&self) -> OutcomeView {
        OutcomeView {
            fanouts: self.fanouts@.map_values(|f: Fanout| f@),
            replication: match self.replication {
                Some(r) => Some((r.key@, r.result)),
                None => None,
            },
        }
    }
}

/// The fan-out of `notice` to `recipients`; none where nobody is to receive
/// it.
pub open spec fn addressed(notice: Notice, recipients: Seq<u64>) -> Seq<FanoutView> {
    if recipients.len() > 0 {
        seq![FanoutView { notice, recipients }]
    } else {
        Seq::empty()
    }
}

/// What a database holds, as mathematics.
pub struct DatabaseState {
    pub store: StoreState,
    pub registry: RegistryState,
    /// Whether mutations are handed to a replication hook.
    pub replicated: bool,
    pub policy: Policy,
}

impl DatabaseState {
    /// Store and registry are well formed.
    pub open spec fn wf(self) -> bool {
        self.store.wf() && self.registry.wf()
    }

    /// Whether the message can be processed: one that takes a fresh
    /// sequence number needs the counter to have one left.
    pub open spec fn accepts(self, request: Request) -> bool {
        request matches Request::Push { action, .. } ==> action is Compact
            || self.store.sequence_number < u64::MAX
    }

    /// The state after connection `from` submitted `request`. Only a push
    /// from a registered connection changes anything, and only the store.
    pub open spec fn submit(self, from: u64, request: Request) -> DatabaseState {
        match request {
            Request::Push { key, value, action } if self.registry.registered(from) => {
                DatabaseState { store: self.store.apply(key, value, action), ..self }
            },
            _ => self,
        }
    }

    /// The messages that the submission leads to, in the order of delivery.
    ///
    /// A dump is answered to the requester alone. A push is broadcast, if the
    /// action has anything to broadcast, and then followed by the subject's
    /// size for the connections in debug mode.
    pub open spec fn fanouts(self, from: u64, request: Request) -> Seq<FanoutView> {
        if !self.registry.registered(from) {
            Seq::empty()
        } else {
            match request {
                Request::Dump { seq } => seq![
                    FanoutView {
                        notice: Notice::Init { data: self.store.dump(seq) },
                        recipients: seq![from],
                    },
                ],
                Request::Push { key, value, action } => {
                    let result = self.store.outcome(key, value, action);
                    let broadcast = match result.broadcast {
                        Some(value) => addressed(
                            Notice::Push { key, value },
                            self.registry.push_recipients(self.policy, from),
                        ),
                        None => Seq::empty(),
                    };
                    broadcast + addressed(
                        Notice::StreamSize { key, size: result.subject_size },
                        self.registry.size_recipients(self.policy, from),
                    )
                },
            }
        }
    }

    /// What the submission hands to the replication hook: the result of a
    /// push that changed the store, where a hook is set.
    pub open spec fn replication(self, from: u64, request: Request) -> Option<
        (Seq<char>, ApplyResult),
    > {
        match request {
            Request::Push { key, value, action } if self.registry.registered(from)
                && self.replicated && self.store.outcome(key, value, action).changes() => Some(
                (key, self.store.outcome(key, value, action)),
            ),
            _ => None,
        }
    }

    /// What `submit` returns.
    pub open spec fn outcome(self, from: u64, request: Request) -> OutcomeView {
        OutcomeView {
            fanouts: self.fanouts(from, request),
            replication: self.replication(from, request),
        }
    }
}

/// One submitted message with the connection that submitted it.
pub struct Submission {
    pub from: u64,
    pub request: Request,
}

impl Submission {
    /// Whether the submission is a push that takes a fresh sequence number.
    pub open spec fn allocates(self) -> bool {
        self.request matches Request::Push { action, .. } && !(action is Compact)
    }
}

impl DatabaseState {
    /// The state after the submissions, processed one after the other.
    pub open spec fn run(self, submissions: Seq<Submission>) -> DatabaseState
        decreases submissions.len(),
    {
        if submissions.len() == 0 {
            self
        } else {
            let last = submissions.last();
            self.run(submissions.drop_last()).submit(last.from, last.request)
        }
    }
}

/// Pushes that registered connections submit, in whatever order they come to
/// be processed, take consecutive sequence numbers: submission `i` is
/// broadcast under the counter plus `i + 1`, so that no number is given twice
/// and none is left out.
pub proof fn lemma_submissions_take_consecutive_numbers(
    database: DatabaseState,
    submissions: Seq<Submission>,
    i: int,
)
    requires
        0 <= i < submissions.len(),
        forall|k: int|
            0 <= k < submissions.len() ==> (#[trigger] submissions[k]).allocates()
                && database.registry.registered(submissions[k].from),
        database.store.sequence_number + submissions.len() <= u64::MAX,
    ensures
        database.run(submissions.take(i)).registry == database.registry,
        database.run(submissions.take(i)).store.sequence_number == database.store.sequence_number
            + i,
        submissions[i].request matches Request::Push { key, value, action } && database.run(
            submissions.take(i),
        ).store.outcome(key, value, action).broadcast == Some(
            SequenceValue {
                value,
                seq: SequenceNumber((database.store.sequence_number + i + 1) as u64),
            },
        ),
    decreases i,
{
    assert(submissions[i].allocates());
    if i == 0 {
        assert(submissions.take(0) =~= Seq::<Submission>::empty());
    } else {
        lemma_submissions_take_consecutive_numbers(database, submissions, i - 1);
        assert(submissions.take(i).drop_last() =~= submissions.take(i - 1));
        assert(submissions.take(i).last() == submissions[i - 1]);
        assert(submissions[i - 1].allocates());
    }
}

impl DatabaseState {
    /// Everything that the submissions lead to being delivered, in the order
    /// of delivery: the fan-outs of the first submission, then those of the
    /// second, and so on.
    pub open spec fn deliveries(self, submissions: Seq<Submission>) -> Seq<FanoutView>
        decreases submissions.len(),
    {
        if submissions.len() == 0 {
            Seq::empty()
        } else {
            let last = submissions.last();
            self.deliveries(submissions.drop_last()) + self.run(submissions.drop_last()).fanouts(
                last.from,
                last.request,
            )
        }
    }
}

/// The sequence number of a broadcast.
pub open spec fn broadcast_number(fanout: FanoutView) -> u64 {
    fanout.notice->Push_value.seq.0
}

proof fn lemma_deliveries(database: DatabaseState, submissions: Seq<Submission>)
    requires
        database.store.sequence_number + submissions.len() <= u64::MAX,
    ensures
        database.store.sequence_number <= database.run(submissions).store.sequence_number
            <= database.store.sequence_number + submissions.len(),
        forall|i: int|
            0 <= i < database.deliveries(submissions).len() && (#[trigger] database.deliveries(
                submissions,
            )[i]).notice is Push ==> database.store.sequence_number < broadcast_number(
                database.deliveries(submissions)[i],
            ) <= database.run(submissions).store.sequence_number,
        forall|a: int, b: int|
            0 <= a < b < database.deliveries(submissions).len() && (#[trigger] database.deliveries(
                submissions,
            )[a]).notice is Push && (#[trigger] database.deliveries(submissions)[b]).notice
                is Push ==> broadcast_number(database.deliveries(submissions)[a])
                < broadcast_number(database.deliveries(submissions)[b]),
    decreases submissions.len(),
{
    if submissions.len() > 0 {
        let front = submissions.drop_last();
        let last = submissions.last();
        let earlier = database.deliveries(front);
        let then = database.run(front);
        let told = then.fanouts(last.from, last.request);
        let all = database.deliveries(submissions);
        lemma_deliveries(database, front);
        assert forall|i: int| 0 <= i < told.len() && (#[trigger] told[i]).notice is Push implies i
            == 0 && broadcast_number(told[i]) == then.store.sequence_number + 1
            && database.run(submissions).store.sequence_number == then.store.sequence_number
            + 1 by {}
        assert forall|i: int|
            0 <= i < all.len() && (#[trigger] all[i]).notice is Push
            implies database.store.sequence_number < broadcast_number(all[i]) <= database.run(
            submissions,
        ).store.sequence_number by {
            if i < earlier.len() {
                assert(all[i] == earlier[i]);
            } else {
                assert(all[i] == told[i - earlier.len()]);
            }
        }
        assert forall|a: int, b: int|
            0 <= a < b < all.len() && (#[trigger] all[a]).notice is Push && (
            #[trigger] all[b]).notice is Push implies broadcast_number(all[a]) < broadcast_number(
            all[b],
        ) by {
            if b < earlier.len() {
                assert(all[a] == earlier[a] && all[b] == earlier[b]);
            } else if a < earlier.len() {
                assert(all[a] == earlier[a]);
                assert(all[b] == told[b - earlier.len()]);
            } else {
                assert(all[a] == told[a - earlier.len()]);
                assert(all[b] == told[b - earlier.len()]);
            }
        }
    }
}

/// Broadcasts are delivered in the order in which their pushes were applied:
/// of two broadcasts among the deliveries of a run, whoever submitted them
/// and whatever else was submitted between, the one that is delivered later
/// carries the greater sequence number.
pub proof fn lemma_broadcasts_in_order(
    database: DatabaseState,
    submissions: Seq<Submission>,
    a: int,
    b: int,
)
    requires
        database.store.sequence_number + submissions.len() <= u64::MAX,
        0 <= a < b < database.deliveries(submissions).len(),
        database.deliveries(submissions)[a].notice is Push,
        database.deliveries(submissions)[b].notice is Push,
    ensures
        broadcast_number(database.deliveries(submissions)[a]) < broadcast_number(
            database.deliveries(submissions)[b],
        ),
{
    lemma_deliveries(database, submissions);
}

/// Whoever is told of a submission is registered when it is processed: a
/// connection that was deregistered receives nothing more. And a stream size
/// goes to connections in debug mode only.
pub proof fn lemma_only_registered_are_told(
    database: DatabaseState,
    from: u64,
    request: Request,
    f: int,
    id: u64,
)
    requires
        database.wf(),
        0 <= f < database.fanouts(from, request).len(),
        database.fanouts(from, request)[f].recipients.contains(id),
    ensures
        database.registry.registered(id),
        database.fanouts(from, request)[f].notice is StreamSize
            ==> database.registry.in_debug_mode(id),
        database.fanouts(from, request)[f].notice is Init ==> id == from,
{
    lemma_push_recipients(database.registry, database.policy, from, id);
    lemma_size_recipients(database.registry, database.policy, from, id);
}

/// A connection to which a delivery failed receives nothing more, and the
/// failure touches no other connection: whoever else was registered is told
/// of the next submission as before.
pub proof fn lemma_failed_are_dropped(
    database: DatabaseState,
    failed: Seq<u64>,
    from: u64,
    request: Request,
    f: int,
    id: u64,
)
    requires
        database.wf(),
        ({
            let after = DatabaseState { registry: database.registry.without(failed), ..database };
            0 <= f < after.fanouts(from, request).len()
        }),
    ensures
        ({
            let after = DatabaseState { registry: database.registry.without(failed), ..database };
            &&& failed.contains(id) ==> !after.fanouts(from, request)[f].recipients.contains(id)
            &&& after.registry.registered(id) <==> database.registry.registered(id)
                && !failed.contains(id)
        }),
{
    let after = DatabaseState { registry: database.registry.without(failed), ..database };
    lemma_without(database.registry, failed, id);
    if after.fanouts(from, request)[f].recipients.contains(id) {
        lemma_only_registered_are_told(after, from, request, f, id);
    }
}

/// A dump changes nothing and is answered to the requester alone, with the
/// snapshot of the store as it is when the dump is processed.
pub proof fn lemma_dump_answers_requester(database: DatabaseState, from: u64, seq: SequenceNumber)
    requires
        database.registry.registered(from),
    ensures
        database.submit(from, Request::Dump { seq }) == database,
        database.outcome(from, Request::Dump { seq }).replication is None,
        database.fanouts(from, Request::Dump { seq }) == seq![
            FanoutView {
                notice: Notice::Init { data: database.store.dump(seq) },
                recipients: seq![from],
            },
        ],
{
}

/// One store with its subscribers.
pub struct Database {
    store: Store,
    registry: Registry,
    replicated: bool,
    policy: Policy,
}

impl View for Database {
    type V = DatabaseState;

    closed spec fn view(&self) -> DatabaseState {
        DatabaseState {
            store: self.store@,
            registry: self.registry@,
            replicated: self.replicated,
            policy: self.policy,
        }
    }
}

impl Database {
    /// A database over an empty store, with no subscriber and no replication
    /// hook, in which every connection receives every broadcast.
    pub fn new() -> (database: Database)
        ensures
            database@ == (DatabaseState {
                store: StoreState::empty(),
                registry: RegistryState::empty(),
                replicated: false,
                policy: Policy { echo_to_sender: true, stream_size_to_all: true },
            }),
    {
        Database::new_from_store(Store::new())
    }

    /// A database over `store`, with no subscriber and no replication hook,
    /// in which every connection receives every broadcast.
    pub fn new_from_store(store: Store) -> (database: Database)
        ensures
            database@ == (DatabaseState {
                store: store@,
                registry: RegistryState::empty(),
                replicated: false,
                policy: Policy { echo_to_sender: true, stream_size_to_all: true },
            }),
    {
        Database {
            store,
            registry: Registry::new(),
            replicated: false,
            policy: Policy::broadcast_all(),
        }
    }

    /// Sets whether mutations are handed to a replication hook.
    pub fn set_replicated(&mut self, replicated: bool)
        ensures
            final(self)@ == (DatabaseState { replicated, ..old(self)@ }),
    {
        self.replicated = replicated;
    }

    /// Sets who receives what of a push.
    pub fn set_policy(&mut self, policy: Policy)
        ensures
            final(self)@ == (DatabaseState { policy, ..old(self)@ }),
    {
        self.policy = policy;
    }

    /// The store that the database owns.
    pub fn store(&self) -> (store: &Store)
        ensures
            store@ == self@.store,
    {
        &self.store
    }

    /// The registry of the live connections.
    pub fn registry(&self) -> (registry: &Registry)
        ensures
            registry@ == self@.registry,
    {
        &self.registry
    }

    /// Whether `submit` can process the message.
    pub fn accepts(&self, message: &MessageToDatabase) -> (accepted: bool)
        ensures
            accepted == self@.accepts(message@),
    {
        match message {
            MessageToDatabase::Push { action, .. } => {
                match action {
                    Action::Compact { .. } => true,
                    _ => self.store.sequence_number().0 < u64::MAX,
                }
            },
            MessageToDatabase::Dump { .. } => true,
        }
    }

    /// Adds a subscriber and returns its handle.
    pub fn register(&mut self, debug: bool) -> (connection: Connection)
        requires
            old(self)@.registry.next_id < u64::MAX,
        ensures
            final(self)@.registry.wf(),
            final(self)@ == (DatabaseState {
                registry: old(self)@.registry.register(debug),
                ..old(self)@
            }),
            connection == old(self)@.registry.next_connection(debug),
            !old(self)@.registry.registered(connection.id),
    {
        self.registry.register(debug)
    }

    /// Removes a subscriber; later fan-outs skip it. Removing one that is
    /// not registered changes nothing.
    pub fn deregister(&mut self, connection: &Connection)
        ensures
            final(self)@.registry.wf(),
            final(self)@ == (DatabaseState {
                registry: old(self)@.registry.deregister(connection.id),
                ..old(self)@
            }),
            !final(self)@.registry.registered(connection.id),
    {
        self.registry.deregister(connection.id)
    }

    /// Removes the subscribers to which a delivery failed, by their
    /// identifiers; later fan-outs skip them. The sender of the message
    /// whose delivery failed is not told of it.
    pub fn drop_failed(&mut self, failed: &Vec<u64>)
        ensures
            final(self)@.registry.wf(),
            final(self)@ == (DatabaseState {
                registry: old(self)@.registry.without(failed@),
                ..old(self)@
            }),
    {
        self.registry.deregister_all(failed)
    }

    /// Processes one inbound message of connection `from` and says what is
    /// to be delivered to whom, and what is to be replicated.
    pub fn submit(&mut self, from: &Connection, message: MessageToDatabase) -> (outcome: Outcome)
        requires
            old(self)@.accepts(message@),
        ensures
            final(self)@.wf(),
            final(self)@ == old(self)@.submit(from.id, message@),
            outcome@ == old(self)@.outcome(from.id, message@),
    {
        let ghost before = self@;
        proof {
            use_type_invariant(&self.store);
            use_type_invariant(&self.registry);
        }
        if !self.registry.is_registered(from.id) {
            let outcome = Outcome { fanouts: Vec::new(), replication: None };
            assert(outcome@.fanouts =~= Seq::empty());
            return outcome;
        }
        match message {
            MessageToDatabase::Dump { seq } => {
                let data = self.store.dump(seq);
                let mut recipients: Vec<u64> = Vec::new();
                recipients.push(from.id);
                let mut fanouts: Vec<Fanout> = Vec::new();
                fanouts.push(Fanout { message: MessageFromDatabase::Init { data }, recipients });
                let outcome = Outcome { fanouts, replication: None };
                assert(outcome@.fanouts =~= before.fanouts(from.id, message@));
                outcome
            },
            MessageToDatabase::Push { key, value, action } => {
                let result = self.store.apply(&key, value, &action);
                let mut fanouts: Vec<Fanout> = Vec::new();
                let ghost mut told: Seq<FanoutView> = Seq::empty();
                match &result.broadcast {
                    Some(value) => {
                        let recipients = self.registry.push_recipients(self.policy, from.id);
                        if recipients.len() > 0 {
                            fanouts.push(
                                Fanout {
                                    message: MessageFromDatabase::Push {
                                        key: key.clone(),
                                        value: value.clone(),
                                    },
                                    recipients,
                                },
                            );
                        }
                    },
                    None => {},
                }
                proof {
                    told = fanouts@.map_values(|f: Fanout| f@);
                    assert(told =~= match result.broadcast {
                        Some(value) => addressed(
                            Notice::Push { key: key@, value },
                            before.registry.push_recipients(before.policy, from.id),
                        ),
                        None => Seq::empty(),
                    });
                }
                let recipients = self.registry.size_recipients(self.policy, from.id);
                if recipients.len() > 0 {
                    fanouts.push(
                        Fanout {
                            message: MessageFromDatabase::StreamSize {
                                key: key.clone(),
                                size: result.subject_size,
                            },
                            recipients,
                        },
                    );
                }
                let replication = if self.replicated && result.mutates() {
                    Some(Replication { key, result })
                } else {
                    None
                };
                let outcome = Outcome { fanouts, replication };
                assert(outcome@.fanouts =~= before.fanouts(from.id, message@));
                outcome
            },
        }
    }
}

} // verus!
