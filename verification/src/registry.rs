//! The registry of live connections: who is subscribed, in which mode, and
//! who is to receive what.

use vstd::prelude::*;

verus! {

/// The handle of one subscriber. The transport keeps the delivery endpoint
/// under the handle's `id`; the registry keeps the mode.
#[derive(Debug, Clone, Copy, PartialEq, Eq, Structural, Hash)]
pub struct Connection {
    /// The identifier under which the connection is registered.
    pub id: u64,
    /// Whether the connection also receives the diagnostic stream sizes.
    pub debug: bool,
}

/// The two choices that the fan-out leaves open.
#[derive(Debug, Clone, Copy, PartialEq, Eq, Structural)]
pub struct Policy {
    /// Whether the sender of a push receives the broadcast of its own push.
    pub echo_to_sender: bool,
    /// Whether a stream size goes to every connection in debug mode, or only
    /// to the sender of the push if that is in debug mode.
    pub stream_size_to_all: bool,
}

impl Policy {
    /// Every connection receives every broadcast, and every connection in
    /// debug mode every stream size.
    pub fn broadcast_all() -> (policy: Policy)
        ensures
            policy == (Policy { echo_to_sender: true, stream_size_to_all: true }),
    {
        Policy { echo_to_sender: true, stream_size_to_all: true }
    }

    /// Whether connection `c` receives the broadcast of a push that `from`
    /// sent.
    pub open spec fn receives_push(self, from: u64, c: Connection) -> bool {
        self.echo_to_sender || c.id != from
    }

    /// Whether connection `c` receives the stream size after a push that
    /// `from` sent.
    pub open spec fn receives_size(self, from: u64, c: Connection) -> bool {
        c.debug && (self.stream_size_to_all || c.id == from)
    }
}

/// The identifiers of `connections`, in their order.
pub open spec fn ids_of(connections: Seq<Connection>) -> Seq<u64> {
    connections.map_values(|c: Connection| c.id)
}

/// No identifier stands at two places of `connections`.
pub open spec fn distinct_ids(connections: Seq<Connection>) -> bool {
    forall|i: int, j: int|
        0 <= i < j < connections.len() ==> (#[trigger] connections[i]).id != (
        #[trigger] connections[j]).id
}

/// Every identifier in `connections` is less than `bound`.
pub open spec fn ids_below(connections: Seq<Connection>, bound: u64) -> bool {
    forall|i: int| 0 <= i < connections.len() ==> (#[trigger] connections[i]).id < bound
}

/// What a registry holds, as mathematics: the live connections in the order
/// in which they registered, and the identifier that the next one gets.
pub struct RegistryState {
    pub connections: Seq<Connection>,
    pub next_id: u64,
}

impl RegistryState {
    /// The state of a registry with no connection.
    pub open spec fn empty() -> RegistryState {
        RegistryState { connections: Seq::empty(), next_id: 0 }
    }

    /// No identifier is registered twice, and none was left for a later
    /// connection to get again.
    pub open spec fn wf(self) -> bool {
        &&& distinct_ids(self.connections)
        &&& ids_below(self.connections, self.next_id)
    }

    /// Whether a connection is registered under `id`.
    pub open spec fn registered(self, id: u64) -> bool {
        exists|i: int| 0 <= i < self.connections.len() && (#[trigger] self.connections[i]).id == id
    }

    /// Whether a connection in debug mode is registered under `id`.
    pub open spec fn in_debug_mode(self, id: u64) -> bool {
        exists|i: int|
            0 <= i < self.connections.len() && (#[trigger] self.connections[i]).id == id
                && self.connections[i].debug
    }

    /// Where the connection with `id` stands, if it is registered.
    pub open spec fn position(self, id: u64) -> int {
        choose|i: int| 0 <= i < self.connections.len() && (#[trigger] self.connections[i]).id == id
    }

    /// The handle that the next registration returns.
    pub open spec fn next_connection(self, debug: bool) -> Connection {
        Connection { id: self.next_id, debug }
    }

    /// The state after one more connection registered.
    pub open spec fn register(self, debug: bool) -> RegistryState {
        RegistryState {
            connections: self.connections.push(self.next_connection(debug)),
            next_id: (self.next_id + 1) as u64,
        }
    }

    /// The state without the connection with `id`; the same state where
    /// none is registered under it.
    pub open spec fn deregister(self, id: u64) -> RegistryState {
        RegistryState {
            connections: if self.registered(id) {
                self.connections.remove(self.position(id))
            } else {
                self.connections
            },
            next_id: self.next_id,
        }
    }

    /// The state without the connections with the identifiers `ids`.
    pub open spec fn without(self, ids: Seq<u64>) -> RegistryState
        decreases ids.len(),
    {
        if ids.len() == 0 {
            self
        } else {
            self.without(ids.drop_last()).deregister(ids.last())
        }
    }

    /// Who receives the broadcast of a push that `from` sent, in the order
    /// of registration.
    pub open spec fn push_recipients(self, policy: Policy, from: u64) -> Seq<u64> {
        ids_of(self.connections.filter(|c: Connection| policy.receives_push(from, c)))
    }

    /// Who receives the stream size after a push that `from` sent, in the
    /// order of registration.
    pub open spec fn size_recipients(self, policy: Policy, from: u64) -> Seq<u64> {
        ids_of(self.connections.filter(|c: Connection| policy.receives_size(from, c)))
    }
}

/// The live connections of one database.
pub struct Registry {
    connections: Vec<Connection>,
    next_id: u64,
}

impl View for Registry {
    type V = RegistryState;

    closed spec fn view(&self) -> RegistryState {
        RegistryState { connections: self.connections@, next_id: self.next_id }
    }
}

impl Registry {
    /// What holds of every registry: no identifier is registered twice, and
    /// none is left for a later connection to get again.
    #[verifier::type_invariant]
    pub open spec fn well_formed(&self) -> bool {
        self@.wf()
    }

    /// A registry with no connection.
    pub fn new() -> (registry: Registry)
        ensures
            registry@ == RegistryState::empty(),
    {
        Registry { connections: Vec::new(), next_id: 0 }
    }

    /// Whether one more connection can be given an identifier.
    pub fn has_room(&self) -> (room: bool)
        ensures
            room == (self@.next_id < u64::MAX),
    {
        self.next_id < u64::MAX
    }

    fn find(&self, id: u64) -> (at: Option<usize>)
        ensures
            self@.wf(),
            at is Some <==> self@.registered(id),
            at matches Some(i) ==> i < self@.connections.len() && i == self@.position(id),
    {
        proof {
            use_type_invariant(self);
        }
        let mut i: usize = 0;
        while i < self.connections.len()
            invariant
                i <= self.connections.len(),
                self@.wf(),
                forall|j: int| 0 <= j < i ==> (#[trigger] self@.connections[j]).id != id,
            decreases self.connections.len() - i,
        {
            if self.connections[i].id == id {
                proof {
                    let found = self@.position(id);
                    assert(self@.connections[i as int].id == id);
                    assert(self@.connections[found].id == id);
                }
                return Some(i);
            }
            i += 1;
        }
        None
    }

    /// Whether a connection is registered under `id`.
    pub fn is_registered(&self, id: u64) -> (registered: bool)
        ensures
            self@.wf(),
            registered == self@.registered(id),
    {
        self.find(id).is_some()
    }

    /// Adds a subscriber and returns its handle.
    pub fn register(&mut self, debug: bool) -> (connection: Connection)
        requires
            old(self)@.next_id < u64::MAX,
        ensures
            final(self)@.wf(),
            final(self)@ == old(self)@.register(debug),
            connection == old(self)@.next_connection(debug),
            !old(self)@.registered(connection.id),
    {
        proof {
            use_type_invariant(&*self);
        }
        let connection = Connection { id: self.next_id, debug };
        let mut connections: Vec<Connection> = Vec::new();
        assert((RegistryState { connections: connections@, next_id: self.next_id }).wf());
        core::mem::swap(&mut self.connections, &mut connections);
        let ghost before = connections@;
        connections.push(connection);
        let next = self.next_id + 1;
        self.next_id = next;
        proof {
            assert forall|i: int| 0 <= i < connections@.len() implies (
            #[trigger] connections@[i]).id < next by {
                if i < before.len() {
                    assert(connections@[i] == before[i]);
                }
            }
            assert forall|i: int, j: int| 0 <= i < j < connections@.len() implies (
            #[trigger] connections@[i]).id != (#[trigger] connections@[j]).id by {
                assert(connections@[i] == before[i]);
                if j < before.len() {
                    assert(connections@[j] == before[j]);
                }
            }
        }
        self.connections = connections;
        connection
    }

    /// Removes the connection with `id`, if one is registered. Later
    /// fan-outs skip it.
    pub fn deregister(&mut self, id: u64)
        ensures
            final(self)@.wf(),
            final(self)@ == old(self)@.deregister(id),
            !final(self)@.registered(id),
    {
        let ghost before = self@;
        match self.find(id) {
            Some(at) => {
                let mut connections: Vec<Connection> = Vec::new();
                core::mem::swap(&mut self.connections, &mut connections);
                connections.remove(at);
                proof {
                    lemma_deregister_idempotent(before, id);
                    assert(connections@ == before.deregister(id).connections);
                }
                self.connections = connections;
            },
            None => {},
        }
    }

    /// Removes the connections with the identifiers `ids`, one after the
    /// other: those to which a delivery failed.
    pub fn deregister_all(&mut self, ids: &Vec<u64>)
        ensures
            final(self)@.wf(),
            final(self)@ == old(self)@.without(ids@),
    {
        proof {
            use_type_invariant(&*self);
        }
        let mut i: usize = 0;
        assert(ids@.take(0) =~= Seq::<u64>::empty());
        while i < ids.len()
            invariant
                i <= ids.len(),
                self@.wf(),
                self@ == old(self)@.without(ids@.take(i as int)),
            decreases ids.len() - i,
        {
            assert(ids@.take(i + 1).drop_last() =~= ids@.take(i as int));
            self.deregister(ids[i]);
            i += 1;
        }
        assert(ids@.take(i as int) =~= ids@);
    }

    /// Who receives the broadcast of a push that `from` sent.
    pub fn push_recipients(&self, policy: Policy, from: u64) -> (ids: Vec<u64>)
        ensures
            ids@ == self@.push_recipients(policy, from),
    {
        let mut ids: Vec<u64> = Vec::new();
        let ghost pred = |c: Connection| policy.receives_push(from, c);
        let mut i: usize = 0;
        assert(ids_of(self.connections@.take(0).filter(pred)) =~= ids@) by {
            reveal(Seq::filter);
        }
        while i < self.connections.len()
            invariant
                i <= self.connections@.len(),
                pred == (|c: Connection| policy.receives_push(from, c)),
                ids@ == ids_of(self.connections@.take(i as int).filter(pred)),
            decreases self.connections@.len() - i,
        {
            let c = self.connections[i];
            proof {
                lemma_filter_step(self.connections@, pred, i as int);
            }
            if policy.echo_to_sender || c.id != from {
                ids.push(c.id);
            }
            i += 1;
        }
        assert(self.connections@.take(i as int) =~= self.connections@);
        ids
    }

    /// Who receives the stream size after a push that `from` sent.
    pub fn size_recipients(&self, policy: Policy, from: u64) -> (ids: Vec<u64>)
        ensures
            ids@ == self@.size_recipients(policy, from),
    {
        let mut ids: Vec<u64> = Vec::new();
        let ghost pred = |c: Connection| policy.receives_size(from, c);
        let mut i: usize = 0;
        assert(ids_of(self.connections@.take(0).filter(pred)) =~= ids@) by {
            reveal(Seq::filter);
        }
        while i < self.connections.len()
            invariant
                i <= self.connections@.len(),
                pred == (|c: Connection| policy.receives_size(from, c)),
                ids@ == ids_of(self.connections@.take(i as int).filter(pred)),
            decreases self.connections@.len() - i,
        {
            let c = self.connections[i];
            proof {
                lemma_filter_step(self.connections@, pred, i as int);
            }
            if c.debug && (policy.stream_size_to_all || c.id == from) {
                ids.push(c.id);
            }
            i += 1;
        }
        assert(self.connections@.take(i as int) =~= self.connections@);
        ids
    }
}

/// Among distinct identifiers, one that stands at place `at` stands nowhere
/// else.
pub proof fn lemma_position(state: RegistryState, id: u64, at: int)
    requires
        state.wf(),
        0 <= at < state.connections.len(),
        state.connections[at].id == id,
    ensures
        state.registered(id),
        state.position(id) == at,
{
    let found = state.position(id);
    assert(state.connections[found].id == id);
    if found < at {
        assert(state.connections[found].id != state.connections[at].id);
    } else if at < found {
        assert(state.connections[at].id != state.connections[found].id);
    }
}

/// Deregistering leaves no connection under the identifier, and doing it
/// again changes nothing.
pub proof fn lemma_deregister_idempotent(state: RegistryState, id: u64)
    requires
        state.wf(),
    ensures
        state.deregister(id).wf(),
        !state.deregister(id).registered(id),
        state.deregister(id).deregister(id) == state.deregister(id),
{
    let after = state.deregister(id);
    if state.registered(id) {
        let at = state.position(id);
        let before = state.connections;
        assert forall|i: int| 0 <= i < after.connections.len() implies (
        #[trigger] after.connections[i]).id != id && after.connections[i].id < state.next_id by {
            if i < at {
                assert(after.connections[i] == before[i]);
                assert(before[i].id != before[at].id);
            } else {
                assert(after.connections[i] == before[i + 1]);
                assert(before[at].id != before[i + 1].id);
            }
        }
        assert forall|i: int, j: int| 0 <= i < j < after.connections.len() implies (
        #[trigger] after.connections[i]).id != (#[trigger] after.connections[j]).id by {
            let a = if i < at { i } else { i + 1 };
            let b = if j < at { j } else { j + 1 };
            assert(after.connections[i] == before[a]);
            assert(after.connections[j] == before[b]);
            assert(before[a].id != before[b].id);
        }
    }
}

/// Deregistering one connection leaves every other as it is: registered or
/// not, in debug mode or not.
pub proof fn lemma_deregister_keeps_others(state: RegistryState, id: u64, other: u64)
    requires
        state.wf(),
        other != id,
    ensures
        state.deregister(id).registered(other) == state.registered(other),
        state.deregister(id).in_debug_mode(other) == state.in_debug_mode(other),
{
    let after = state.deregister(id);
    if state.registered(id) {
        let at = state.position(id);
        let before = state.connections;
        assert forall|i: int| 0 <= i < after.connections.len() implies (
        #[trigger] after.connections[i]) == before[if i < at { i } else { i + 1 }] by {}
        if state.registered(other) {
            let there = state.position(other);
            let moved = if there < at { there } else { there - 1 };
            assert(after.connections[moved] == before[there]);
        }
        if state.in_debug_mode(other) {
            let there = choose|i: int|
                0 <= i < before.len() && (#[trigger] before[i]).id == other && before[i].debug;
            let moved = if there < at { there } else { there - 1 };
            assert(after.connections[moved] == before[there]);
        }
        if after.registered(other) {
            let moved = after.position(other);
            assert(before[if moved < at { moved } else { moved + 1 }].id == other);
        }
        if after.in_debug_mode(other) {
            let moved = choose|i: int|
                0 <= i < after.connections.len() && (#[trigger] after.connections[i]).id == other
                    && after.connections[i].debug;
            let there = if moved < at { moved } else { moved + 1 };
            assert(before[there].id == other && before[there].debug);
        }
    }
}

/// After the connections with the identifiers `ids` were removed, none of
/// them is registered, and every other connection is as it was.
pub proof fn lemma_without(state: RegistryState, ids: Seq<u64>, id: u64)
    requires
        state.wf(),
    ensures
        state.without(ids).wf(),
        state.without(ids).registered(id) <==> state.registered(id) && !ids.contains(id),
        state.without(ids).in_debug_mode(id) <==> state.in_debug_mode(id) && !ids.contains(id),
        state.without(ids).next_id == state.next_id,
    decreases ids.len(),
{
    if ids.len() > 0 {
        let front = ids.drop_last();
        let last = ids.last();
        lemma_without(state, front, id);
        lemma_deregister_idempotent(state.without(front), last);
        if id != last {
            lemma_deregister_keeps_others(state.without(front), last, id);
        }
        if front.contains(id) {
            let i = choose|i: int| 0 <= i < front.len() && front[i] == id;
            assert(ids[i] == id);
        }
        if ids.contains(id) && id != last {
            let i = choose|i: int| 0 <= i < ids.len() && ids[i] == id;
            assert(front[i] == id);
        }
        assert(ids[ids.len() - 1] == last);
        if state.without(ids).in_debug_mode(id) {
            assert(state.without(ids).registered(id));
        }
    }
}

proof fn lemma_filter_distinct(connections: Seq<Connection>, pred: spec_fn(Connection) -> bool)
    requires
        distinct_ids(connections),
    ensures
        distinct_ids(connections.filter(pred)),
        forall|i: int|
            0 <= i < connections.filter(pred).len() ==> pred(#[trigger] connections.filter(pred)[i])
                && connections.contains(connections.filter(pred)[i]),
        forall|i: int|
            0 <= i < connections.len() && pred(#[trigger] connections[i])
                ==> connections.filter(pred).contains(connections[i]),
    decreases connections.len(),
{
    reveal(Seq::filter);
    if connections.len() > 0 {
        let front = connections.drop_last();
        let last = connections.last();
        let end = connections.len() - 1;
        assert(distinct_ids(front)) by {
            assert forall|i: int, j: int| 0 <= i < j < front.len() implies (#[trigger] front[i]).id
                != (#[trigger] front[j]).id by {
                assert(connections[i].id != connections[j].id);
            }
        }
        lemma_filter_distinct(front, pred);
        let earlier = front.filter(pred);
        let chosen = connections.filter(pred);
        assert forall|i: int| 0 <= i < chosen.len() implies pred(#[trigger] chosen[i])
            && connections.contains(chosen[i]) by {
            if i < earlier.len() {
                let at = choose|at: int| 0 <= at < front.len() && front[at] == earlier[i];
                assert(connections[at] == chosen[i]);
            } else {
                assert(connections[end] == chosen[i]);
            }
        }
        assert forall|i: int| 0 <= i < connections.len() && pred(
            #[trigger] connections[i],
        ) implies chosen.contains(connections[i]) by {
            if i < end {
                assert(front[i] == connections[i]);
                let k = choose|k: int| 0 <= k < earlier.len() && earlier[k] == front[i];
                assert(chosen[k] == connections[i]);
            } else {
                assert(chosen[chosen.len() - 1] == connections[i]);
            }
        }
        assert forall|i: int, j: int| 0 <= i < j < chosen.len() implies (#[trigger] chosen[i]).id
            != (#[trigger] chosen[j]).id by {
            if j < earlier.len() {
                assert(earlier[i].id != earlier[j].id);
            } else {
                let at = choose|at: int| 0 <= at < front.len() && front[at] == earlier[i];
                assert(connections[at].id != connections[end].id);
            }
        }
    }
}

/// The broadcast of a push goes to every registered connection, but for the
/// sender where the policy spares it, and to each of them once.
pub proof fn lemma_push_recipients(state: RegistryState, policy: Policy, from: u64, id: u64)
    requires
        state.wf(),
    ensures
        state.push_recipients(policy, from).contains(id) <==> state.registered(id) && (
        policy.echo_to_sender || id != from),
        state.push_recipients(policy, from).no_duplicates(),
{
    let pred = |c: Connection| policy.receives_push(from, c);
    lemma_recipients(state, pred, id);
    if state.registered(id) {
        assert(pred(state.connections[state.position(id)]) == (policy.echo_to_sender || id
            != from));
    }
}

/// The stream size goes to the registered connections in debug mode (to the
/// sender alone where the policy says so), to each of them once, and to no
/// connection that is not in debug mode.
pub proof fn lemma_size_recipients(state: RegistryState, policy: Policy, from: u64, id: u64)
    requires
        state.wf(),
    ensures
        state.size_recipients(policy, from).contains(id) <==> state.in_debug_mode(id) && (
        policy.stream_size_to_all || id == from),
        state.size_recipients(policy, from).no_duplicates(),
{
    let pred = |c: Connection| policy.receives_size(from, c);
    lemma_recipients(state, pred, id);
    if state.registered(id) {
        let at = state.position(id);
        if state.in_debug_mode(id) {
            let there = choose|i: int|
                0 <= i < state.connections.len() && (#[trigger] state.connections[i]).id == id
                    && state.connections[i].debug;
            lemma_position(state, id, there);
        }
        assert(pred(state.connections[at]) == (state.connections[at].debug && (
        policy.stream_size_to_all || id == from)));
    }
}

proof fn lemma_recipients(state: RegistryState, pred: spec_fn(Connection) -> bool, id: u64)
    requires
        state.wf(),
    ensures
        ids_of(state.connections.filter(pred)).contains(id) <==> state.registered(id) && pred(
            state.connections[state.position(id)],
        ),
        ids_of(state.connections.filter(pred)).no_duplicates(),
{
    let chosen = state.connections.filter(pred);
    let ids = ids_of(chosen);
    lemma_filter_distinct(state.connections, pred);
    assert forall|i: int, j: int| 0 <= i < ids.len() && 0 <= j < ids.len() && i != j implies ids[i]
        != ids[j] by {
        if i < j {
            assert(chosen[i].id != chosen[j].id);
        } else {
            assert(chosen[j].id != chosen[i].id);
        }
    }
    if ids.contains(id) {
        let k = choose|k: int| 0 <= k < ids.len() && ids[k] == id;
        assert(pred(chosen[k]) && state.connections.contains(chosen[k]));
        let at = choose|at: int|
            0 <= at < state.connections.len() && state.connections[at] == chosen[k];
        lemma_position(state, id, at);
    }
    if state.registered(id) && pred(state.connections[state.position(id)]) {
        let c = state.connections[state.position(id)];
        assert(chosen.contains(c));
        let k = choose|k: int| 0 <= k < chosen.len() && chosen[k] == c;
        assert(ids[k] == id);
    }
}

proof fn lemma_filter_step(connections: Seq<Connection>, pred: spec_fn(Connection) -> bool, i: int)
    requires
        0 <= i < connections.len(),
    ensures
        ids_of(connections.take(i + 1).filter(pred)) == if pred(connections[i]) {
            ids_of(connections.take(i).filter(pred)).push(connections[i].id)
        } else {
            ids_of(connections.take(i).filter(pred))
        },
{
    let upto = connections.take(i + 1);
    assert(upto.drop_last() =~= connections.take(i));
    assert(upto.last() == connections[i]);
    reveal(Seq::filter);
    let earlier = connections.take(i).filter(pred);
    if pred(connections[i]) {
        assert(ids_of(earlier.push(connections[i])) =~= ids_of(earlier).push(connections[i].id));
    }
}

} // verus!
