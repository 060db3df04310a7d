//! The protocol's value types: subjects, sequence numbers, actions and the
//! two message envelopes.

use serde_json::Value;
use vstd::prelude::*;

verus! {

/// The name of a subject. Two keys are the same subject exactly when their
/// characters are the same; nothing is normalised.
#[derive(Debug, Hash, Default)]
pub struct Key(String);

impl View for Key {
    type V = Seq<char>;

    closed spec fn view(&self) -> Seq<char> {
        self.0@
    }
}

impl DeepView for Key {
    type V = Seq<char>;

    open spec fn deep_view(&self) -> Seq<char> {
        self@
    }
}

impl Clone for Key {
    fn clone(&self) -> (res: Self)
        ensures
            res == *self,
    {
        Key(self.0.clone())
    }
}

impl PartialEq for Key {
    fn eq(&self, other: &Self) -> (res: bool) {
        self.0 == other.0
    }
}

impl Eq for Key {

}

impl vstd::std_specs::cmp::PartialEqSpecImpl for Key {
    open spec fn obeys_eq_spec() -> bool {
        true
    }

    open spec fn eq_spec(&self, other: &Self) -> bool {
        self@ == other@
    }
}

impl From<&str> for Key {
    /// The key with the characters of `s`.
    fn from(s: &str) -> (res: Key)
        ensures
            res@ == s@,
    {
        Key(String::from_str(s))
    }
}

impl vstd::std_specs::convert::FromSpecImpl<&str> for Key {
    open spec fn obeys_from_spec() -> bool {
        false
    }

    open spec fn from_spec(s: &str) -> Key {
        arbitrary()
    }
}

impl Key {
    /// The key with the characters of `s`.
    pub fn from_string(s: String) -> (res: Key)
        ensures
            res@ == s@,
    {
        Key(s)
    }

    /// The characters of the key.
    pub fn as_str(&self) -> (s: &str)
        ensures
            s@ == self@,
    {
        self.0.as_str()
    }
}

/// A position in the single global order of mutations.
#[derive(Debug, Clone, Copy, PartialEq, Eq, Structural, Default, PartialOrd, Ord, Hash)]
pub struct SequenceNumber(pub u64);

/// What a push does to the subject's log.
#[derive(Debug, PartialEq, Eq, Structural, Clone, Copy)]
pub enum Action {
    /// Broadcast to the subscribers without altering the log.
    Relay,
    /// Append to the log.
    Append,
    /// Replace the entire log.
    Replace,
    /// Replace the log up to the given sequence number by one value.
    Compact { seq: SequenceNumber },
}

/// A value together with the sequence number under which it is ordered.
#[derive(Debug, PartialEq, Eq)]
pub struct SequenceValue {
    pub value: Value,
    pub seq: SequenceNumber,
}

impl Clone for SequenceValue {
    fn clone(&self) -> (res: Self)
        ensures
            res == *self,
    {
        SequenceValue { value: self.value.clone(), seq: self.seq }
    }
}

/// A message from a client to the database.
#[derive(Debug, PartialEq, Eq)]
pub enum MessageToDatabase {
    /// Push a value to a subject.
    Push {
        /// The subject to push to.
        key: Key,
        /// The value to push.
        value: Value,
        /// What the push does to the subject's log.
        action: Action,
    },
    /// Ask for the retained values after a sequence number.
    Dump {
        /// The sequence number after which values are wanted.
        seq: SequenceNumber,
    },
}

/// A message from the database to a client.
#[derive(Debug, PartialEq, Eq)]
pub enum MessageFromDatabase {
    /// A value was pushed to a subject.
    Push { key: Key, value: SequenceValue },
    /// The answer to a dump: the retained values, subject by subject.
    Init { data: Vec<(Key, Vec<SequenceValue>)> },
    /// Something went wrong with what the client sent.
    Error { message: String },
    /// How many values a subject retains, for connections in debug mode.
    StreamSize { key: Key, size: usize },
}

/// What a message to the database asks for, as mathematics.
pub enum Request {
    Push { key: Seq<char>, value: Value, action: Action },
    Dump { seq: SequenceNumber },
}

/// What a message from the database says, as mathematics.
pub enum Notice {
    Push { key: Seq<char>, value: SequenceValue },
    Init { data: Seq<(Seq<char>, Seq<SequenceValue>)> },
    Error { message: Seq<char> },
    StreamSize { key: Seq<char>, size: usize },
}

impl View for MessageToDatabase {
    type V = Request;

    open spec fn view(&self) -> Request {
        match *self {
            MessageToDatabase::Push { key, value, action } => Request::Push {
                key: key@,
                value,
                action,
            },
            MessageToDatabase::Dump { seq } => Request::Dump { seq },
        }
    }
}

impl View for MessageFromDatabase {
    type V = Notice;

    open spec fn view(&self) -> Notice {
        match *self {
            MessageFromDatabase::Push { key, value } => Notice::Push { key: key@, value },
            MessageFromDatabase::Init { data } => Notice::Init { data: data.deep_view() },
            MessageFromDatabase::Error { message } => Notice::Error { message: message@ },
            MessageFromDatabase::StreamSize { key, size } => Notice::StreamSize { key: key@, size },
        }
    }
}

impl Clone for MessageToDatabase {
    fn clone(&self) -> (res: Self)
        ensures
            res == *self,
    {
        match self {
            MessageToDatabase::Push { key, value, action } => MessageToDatabase::Push {
                key: key.clone(),
                value: value.clone(),
                action: *action,
            },
            MessageToDatabase::Dump { seq } => MessageToDatabase::Dump { seq: *seq },
        }
    }
}

/// Copies of `entries`, in their order.
pub fn clone_entries(entries: &Vec<SequenceValue>) -> (res: Vec<SequenceValue>)
    ensures
        res@ == entries@,
        res.deep_view() == entries.deep_view(),
{
    let mut res: Vec<SequenceValue> = Vec::new();
    let mut i: usize = 0;
    while i < entries.len()
        invariant
            i <= entries.len(),
            res@ == entries@.take(i as int),
        decreases entries.len() - i,
    {
        res.push(entries[i].clone());
        assert(entries@.take(i + 1) =~= entries@.take(i as int).push(entries@[i as int]));
        i += 1;
    }
    assert(entries@.take(i as int) =~= entries@);
    assert(res.deep_view() =~= entries.deep_view());
    res
}

/// A copy of a snapshot: the same subjects with the same entries.
pub fn clone_data(data: &Vec<(Key, Vec<SequenceValue>)>) -> (res: Vec<(Key, Vec<SequenceValue>)>)
    ensures
        res.deep_view() == data.deep_view(),
{
    let mut res: Vec<(Key, Vec<SequenceValue>)> = Vec::new();
    let mut i: usize = 0;
    while i < data.len()
        invariant
            i <= data.len(),
            res.len() == i,
            forall|j: int| 0 <= j < i ==> (#[trigger] res@[j]).deep_view() == data@[j].deep_view(),
        decreases data.len() - i,
    {
        let subject = &data[i];
        res.push((subject.0.clone(), clone_entries(&subject.1)));
        i += 1;
    }
    assert(res.deep_view() =~= data.deep_view());
    res
}

impl Clone for MessageFromDatabase {
    fn clone(&self) -> (res: Self)
        ensures
            res@ == self@,
    {
        match self {
            MessageFromDatabase::Push { key, value } => MessageFromDatabase::Push {
                key: key.clone(),
                value: value.clone(),
            },
            MessageFromDatabase::Init { data } => MessageFromDatabase::Init {
                data: clone_data(data),
            },
            MessageFromDatabase::Error { message } => MessageFromDatabase::Error {
                message: message.clone(),
            },
            MessageFromDatabase::StreamSize { key, size } => MessageFromDatabase::StreamSize {
                key: key.clone(),
                size: *size,
            },
        }
    }
}

impl DeepView for SequenceValue {
    type V = SequenceValue;

    open spec fn deep_view(&self) -> SequenceValue {
        *self
    }
}

} // verus!
