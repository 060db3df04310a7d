//! One connection's side of the protocol: what to do with what the
//! transport saw. The transport reads frames and decodes their payload;
//! what follows from each is decided here.

use crate::types::{MessageFromDatabase, MessageToDatabase, Notice, Request};
use vstd::prelude::*;

verus! {

/// What the transport saw on a connection.
#[derive(Debug, PartialEq, Eq)]
pub enum Inbound {
    /// A text frame that holds a message.
    Message(MessageToDatabase),
    /// A text frame whose payload is no message, and why.
    Undecodable { reason: String },
    /// A binary frame, which the protocol has no use for.
    Binary,
    /// A ping.
    Ping,
    /// A pong.
    Pong,
    /// The client closed the connection, or the stream ended.
    Closed,
    /// The transport failed, and how.
    Failed { reason: String },
}

/// What is seen on a connection, as mathematics.
pub enum InboundView {
    Message(Request),
    Undecodable { reason: Seq<char> },
    Binary,
    Ping,
    Pong,
    Closed,
    Failed { reason: Seq<char> },
}

impl View for Inbound {
    type V = InboundView;

    open spec fn view(&self) -> InboundView {
        match *self {
            Inbound::Message(message) => InboundView::Message(message@),
            Inbound::Undecodable { reason } => InboundView::Undecodable { reason: reason@ },
            Inbound::Binary => InboundView::Binary,
            Inbound::Ping => InboundView::Ping,
            Inbound::Pong => InboundView::Pong,
            Inbound::Closed => InboundView::Closed,
            Inbound::Failed { reason } => InboundView::Failed { reason: reason@ },
        }
    }
}

/// What the transport is to do next.
#[derive(Debug, PartialEq, Eq)]
pub enum Reaction {
    /// Submit the message to the database.
    Submit(MessageToDatabase),
    /// Send the message to this connection, which stays open.
    Reply(MessageFromDatabase),
    /// Answer the ping.
    Pong,
    /// Nothing.
    Ignore,
    /// Deregister the connection and end its tasks.
    Close,
    /// Try to send the message, then deregister the connection and end its
    /// tasks.
    CloseWith(MessageFromDatabase),
}

/// A reaction, as mathematics.
pub enum ReactionView {
    Submit(Request),
    Reply(Notice),
    Pong,
    Ignore,
    Close,
    CloseWith(Notice),
}

impl View for Reaction {
    type V = ReactionView;

    open spec fn view(&self) -> ReactionView {
        match *self {
            Reaction::Submit(message) => ReactionView::Submit(message@),
            Reaction::Reply(message) => ReactionView::Reply(message@),
            Reaction::Pong => ReactionView::Pong,
            Reaction::Ignore => ReactionView::Ignore,
            Reaction::Close => ReactionView::Close,
            Reaction::CloseWith(message) => ReactionView::CloseWith(message@),
        }
    }
}

/// Where a connection stands in its life.
#[derive(Debug, Clone, Copy, PartialEq, Eq, Structural)]
pub enum Phase {
    /// Registered, and nothing seen of it yet.
    Registered,
    /// Submitting and receiving.
    Active,
    /// Deregistered: nothing more is submitted for it or delivered to it.
    Deregistered,
}

impl Phase {
    /// The phase after the transport did what `reaction` says: a close ends
    /// the connection, anything else keeps it going, and nothing brings a
    /// deregistered connection back.
    pub open spec fn after(self, reaction: ReactionView) -> Phase {
        if self is Deregistered || reaction is Close || reaction is CloseWith {
            Phase::Deregistered
        } else {
            Phase::Active
        }
    }

    /// The phase after the transport did what `reaction` says.
    pub fn advance(self, reaction: &Reaction) -> (phase: Phase)
        ensures
            phase == self.after(reaction@),
    {
        match (self, reaction) {
            (Phase::Deregistered, _) => Phase::Deregistered,
            (_, Reaction::Close) => Phase::Deregistered,
            (_, Reaction::CloseWith(_)) => Phase::Deregistered,
            _ => Phase::Active,
        }
    }

    /// The phase after a message could not be delivered to the connection:
    /// it is deregistered.
    pub fn delivery_failed(self) -> (phase: Phase)
        ensures
            phase is Deregistered,
    {
        Phase::Deregistered
    }

    /// Whether the connection is still served.
    pub fn is_live(self) -> (live: bool)
        ensures
            live == !(self is Deregistered),
    {
        match self {
            Phase::Deregistered => false,
            _ => true,
        }
    }
}

/// Deregistration is final: whatever the transport does afterwards, the
/// connection stays deregistered. And a close deregisters from any phase.
pub proof fn lemma_deregistered_is_final(phase: Phase, reaction: ReactionView)
    ensures
        Phase::Deregistered.after(reaction) is Deregistered,
        reaction is Close || reaction is CloseWith ==> phase.after(reaction) is Deregistered,
        !(phase is Deregistered) && !(reaction is Close || reaction is CloseWith) ==> phase.after(
            reaction,
        ) is Active,
{
}

/// The error that tells a client that what it sent could not be received.
pub open spec fn not_received(reason: Seq<char>) -> Notice {
    Notice::Error { message: "Failed to receive message from user: "@ + reason }
}

/// The error that tells a client that the database did not take its
/// message.
pub open spec fn not_taken(reason: Seq<char>) -> Notice {
    Notice::Error { message: "Failed to send message to database: "@ + reason }
}

/// What follows from what was seen on a connection.
///
/// A frame that cannot be used is answered with an error and the connection
/// stays open; a failure of the transport is answered as well as can be and
/// ends the connection; a close ends it.
pub open spec fn reaction_to(inbound: InboundView) -> ReactionView {
    match inbound {
        InboundView::Message(request) => ReactionView::Submit(request),
        InboundView::Undecodable { reason } => ReactionView::Reply(not_received(reason)),
        InboundView::Binary => ReactionView::Reply(
            not_received("Binary messages are not supported."@),
        ),
        InboundView::Ping => ReactionView::Pong,
        InboundView::Pong => ReactionView::Ignore,
        InboundView::Closed => ReactionView::Close,
        InboundView::Failed { reason } => ReactionView::CloseWith(not_received(reason)),
    }
}

/// The error that tells a client that what it sent could not be received.
pub fn receive_error(reason: &str) -> (message: MessageFromDatabase)
    ensures
        message@ == not_received(reason@),
{
    MessageFromDatabase::Error {
        message: String::from_str("Failed to receive message from user: ").concat(reason),
    }
}

/// The error that tells a client that the database did not take its
/// message.
pub fn submit_error(reason: &str) -> (message: MessageFromDatabase)
    ensures
        message@ == not_taken(reason@),
{
    MessageFromDatabase::Error {
        message: String::from_str("Failed to send message to database: ").concat(reason),
    }
}

/// What the transport is to do with what it saw on a connection.
pub fn react(inbound: Inbound) -> (reaction: Reaction)
    ensures
        reaction@ == reaction_to(inbound@),
{
    match inbound {
        Inbound::Message(message) => Reaction::Submit(message),
        Inbound::Undecodable { reason } => Reaction::Reply(receive_error(reason.as_str())),
        Inbound::Binary => Reaction::Reply(receive_error("Binary messages are not supported.")),
        Inbound::Ping => Reaction::Pong,
        Inbound::Pong => Reaction::Ignore,
        Inbound::Closed => Reaction::Close,
        Inbound::Failed { reason } => Reaction::CloseWith(receive_error(reason.as_str())),
    }
}

} // verus!
