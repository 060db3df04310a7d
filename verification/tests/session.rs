use driftdb::session::{react, receive_error, submit_error, Inbound, Phase, Reaction};
use driftdb::types::{Action, Key, MessageFromDatabase, MessageToDatabase, SequenceNumber};
use serde_json::Value;

fn error(message: &str) -> MessageFromDatabase {
    MessageFromDatabase::Error { message: message.to_string() }
}

#[test]
fn message_is_submitted() {
    let push = MessageToDatabase::Push {
        key: Key::from("a"),
        value: Value::from(1),
        action: Action::Append,
    };
    assert_eq!(react(Inbound::Message(push.clone())), Reaction::Submit(push));
    let dump = MessageToDatabase::Dump { seq: SequenceNumber(3) };
    assert_eq!(react(Inbound::Message(dump.clone())), Reaction::Submit(dump));
}

#[test]
fn unusable_frame_is_answered_and_the_connection_stays() {
    assert_eq!(
        react(Inbound::Undecodable { reason: "expected value at line 1 column 1".to_string() }),
        Reaction::Reply(error(
            "Failed to receive message from user: expected value at line 1 column 1"
        ))
    );
    assert_eq!(
        react(Inbound::Binary),
        Reaction::Reply(error(
            "Failed to receive message from user: Binary messages are not supported."
        ))
    );
}

#[test]
fn ping_is_answered_and_pong_ignored() {
    assert_eq!(react(Inbound::Ping), Reaction::Pong);
    assert_eq!(react(Inbound::Pong), Reaction::Ignore);
}

#[test]
fn close_and_failure_end_the_connection() {
    assert_eq!(react(Inbound::Closed), Reaction::Close);
    assert_eq!(
        react(Inbound::Failed { reason: "reset".to_string() }),
        Reaction::CloseWith(error("Failed to receive message from user: reset"))
    );
}

#[test]
fn errors_name_what_failed() {
    assert_eq!(receive_error(""), error("Failed to receive message from user: "));
    assert_eq!(
        submit_error("no sequence number is left"),
        error("Failed to send message to database: no sequence number is left")
    );
}

#[test]
fn connection_lives_until_it_is_closed() {
    let phase = Phase::Registered;
    assert!(phase.is_live());
    let phase = phase.advance(&Reaction::Pong);
    assert_eq!(phase, Phase::Active);
    let phase = phase.advance(&Reaction::Reply(error("x")));
    assert_eq!(phase, Phase::Active);
    let closed = phase.advance(&Reaction::Close);
    assert_eq!(closed, Phase::Deregistered);
    assert!(!closed.is_live());
    assert_eq!(phase.advance(&Reaction::CloseWith(error("x"))), Phase::Deregistered);
    assert_eq!(Phase::Registered.advance(&Reaction::Close), Phase::Deregistered);
}

#[test]
fn deregistered_connection_stays_deregistered() {
    let gone = Phase::Active.delivery_failed();
    assert_eq!(gone, Phase::Deregistered);
    assert_eq!(gone.advance(&Reaction::Ignore), Phase::Deregistered);
    assert_eq!(gone.advance(&Reaction::Pong), Phase::Deregistered);
    assert_eq!(gone.delivery_failed(), Phase::Deregistered);
}
