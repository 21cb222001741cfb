use fmc_protocol::connections::ConnectionId;
use fmc_protocol::packet::encode_packet;
use fmc_protocol::receive::{receive_start, receive_step, ReceiveAction, ReceiveEvent, ReceiveState};
use fmc_protocol::registry::MessageRegistry;

const ME: ConnectionId = ConnectionId { entity: 7 };

fn body(kind: &str, data: &[u8]) -> Vec<u8> {
    encode_packet(&kind.to_string(), &data.to_vec())
}

#[test]
fn a_connection_starts_by_reading_a_length() {
    assert_eq!(receive_start(), (ReceiveState::AwaitingLength, ReceiveAction::ReadLength));
}

#[test]
fn length_within_limit_reads_the_body() {
    let mut registry: MessageRegistry<Vec<u8>> = MessageRegistry::new();
    let r = receive_step(&mut registry, ME, ReceiveState::AwaitingLength, ReceiveEvent::LengthRead { length: 64 }, 64);
    assert_eq!(r, (ReceiveState::AwaitingBody { length: 64 }, ReceiveAction::ReadBody { length: 64 }));
}

#[test]
fn length_over_limit_disconnects() {
    let mut registry: MessageRegistry<Vec<u8>> = MessageRegistry::new();
    let r = receive_step(&mut registry, ME, ReceiveState::AwaitingLength, ReceiveEvent::LengthRead { length: 65 }, 64);
    assert_eq!(r, (ReceiveState::Ended, ReceiveAction::Disconnect));
}

#[test]
fn decoded_message_is_queued_and_reading_goes_on() {
    let mut registry = MessageRegistry::new();
    registry.register("Chat");
    let bytes = body("Chat", &[1, 2, 3]);
    let length = bytes.len();
    let r = receive_step(&mut registry, ME, ReceiveState::AwaitingBody { length }, ReceiveEvent::BodyRead { bytes }, 64);
    assert_eq!(r, (ReceiveState::AwaitingLength, ReceiveAction::ReadLength));
    assert_eq!(registry.drain("Chat"), Some(vec![(ME, vec![1, 2, 3])]));
}

#[test]
fn message_of_unknown_kind_is_dropped_and_reading_goes_on() {
    let mut registry = MessageRegistry::new();
    registry.register("Chat");
    let bytes = body("Nope", &[1]);
    let length = bytes.len();
    let r = receive_step(&mut registry, ME, ReceiveState::AwaitingBody { length }, ReceiveEvent::BodyRead { bytes }, 64);
    assert_eq!(r, (ReceiveState::AwaitingLength, ReceiveAction::ReadLength));
    assert_eq!(registry.drain("Chat"), Some(vec![]));
    assert!(!registry.is_registered("Nope"));
}

#[test]
fn body_that_does_not_decode_disconnects() {
    let mut registry = MessageRegistry::new();
    registry.register("Chat");
    let bytes = vec![1, 2, 3];
    let r = receive_step(&mut registry, ME, ReceiveState::AwaitingBody { length: 3 }, ReceiveEvent::BodyRead { bytes }, 64);
    assert_eq!(r, (ReceiveState::Ended, ReceiveAction::Disconnect));
    assert_eq!(registry.drain("Chat"), Some(vec![]));
}

#[test]
fn failed_reads_disconnect() {
    let mut registry: MessageRegistry<Vec<u8>> = MessageRegistry::new();
    let r = receive_step(&mut registry, ME, ReceiveState::AwaitingBody { length: 3 }, ReceiveEvent::ReadFailed, 64);
    assert_eq!(r, (ReceiveState::Ended, ReceiveAction::Disconnect));
    let r = receive_step(&mut registry, ME, ReceiveState::AwaitingLength, ReceiveEvent::ReadFailed, 64);
    assert_eq!(r, (ReceiveState::Ended, ReceiveAction::Disconnect));
}

#[test]
fn connection_is_served_until_the_first_failure() {
    let mut registry = MessageRegistry::new();
    registry.register("Chat");
    let first = body("Chat", &[1]);
    let second = body("Chat", &[2]);
    let events = vec![
        ReceiveEvent::LengthRead { length: first.len() as u32 },
        ReceiveEvent::BodyRead { bytes: first },
        ReceiveEvent::LengthRead { length: second.len() as u32 },
        ReceiveEvent::BodyRead { bytes: second },
        ReceiveEvent::LengthRead { length: 1000 },
    ];
    let (mut state, _) = receive_start();
    let mut actions = Vec::new();
    for event in events {
        let (next, action) = receive_step(&mut registry, ME, state, event, 64);
        state = next;
        actions.push(action);
        if action == ReceiveAction::Disconnect {
            break;
        }
    }
    assert_eq!(actions.iter().filter(|a| **a == ReceiveAction::Disconnect).count(), 1);
    assert_eq!(actions.last(), Some(&ReceiveAction::Disconnect));
    assert_eq!(actions.len(), 5);
    assert_eq!(state, ReceiveState::Ended);
    assert_eq!(registry.drain("Chat"), Some(vec![(ME, vec![1]), (ME, vec![2])]));
}
