//! The receiving side of an established connection: read a length, read that
//! many bytes, decode them into a packet and queue its message under its
//! kind; a failed read, a length over the limit or bytes that do not decode
//! end the connection.
use vstd::prelude::*;
use crate::connections::ConnectionId;
use crate::framing::{announced_length, check_frame_length, frame_too_large, lemma_header_bytes_of_value};
use crate::packet::{decode_packet, lemma_packet_roundtrip, packet_decoding, packet_encoding};
use crate::registry::{dispatch_step, MessageRegistry};

verus! {

/// Where the receiving side of a connection stands.
#[derive(Clone, Copy, Debug, PartialEq, Eq, Structural)]
pub enum ReceiveState {
    /// Waiting for the 4-byte length of the next packet.
    AwaitingLength,
    /// Waiting for a packet body of the given length.
    AwaitingBody { length: usize },
    /// The connection is over; it is to be reported disconnected.
    Ended,
}

/// What to do next on the connection.
#[derive(Clone, Copy, Debug, PartialEq, Eq, Structural)]
pub enum ReceiveAction {
    /// Read the length of the next packet.
    ReadLength,
    /// Read a packet body of the given length.
    ReadBody { length: usize },
    /// Stop reading and report the connection disconnected.
    Disconnect,
}

/// What the connection delivered in answer to the last action.
#[derive(Debug)]
pub enum ReceiveEvent {
    /// A packet length arrived.
    LengthRead { length: u32 },
    /// A packet body arrived.
    BodyRead { bytes: Vec<u8> },
    /// The read failed, or the stream ended.
    ReadFailed,
}

/// The event answers the action that led to `state`.
pub open spec fn answers(state: ReceiveState, event: ReceiveEvent) -> bool {
    match state {
        ReceiveState::AwaitingLength => event is LengthRead || event is ReadFailed,
        ReceiveState::AwaitingBody { length } => match event {
            ReceiveEvent::BodyRead { bytes } => bytes.len() == length,
            ReceiveEvent::ReadFailed => true,
            _ => false,
        },
        ReceiveState::Ended => false,
    }
}

/// The state and action that follow `event`, where `max` bounds the length
/// of a packet.
pub open spec fn receive_next(event: ReceiveEvent, max: usize) -> (ReceiveState, ReceiveAction) {
    match event {
        ReceiveEvent::LengthRead { length } => if length <= max {
            (ReceiveState::AwaitingBody { length: length as usize }, ReceiveAction::ReadBody { length: length as usize })
        } else {
            (ReceiveState::Ended, ReceiveAction::Disconnect)
        },
        ReceiveEvent::BodyRead { bytes } => if packet_decoding(bytes@) is Some {
            (ReceiveState::AwaitingLength, ReceiveAction::ReadLength)
        } else {
            (ReceiveState::Ended, ReceiveAction::Disconnect)
        },
        ReceiveEvent::ReadFailed => (ReceiveState::Ended, ReceiveAction::Disconnect),
    }
}

/// `after` is `before` with a message of `kind` from `from` that holds `data`
/// put at the back of its kind's queue (or dropped, where the kind is not
/// registered).
pub open spec fn queued_as(
    before: Map<Seq<char>, Seq<(ConnectionId, Vec<u8>)>>,
    after: Map<Seq<char>, Seq<(ConnectionId, Vec<u8>)>>,
    kind: Seq<char>,
    from: ConnectionId,
    data: Seq<u8>,
) -> bool {
    exists|message: Vec<u8>| #[trigger] message@ == data && after == dispatch_step(before, kind, from, message)
}

/// The state a newly established connection starts in, and its first action.
pub fn receive_start() -> (r: (ReceiveState, ReceiveAction))
    ensures
        r == (ReceiveState::AwaitingLength, ReceiveAction::ReadLength),
{
    (ReceiveState::AwaitingLength, ReceiveAction::ReadLength)
}

/// Takes one step on the receiving side of the connection `from`. A body that
/// decodes puts its message into `registry` under its kind (where the kind is
/// registered; otherwise it is dropped); nothing else touches the registry.
pub fn receive_step(
    registry: &mut MessageRegistry<Vec<u8>>,
    from: ConnectionId,
    state: ReceiveState,
    event: ReceiveEvent,
    max: usize,
) -> (r: (ReceiveState, ReceiveAction))
    requires
        answers(state, event),
    ensures
        r == receive_next(event, max),
        match event {
            ReceiveEvent::BodyRead { bytes } => match packet_decoding(bytes@) {
                Some((kind, data)) => queued_as(old(registry)@, final(registry)@, kind, from, data),
                None => final(registry)@ == old(registry)@,
            },
            _ => final(registry)@ == old(registry)@,
        },
{
    match event {
        ReceiveEvent::LengthRead { length } => {
            match check_frame_length(length, max) {
                Ok(length) => (ReceiveState::AwaitingBody { length }, ReceiveAction::ReadBody { length }),
                Err(_) => (ReceiveState::Ended, ReceiveAction::Disconnect),
            }
        },
        ReceiveEvent::BodyRead { bytes } => {
            match decode_packet(bytes.as_slice()) {
                Some((kind, message)) => {
                    let ghost queued = message;
                    let _ = registry.dispatch(kind.as_str(), from, message);
                    proof {
                        assert(packet_decoding(bytes@) == Some((kind@, queued@)));
                        assert(registry@ == dispatch_step(old(registry)@, kind@, from, queued));
                        assert(queued_as(old(registry)@, registry@, kind@, from, queued@));
                    }
                    (ReceiveState::AwaitingLength, ReceiveAction::ReadLength)
                },
                None => (ReceiveState::Ended, ReceiveAction::Disconnect),
            }
        },
        ReceiveEvent::ReadFailed => (ReceiveState::Ended, ReceiveAction::Disconnect),
    }
}

/// A connection that sends a packet within the limit is served on: its
/// length leads to reading a body of that length, and the body, which decodes
/// to the kind and data sent, leads back to reading the next length.
pub proof fn lemma_packet_within_limit_is_served(kind: Seq<char>, data: Seq<u8>, body: Vec<u8>, max: usize)
    requires
        packet_encoding(kind, data).len() <= max,
        max <= u32::MAX,
        body@ == packet_encoding(kind, data),
    ensures
        ({
            let length = packet_encoding(kind, data).len();
            receive_next(ReceiveEvent::LengthRead { length: length as u32 }, max)
                == (ReceiveState::AwaitingBody { length: length as usize }, ReceiveAction::ReadBody { length: length as usize })
        }),
        answers(ReceiveState::AwaitingBody { length: body.len() }, ReceiveEvent::BodyRead { bytes: body }),
        packet_decoding(body@) == Some((kind, data)),
        receive_next(ReceiveEvent::BodyRead { bytes: body }, max) == (ReceiveState::AwaitingLength, ReceiveAction::ReadLength),
{
    lemma_packet_roundtrip(kind, data, Seq::empty());
    assert(packet_encoding(kind, data) + Seq::<u8>::empty() =~= packet_encoding(kind, data));
}

/// The event ends the connection: a failed read, a length over `max`, or a
/// body that does not decode.
pub open spec fn ends_connection(event: ReceiveEvent, max: usize) -> bool {
    match event {
        ReceiveEvent::LengthRead { length } => length > max,
        ReceiveEvent::BodyRead { bytes } => packet_decoding(bytes@) is None,
        ReceiveEvent::ReadFailed => true,
    }
}

/// The actions a connection takes on `events`, one per event, until it is
/// disconnected.
pub open spec fn receive_run(events: Seq<ReceiveEvent>, max: usize) -> Seq<ReceiveAction>
    decreases events.len(),
{
    if events.len() == 0 {
        Seq::empty()
    } else {
        let action = receive_next(events[0], max).1;
        if action == ReceiveAction::Disconnect {
            seq![action]
        } else {
            seq![action] + receive_run(events.drop_first(), max)
        }
    }
}

/// A connection is disconnected at most once, as its last action, exactly at
/// the first event that ends it; until then every event leads to another read.
pub proof fn lemma_receive_run(events: Seq<ReceiveEvent>, max: usize)
    ensures
        receive_run(events, max).len() <= events.len(),
        forall|i: int| 0 <= i < receive_run(events, max).len() ==> (
            (#[trigger] receive_run(events, max)[i] == ReceiveAction::Disconnect) <==> ends_connection(events[i], max)),
        forall|i: int| 0 <= i < receive_run(events, max).len() - 1 ==>
            #[trigger] receive_run(events, max)[i] != ReceiveAction::Disconnect,
        receive_run(events, max).len() < events.len() ==> (receive_run(events, max).len() > 0
            && receive_run(events, max).last() == ReceiveAction::Disconnect),
    decreases events.len(),
{
    if events.len() > 0 {
        let action = receive_next(events[0], max).1;
        assert(action == ReceiveAction::Disconnect <==> ends_connection(events[0], max));
        if action != ReceiveAction::Disconnect {
            lemma_receive_run(events.drop_first(), max);
            let rest = receive_run(events.drop_first(), max);
            let actions = seq![action] + rest;
            assert forall|i: int| 0 <= i < actions.len() implies (
                (#[trigger] actions[i] == ReceiveAction::Disconnect) <==> ends_connection(events[i], max)) by {
                if i > 0 {
                    assert(actions[i] == rest[i - 1]);
                    assert(events[i] == events.drop_first()[i - 1]);
                }
            }
            assert forall|i: int| 0 <= i < actions.len() - 1 implies #[trigger] actions[i] != ReceiveAction::Disconnect by {
                if i > 0 {
                    assert(actions[i] == rest[i - 1]);
                }
            }
            if rest.len() > 0 {
                assert(actions.last() == rest.last());
            }
        }
    }
}

/// A connection reads on after a length exactly when the framing accepts a
/// header with that length, and then reads a body of that very length; it
/// reads on after a body exactly when the body decodes as a packet.
pub proof fn lemma_receive_agrees_with_framing(buf: Seq<u8>, max: usize, body: Vec<u8>)
    requires
        buf.len() >= 4,
    ensures
        announced_length(buf) <= u32::MAX,
        (receive_next(ReceiveEvent::LengthRead { length: announced_length(buf) as u32 }, max).1
            == ReceiveAction::Disconnect) <==> frame_too_large(buf, max as int),
        !frame_too_large(buf, max as int) ==> receive_next(
            ReceiveEvent::LengthRead { length: announced_length(buf) as u32 },
            max,
        ) == (ReceiveState::AwaitingBody { length: announced_length(buf) as usize },
            ReceiveAction::ReadBody { length: announced_length(buf) as usize }),
        (receive_next(ReceiveEvent::BodyRead { bytes: body }, max).1 == ReceiveAction::Disconnect)
            <==> packet_decoding(body@) is None,
{
    lemma_header_bytes_of_value(buf[0], buf[1], buf[2], buf[3]);
}

} // verus!
