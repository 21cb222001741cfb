//! The handshake a new connection goes through before it is established: the
//! client identifies itself, the server answers with its configuration, the
//! client may ask for the assets any number of times, and says when it is
//! ready. Anything else, or a read that fails, ends the connection.
use vstd::prelude::*;

verus! {

/// Where a connection stands in the handshake.
#[derive(Debug, PartialEq, Eq)]
pub enum HandshakeState {
    /// Nothing has been received yet.
    AwaitingIdentification,
    /// The client has said who it is and has been sent the configuration.
    AwaitingReady { username: String },
    /// The connection has been handed over as established.
    Accepted,
    /// The connection has been given up.
    Closed,
}

/// What the connection delivered next.
#[derive(Debug, PartialEq, Eq)]
pub enum HandshakeEvent {
    /// A client identification with the name the player wants to use.
    Identification { name: String },
    /// A request for the assets.
    AssetRequest,
    /// The client has processed the assets and is ready.
    ClientReady,
    /// A message of another kind.
    Other,
    /// No packet could be read: the stream ended, or a packet was refused.
    ReadFailed,
}

/// What the server does in answer.
#[derive(Debug, PartialEq, Eq)]
pub enum HandshakeAction {
    /// Send the server configuration.
    SendServerConfig,
    /// Send the assets archive.
    SendAssets,
    /// Hand the connection over as established, under the given name.
    Accept { username: String },
    /// Drop the connection.
    Close,
}

impl HandshakeState {
    /// The handshake is over, one way or the other.
    pub open spec fn finished(&self) -> bool {
        self is Accepted || self is Closed
    }

    /// Whether the handshake is over.
    pub fn is_finished(&self) -> (r: bool)
        ensures
            r == self.finished(),
    {
        match self {
            HandshakeState::Accepted => true,
            HandshakeState::Closed => true,
            _ => false,
        }
    }
}

/// The rule of the handshake: the state and action that follow `event` in
/// `state`.
pub open spec fn handshake_next(state: HandshakeState, event: HandshakeEvent) -> (HandshakeState, HandshakeAction) {
    match state {
        HandshakeState::AwaitingIdentification => match event {
            HandshakeEvent::Identification { name } => (
                HandshakeState::AwaitingReady { username: name },
                HandshakeAction::SendServerConfig,
            ),
            _ => (HandshakeState::Closed, HandshakeAction::Close),
        },
        HandshakeState::AwaitingReady { username } => match event {
            HandshakeEvent::AssetRequest => (HandshakeState::AwaitingReady { username }, HandshakeAction::SendAssets),
            HandshakeEvent::ClientReady => (HandshakeState::Accepted, HandshakeAction::Accept { username }),
            _ => (HandshakeState::Closed, HandshakeAction::Close),
        },
        _ => (state, HandshakeAction::Close),
    }
}

/// The state a new connection starts in.
pub fn handshake_start() -> (state: HandshakeState)
    ensures
        state == HandshakeState::AwaitingIdentification,
{
    HandshakeState::AwaitingIdentification
}

/// Takes one step of the handshake.
pub fn handshake_step(state: HandshakeState, event: HandshakeEvent) -> (r: (HandshakeState, HandshakeAction))
    requires
        !state.finished(),
    ensures
        r == handshake_next(state, event),
{
    match state {
        HandshakeState::AwaitingIdentification => match event {
            HandshakeEvent::Identification { name } => (
                HandshakeState::AwaitingReady { username: name },
                HandshakeAction::SendServerConfig,
            ),
            _ => (HandshakeState::Closed, HandshakeAction::Close),
        },
        HandshakeState::AwaitingReady { username } => match event {
            HandshakeEvent::AssetRequest => (HandshakeState::AwaitingReady { username }, HandshakeAction::SendAssets),
            HandshakeEvent::ClientReady => (HandshakeState::Accepted, HandshakeAction::Accept { username }),
            _ => (HandshakeState::Closed, HandshakeAction::Close),
        },
        HandshakeState::Accepted => (HandshakeState::Accepted, HandshakeAction::Close),
        HandshakeState::Closed => (HandshakeState::Closed, HandshakeAction::Close),
    }
}

/// The actions a connection in `state` takes on `events`, until its
/// handshake is over, and the state it ends in.
pub open spec fn handshake_run(state: HandshakeState, events: Seq<HandshakeEvent>) -> (HandshakeState, Seq<HandshakeAction>)
    decreases events.len(),
{
    if events.len() == 0 || state.finished() {
        (state, Seq::empty())
    } else {
        let (next, action) = handshake_next(state, events[0]);
        let (last, actions) = handshake_run(next, events.drop_first());
        (last, seq![action] + actions)
    }
}

/// Each action of a run answers the event at the same place: the
/// configuration answers an identification, the assets an asset request, an
/// acceptance a ready message; there are no more actions than events.
pub proof fn lemma_actions_answer_events(state: HandshakeState, events: Seq<HandshakeEvent>)
    ensures
        ({
            let actions = handshake_run(state, events).1;
            &&& actions.len() <= events.len()
            &&& forall|i: int| 0 <= i < actions.len() ==> {
                &&& (#[trigger] actions[i] == HandshakeAction::SendServerConfig ==> events[i] is Identification)
                &&& (actions[i] == HandshakeAction::SendAssets ==> events[i] is AssetRequest)
                &&& (actions[i] is Accept ==> events[i] is ClientReady)
            }
        }),
    decreases events.len(),
{
    if events.len() > 0 && !state.finished() {
        let (next, action) = handshake_next(state, events[0]);
        lemma_actions_answer_events(next, events.drop_first());
        let rest = handshake_run(next, events.drop_first()).1;
        let actions = seq![action] + rest;
        assert forall|i: int| 0 <= i < actions.len() implies {
            &&& (#[trigger] actions[i] == HandshakeAction::SendServerConfig ==> events[i] is Identification)
            &&& (actions[i] == HandshakeAction::SendAssets ==> events[i] is AssetRequest)
            &&& (actions[i] is Accept ==> events[i] is ClientReady)
        } by {
            if i > 0 {
                assert(actions[i] == rest[i - 1]);
                assert(events[i] == events.drop_first()[i - 1]);
            }
        }
    }
}

/// Once identified as `username`, a connection only ever gets assets, until
/// it is accepted under that same name or closed, which is its last action.
pub proof fn lemma_run_after_identification(username: String, events: Seq<HandshakeEvent>)
    ensures
        ({
            let (last, actions) = handshake_run(HandshakeState::AwaitingReady { username }, events);
            &&& forall|i: int| 0 <= i < actions.len() - 1 ==> actions[i] == HandshakeAction::SendAssets
            &&& actions.len() > 0 && actions.last() != HandshakeAction::SendAssets ==> (
                last.finished() && (actions.last() == HandshakeAction::Close
                    || actions.last() == HandshakeAction::Accept { username }))
            &&& last.finished() ==> actions.len() > 0 && actions.last() != HandshakeAction::SendAssets
            &&& last == HandshakeState::Accepted <==> (actions.len() > 0 && actions.last() == HandshakeAction::Accept { username })
            &&& !last.finished() ==> last == HandshakeState::AwaitingReady { username }
        }),
    decreases events.len(),
{
    let s = HandshakeState::AwaitingReady { username };
    if events.len() > 0 {
        let (next, action) = handshake_next(s, events[0]);
        lemma_run_after_identification(username, events.drop_first());
        let (last, rest) = handshake_run(next, events.drop_first());
        let actions = seq![action] + rest;
        if next.finished() {
            assert(rest == Seq::<HandshakeAction>::empty());
            assert(actions =~= seq![action]);
        } else {
            assert(next == s);
            assert forall|i: int| 0 <= i < actions.len() - 1 implies actions[i] == HandshakeAction::SendAssets by {
                if i > 0 {
                    assert(actions[i] == rest[i - 1]);
                }
            }
            if rest.len() > 0 {
                assert(actions.last() == rest.last());
            }
        }
    }
}

/// The handshake of a new connection: its first action is sending the server
/// configuration, which it does only when the client's first message is an
/// identification, and never again; a connection is accepted at most once,
/// as its last action, under the name it identified itself with, and in
/// answer to a ready message; assets are sent only in answer to requests.
pub proof fn lemma_handshake(events: Seq<HandshakeEvent>)
    ensures
        ({
            let (last, actions) = handshake_run(HandshakeState::AwaitingIdentification, events);
            &&& forall|i: int| 0 <= i < actions.len() && #[trigger] actions[i] is Accept ==> events[i] is ClientReady
            &&& forall|i: int| 0 <= i < actions.len() && #[trigger] actions[i] == HandshakeAction::SendAssets
                ==> events[i] is AssetRequest
            &&& forall|i: int| 0 <= i < actions.len() ==> (#[trigger] actions[i] == HandshakeAction::SendServerConfig
                <==> (i == 0 && events[0] is Identification))
            &&& forall|i: int| 0 <= i < actions.len() && #[trigger] actions[i] is Accept ==> (
                i == actions.len() - 1
                && events[0] is Identification
                && actions[i] == HandshakeAction::Accept { username: events[0]->name }
                && last == HandshakeState::Accepted)
            &&& events.len() > 0 ==> actions.len() > 0
        }),
{
    let s = HandshakeState::AwaitingIdentification;
    lemma_actions_answer_events(s, events);
    if events.len() > 0 {
        let (next, action) = handshake_next(s, events[0]);
        let (last, rest) = handshake_run(next, events.drop_first());
        let actions = seq![action] + rest;
        match events[0] {
            HandshakeEvent::Identification { name } => {
                lemma_run_after_identification(name, events.drop_first());
                assert forall|i: int| 0 <= i < actions.len() && #[trigger] actions[i] is Accept implies (
                    i == actions.len() - 1
                    && actions[i] == HandshakeAction::Accept { username: name }
                    && last == HandshakeState::Accepted) by {
                    assert(i > 0);
                    assert(actions[i] == rest[i - 1]);
                    if i < actions.len() - 1 {
                        assert(rest[i - 1] == HandshakeAction::SendAssets);
                    }
                }
                assert forall|i: int| 0 <= i < actions.len() implies (#[trigger] actions[i] == HandshakeAction::SendServerConfig
                    <==> i == 0) by {
                    if i > 0 {
                        assert(actions[i] == rest[i - 1]);
                        if i - 1 < rest.len() - 1 {
                            assert(rest[i - 1] == HandshakeAction::SendAssets);
                        }
                    }
                }
            },
            _ => {
                assert(next == HandshakeState::Closed);
                assert(rest == Seq::<HandshakeAction>::empty());
                assert(actions =~= seq![HandshakeAction::Close]);
            },
        }
    }
}

/// `k` copies of `x`.
pub open spec fn repeated<T>(x: T, k: nat) -> Seq<T> {
    Seq::new(k, |_i: int| x)
}

/// Asset requests from an identified client are each answered with the
/// assets, and leave the handshake where it was.
pub proof fn lemma_asset_requests_are_served(username: String, k: nat, tail: Seq<HandshakeEvent>)
    ensures
        handshake_run(HandshakeState::AwaitingReady { username }, repeated(HandshakeEvent::AssetRequest, k) + tail)
            == (handshake_run(HandshakeState::AwaitingReady { username }, tail).0,
                repeated(HandshakeAction::SendAssets, k) + handshake_run(HandshakeState::AwaitingReady { username }, tail).1),
    decreases k,
{
    let s = HandshakeState::AwaitingReady { username };
    let events = repeated(HandshakeEvent::AssetRequest, k) + tail;
    if k == 0 {
        assert(events =~= tail);
        assert(repeated(HandshakeAction::SendAssets, 0) + handshake_run(s, tail).1 =~= handshake_run(s, tail).1);
    } else {
        lemma_asset_requests_are_served(username, (k - 1) as nat, tail);
        assert(events[0] == HandshakeEvent::AssetRequest);
        assert(events.drop_first() =~= repeated(HandshakeEvent::AssetRequest, (k - 1) as nat) + tail);
        let acts = handshake_run(s, tail).1;
        assert(seq![HandshakeAction::SendAssets] + (repeated(HandshakeAction::SendAssets, (k - 1) as nat) + acts)
            =~= repeated(HandshakeAction::SendAssets, k) + acts);
    }
}

/// A client that identifies itself, asks for the assets any number of times
/// and then says it is ready is accepted, under the name it identified with:
/// it is sent the configuration, the assets once per request, and is handed
/// over as established.
pub proof fn lemma_ready_client_is_accepted(name: String, k: nat)
    ensures
        handshake_run(
            HandshakeState::AwaitingIdentification,
            seq![HandshakeEvent::Identification { name }] + repeated(HandshakeEvent::AssetRequest, k)
                + seq![HandshakeEvent::ClientReady],
        ) == (
            HandshakeState::Accepted,
            seq![HandshakeAction::SendServerConfig] + repeated(HandshakeAction::SendAssets, k)
                + seq![HandshakeAction::Accept { username: name }],
        ),
{
    let events = seq![HandshakeEvent::Identification { name }] + repeated(HandshakeEvent::AssetRequest, k)
        + seq![HandshakeEvent::ClientReady];
    let ready = HandshakeState::AwaitingReady { username: name };
    let tail = seq![HandshakeEvent::ClientReady];
    assert(events[0] == HandshakeEvent::Identification { name });
    assert(events.drop_first() =~= repeated(HandshakeEvent::AssetRequest, k) + tail);
    lemma_asset_requests_are_served(name, k, tail);
    assert(tail[0] == HandshakeEvent::ClientReady);
    assert(tail.drop_first() =~= Seq::<HandshakeEvent>::empty());
    assert(handshake_run(ready, tail) == (HandshakeState::Accepted, seq![HandshakeAction::Accept { username: name }])) by {
        assert(handshake_next(ready, HandshakeEvent::ClientReady) == (HandshakeState::Accepted, HandshakeAction::Accept { username: name }));
        assert(handshake_run(HandshakeState::Accepted, tail.drop_first()) == (HandshakeState::Accepted, Seq::<HandshakeAction>::empty()));
        assert(seq![HandshakeAction::Accept { username: name }] + Seq::<HandshakeAction>::empty()
            =~= seq![HandshakeAction::Accept { username: name }]);
    }
    assert(seq![HandshakeAction::SendServerConfig] + (repeated(HandshakeAction::SendAssets, k)
        + seq![HandshakeAction::Accept { username: name }]) =~= seq![HandshakeAction::SendServerConfig]
        + repeated(HandshakeAction::SendAssets, k) + seq![HandshakeAction::Accept { username: name }]);
}

/// An identified client that, after any number of asset requests, sends
/// anything but another asset request or a ready message, or whose read
/// fails, is closed there, whatever follows.
pub proof fn lemma_unexpected_message_closes(
    name: String,
    k: nat,
    event: HandshakeEvent,
    rest: Seq<HandshakeEvent>,
)
    requires
        !(event is AssetRequest),
        !(event is ClientReady),
    ensures
        handshake_run(
            HandshakeState::AwaitingIdentification,
            seq![HandshakeEvent::Identification { name }] + repeated(HandshakeEvent::AssetRequest, k) + seq![event]
                + rest,
        ) == (
            HandshakeState::Closed,
            seq![HandshakeAction::SendServerConfig] + repeated(HandshakeAction::SendAssets, k)
                + seq![HandshakeAction::Close],
        ),
{
    let events = seq![HandshakeEvent::Identification { name }] + repeated(HandshakeEvent::AssetRequest, k)
        + seq![event] + rest;
    let ready = HandshakeState::AwaitingReady { username: name };
    let tail = seq![event] + rest;
    assert(events[0] == HandshakeEvent::Identification { name });
    assert(events.drop_first() =~= repeated(HandshakeEvent::AssetRequest, k) + tail);
    lemma_asset_requests_are_served(name, k, tail);
    assert(tail[0] == event);
    assert(handshake_run(ready, tail) == (HandshakeState::Closed, seq![HandshakeAction::Close])) by {
        assert(handshake_next(ready, event) == (HandshakeState::Closed, HandshakeAction::Close));
        assert(handshake_run(HandshakeState::Closed, tail.drop_first()) == (HandshakeState::Closed, Seq::<HandshakeAction>::empty()));
        assert(seq![HandshakeAction::Close] + Seq::<HandshakeAction>::empty() =~= seq![HandshakeAction::Close]);
    }
    assert(seq![HandshakeAction::SendServerConfig] + (repeated(HandshakeAction::SendAssets, k)
        + seq![HandshakeAction::Close]) =~= seq![HandshakeAction::SendServerConfig]
        + repeated(HandshakeAction::SendAssets, k) + seq![HandshakeAction::Close]);
}

/// A connection whose first message is not an identification, or whose first
/// read fails, is closed at once, whatever follows.
pub proof fn lemma_first_message_must_identify(event: HandshakeEvent, rest: Seq<HandshakeEvent>)
    requires
        !(event is Identification),
    ensures
        handshake_run(HandshakeState::AwaitingIdentification, seq![event] + rest)
            == (HandshakeState::Closed, seq![HandshakeAction::Close]),
{
    let events = seq![event] + rest;
    assert(events[0] == event);
    assert(handshake_next(HandshakeState::AwaitingIdentification, event) == (HandshakeState::Closed, HandshakeAction::Close));
    assert(handshake_run(HandshakeState::Closed, events.drop_first()) == (HandshakeState::Closed, Seq::<HandshakeAction>::empty()));
    assert(seq![HandshakeAction::Close] + Seq::<HandshakeAction>::empty() =~= seq![HandshakeAction::Close]);
}

} // verus!
