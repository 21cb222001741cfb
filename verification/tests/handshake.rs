use fmc_protocol::handshake::{
    handshake_start, handshake_step, HandshakeAction, HandshakeEvent, HandshakeState,
};

fn run(events: Vec<HandshakeEvent>) -> (HandshakeState, Vec<HandshakeAction>) {
    let mut state = handshake_start();
    let mut actions = Vec::new();
    for event in events {
        if state.is_finished() {
            break;
        }
        let (next, action) = handshake_step(state, event);
        state = next;
        actions.push(action);
    }
    (state, actions)
}

#[test]
fn client_is_accepted_under_its_name() {
    let (state, actions) = run(vec![
        HandshakeEvent::Identification { name: "steve".to_string() },
        HandshakeEvent::AssetRequest,
        HandshakeEvent::AssetRequest,
        HandshakeEvent::ClientReady,
        HandshakeEvent::AssetRequest,
    ]);
    assert_eq!(state, HandshakeState::Accepted);
    assert_eq!(
        actions,
        vec![
            HandshakeAction::SendServerConfig,
            HandshakeAction::SendAssets,
            HandshakeAction::SendAssets,
            HandshakeAction::Accept { username: "steve".to_string() },
        ]
    );
}

#[test]
fn ready_without_assets_is_accepted() {
    let (state, actions) = run(vec![
        HandshakeEvent::Identification { name: "alex".to_string() },
        HandshakeEvent::ClientReady,
    ]);
    assert_eq!(state, HandshakeState::Accepted);
    assert_eq!(
        actions,
        vec![
            HandshakeAction::SendServerConfig,
            HandshakeAction::Accept { username: "alex".to_string() },
        ]
    );
}

#[test]
fn first_message_must_be_identification() {
    for first in [HandshakeEvent::ClientReady, HandshakeEvent::AssetRequest, HandshakeEvent::Other, HandshakeEvent::ReadFailed] {
        let (state, actions) = run(vec![first, HandshakeEvent::ClientReady]);
        assert_eq!(state, HandshakeState::Closed);
        assert_eq!(actions, vec![HandshakeAction::Close]);
    }
}

#[test]
fn unexpected_message_after_identification_closes() {
    let (state, actions) = run(vec![
        HandshakeEvent::Identification { name: "a".to_string() },
        HandshakeEvent::Identification { name: "b".to_string() },
        HandshakeEvent::ClientReady,
    ]);
    assert_eq!(state, HandshakeState::Closed);
    assert_eq!(actions, vec![HandshakeAction::SendServerConfig, HandshakeAction::Close]);
}

#[test]
fn failed_read_after_identification_closes() {
    let (state, actions) = run(vec![
        HandshakeEvent::Identification { name: "a".to_string() },
        HandshakeEvent::AssetRequest,
        HandshakeEvent::ReadFailed,
    ]);
    assert_eq!(state, HandshakeState::Closed);
    assert_eq!(
        actions,
        vec![HandshakeAction::SendServerConfig, HandshakeAction::SendAssets, HandshakeAction::Close]
    );
}

#[test]
fn finished_states() {
    assert!(HandshakeState::Accepted.is_finished());
    assert!(HandshakeState::Closed.is_finished());
    assert!(!HandshakeState::AwaitingIdentification.is_finished());
    assert!(!HandshakeState::AwaitingReady { username: String::new() }.is_finished());
}
