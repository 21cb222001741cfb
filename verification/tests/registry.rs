use fmc_protocol::connections::ConnectionId;
use fmc_protocol::registry::MessageRegistry;

fn id(entity: u64) -> ConnectionId {
    ConnectionId { entity }
}

#[test]
fn registration_is_remembered() {
    let mut registry: MessageRegistry<u32> = MessageRegistry::new();
    assert!(!registry.is_registered("ClientReady"));
    registry.register("ClientReady");
    assert!(registry.is_registered("ClientReady"));
    assert!(!registry.is_registered("AssetRequest"));
}

#[test]
fn messages_come_out_in_arrival_order() {
    let mut registry = MessageRegistry::new();
    registry.register("Chat");
    registry.register("Move");
    assert!(registry.dispatch("Chat", id(1), "hi"));
    assert!(registry.dispatch("Move", id(2), "north"));
    assert!(registry.dispatch("Chat", id(2), "hello"));
    assert!(registry.dispatch("Chat", id(1), "bye"));
    assert_eq!(
        registry.drain("Chat"),
        Some(vec![(id(1), "hi"), (id(2), "hello"), (id(1), "bye")])
    );
    assert_eq!(registry.drain("Chat"), Some(vec![]));
    assert_eq!(registry.drain("Move"), Some(vec![(id(2), "north")]));
}

#[test]
fn unregistered_kind_is_dropped() {
    let mut registry = MessageRegistry::new();
    registry.register("Chat");
    assert!(!registry.dispatch("Unknown", id(1), 5));
    assert_eq!(registry.drain("Unknown"), None);
    assert_eq!(registry.drain("Chat"), Some(vec![]));
    assert!(!registry.is_registered("Unknown"));
}

#[test]
fn clearing_keeps_kinds_and_drops_messages() {
    let mut registry = MessageRegistry::new();
    registry.register("A");
    registry.register("B");
    registry.dispatch("A", id(1), 1);
    registry.dispatch("B", id(1), 2);
    registry.clear_queues();
    assert!(registry.is_registered("A"));
    assert!(registry.is_registered("B"));
    assert_eq!(registry.drain("A"), Some(vec![]));
    assert_eq!(registry.drain("B"), Some(vec![]));
    registry.dispatch("A", id(3), 3);
    assert_eq!(registry.drain("A"), Some(vec![(id(3), 3)]));
}
