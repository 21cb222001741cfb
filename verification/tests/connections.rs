use fmc_protocol::connections::{entities_to_despawn, ConnectionId, ConnectionTable, ServerNetworkEvent};

fn id(entity: u64) -> ConnectionId {
    ConnectionId { entity }
}

#[test]
fn insert_then_get() {
    let mut table = ConnectionTable::new();
    assert_eq!(table.len(), 0);
    assert_eq!(table.insert(id(1), "one"), None);
    assert_eq!(table.insert(id(2), "two"), None);
    assert_eq!(table.get(id(1)), Some(&"one"));
    assert_eq!(table.get(id(2)), Some(&"two"));
    assert_eq!(table.get(id(3)), None);
    assert!(table.contains(id(2)));
    assert!(!table.contains(id(3)));
    assert_eq!(table.len(), 2);
}

#[test]
fn insert_replaces_and_hands_back_previous() {
    let mut table = ConnectionTable::new();
    table.insert(id(1), 10);
    assert_eq!(table.insert(id(1), 11), Some(10));
    assert_eq!(table.get(id(1)), Some(&11));
    assert_eq!(table.len(), 1);
}

#[test]
fn remove_takes_out_only_that_connection() {
    let mut table = ConnectionTable::new();
    table.insert(id(1), 'a');
    table.insert(id(2), 'b');
    assert_eq!(table.remove(id(1)), Some('a'));
    assert_eq!(table.remove(id(1)), None);
    assert_eq!(table.get(id(1)), None);
    assert_eq!(table.get(id(2)), Some(&'b'));
    assert_eq!(table.len(), 1);
}

#[test]
fn ids_lists_each_connection_once() {
    let mut table = ConnectionTable::new();
    for e in [5, 3, 9, 3] {
        table.insert(id(e), e);
    }
    let mut ids: Vec<u64> = table.ids().iter().map(|i| i.entity).collect();
    ids.sort();
    assert_eq!(ids, vec![3, 5, 9]);
}

#[test]
fn connect_reports_the_entity() {
    let mut table = ConnectionTable::new();
    assert_eq!(table.connect(id(42), ()), ServerNetworkEvent::Connected { entity: 42 });
    assert!(table.contains(id(42)));
}

#[test]
fn send_many_reaches_every_listed_connected_client() {
    let mut table = ConnectionTable::new();
    table.insert(id(1), ());
    table.insert(id(2), ());
    table.insert(id(4), ());
    assert_eq!(table.send_many_targets(&[id(1), id(2), id(3), id(4)]), vec![id(1), id(2), id(4)]);
    assert_eq!(table.send_many_targets(&[id(4), id(1)]), vec![id(4), id(1)]);
    assert_eq!(table.send_many_targets(&[id(3), id(1)]), vec![id(1)]);
    assert_eq!(table.send_many_targets(&[id(1), id(9), id(1)]), vec![id(1), id(1)]);
    assert_eq!(table.send_many_targets(&[]), vec![]);
}

#[test]
fn end_connections_passes_over_unknown_and_repeated_ids() {
    let mut table = ConnectionTable::new();
    table.insert(id(1), "a");
    table.insert(id(2), "b");
    table.insert(id(3), "c");
    let ended = table.end_connections(&[id(3), id(7), id(1), id(3)]);
    assert_eq!(ended, vec![(id(3), "c"), (id(1), "a")]);
    assert_eq!(table.len(), 1);
    assert_eq!(table.get(id(2)), Some(&"b"));
}

#[test]
fn end_all_hands_back_every_connection_and_empties() {
    let mut table = ConnectionTable::new();
    table.insert(id(1), "a");
    table.insert(id(2), "b");
    let mut ended = table.end_all();
    ended.sort_by_key(|(i, _)| i.entity);
    assert_eq!(ended, vec![(id(1), "a"), (id(2), "b")]);
    assert_eq!(table.len(), 0);
    assert_eq!(table.get(id(1)), None);
    assert!(table.end_all().is_empty());
}

#[test]
fn only_disconnected_entities_are_despawned() {
    let events = [
        ServerNetworkEvent::Connected { entity: 1 },
        ServerNetworkEvent::Disconnected { entity: 2 },
        ServerNetworkEvent::Disconnected { entity: 1 },
        ServerNetworkEvent::Connected { entity: 3 },
    ];
    assert_eq!(entities_to_despawn(&events), vec![2, 1]);
    assert_eq!(entities_to_despawn(&[]), Vec::<u64>::new());
}
