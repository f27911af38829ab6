use nostr_relay::event::Event;
use nostr_relay::filter::Filter;
use nostr_relay::registry::Delivery;
use nostr_relay::registry::RegistryError;
use nostr_relay::relay::Relay;
use nostr_relay::store::PutOutcome;

fn kind_filter(kind: u64) -> Filter {
    Filter {
        ids: vec![],
        authors: vec![],
        kinds: vec![kind],
        since: None,
        until: None,
        tags: vec![],
        limit: None,
    }
}

fn mk_event(id_byte: u8, created_at: i64, kind: u64) -> Event {
    Event {
        id: vec![id_byte; 32],
        pubkey: vec![7; 32],
        created_at,
        kind,
        tags: vec![],
        content: String::new(),
        sig: vec![0; 64],
    }
}

fn delivery_event_id(d: &Delivery) -> Option<u8> {
    match d {
        Delivery::Event { sub_id: _, event } => Some(event.id[0]),
        Delivery::EndOfStored { sub_id: _ } => None,
    }
}

#[test]
fn subscribe_streams_history_then_marker_then_live() {
    let mut relay = Relay::new(100, 10);
    assert_eq!(relay.publish_event(mk_event(1, 10, 1)), PutOutcome::Inserted);
    assert!(relay.connect(1, 10).is_ok());
    assert!(relay.subscribe(1, "s".to_string(), vec![kind_filter(1)]).is_ok());

    let mb = relay.take_mailbox(1);
    assert_eq!(mb.len(), 2);
    assert_eq!(delivery_event_id(&mb[0]), Some(1));
    match &mb[1] {
        Delivery::EndOfStored { sub_id } => assert_eq!(sub_id, "s"),
        _ => panic!("expected the end-of-stored-events marker"),
    }

    assert_eq!(relay.publish_event(mk_event(2, 20, 1)), PutOutcome::Inserted);
    let mb = relay.take_mailbox(1);
    assert_eq!(mb.len(), 1);
    assert_eq!(delivery_event_id(&mb[0]), Some(2));
}

#[test]
fn delivery_keeps_broadcast_order() {
    let mut relay = Relay::new(100, 10);
    assert!(relay.connect(1, 10).is_ok());
    assert!(relay.subscribe(1, "s".to_string(), vec![kind_filter(1)]).is_ok());
    let _ = relay.take_mailbox(1);
    assert_eq!(relay.publish_event(mk_event(1, 10, 1)), PutOutcome::Inserted);
    assert_eq!(relay.publish_event(mk_event(2, 5, 1)), PutOutcome::Inserted);
    let mb = relay.take_mailbox(1);
    let ids: Vec<Option<u8>> = mb.iter().map(delivery_event_id).collect();
    assert_eq!(ids, vec![Some(1), Some(2)]);
}

#[test]
fn full_mailbox_does_not_block_other_connections() {
    let mut relay = Relay::new(100, 10);
    assert!(relay.connect(1, 1).is_ok());
    assert!(relay.connect(2, 10).is_ok());
    assert!(relay.subscribe(1, "a".to_string(), vec![kind_filter(1)]).is_ok());
    assert!(relay.subscribe(2, "b".to_string(), vec![kind_filter(1)]).is_ok());
    // connection 1's single mailbox slot is now taken by its marker
    assert_eq!(relay.publish_event(mk_event(1, 10, 1)), PutOutcome::Inserted);
    assert_eq!(relay.publish_event(mk_event(2, 20, 1)), PutOutcome::Inserted);
    // connection 2 got everything, in order, unaffected by connection 1
    let mb2 = relay.take_mailbox(2);
    let ids: Vec<Option<u8>> = mb2.iter().map(delivery_event_id).collect();
    assert_eq!(ids, vec![None, Some(1), Some(2)]);
    // connection 1 kept only the newest message: overflow drops the oldest
    let mb1 = relay.take_mailbox(1);
    assert_eq!(mb1.len(), 1);
    assert_eq!(delivery_event_id(&mb1[0]), Some(2));
}

#[test]
fn subscription_matches_any_of_its_filters() {
    let mut relay = Relay::new(100, 10);
    assert!(relay.connect(1, 10).is_ok());
    assert!(relay.subscribe(1, "s".to_string(), vec![kind_filter(1), kind_filter(2)]).is_ok());
    let _ = relay.take_mailbox(1);
    assert_eq!(relay.publish_event(mk_event(1, 10, 2)), PutOutcome::Inserted);
    assert_eq!(relay.publish_event(mk_event(2, 20, 3)), PutOutcome::Inserted);
    let mb = relay.take_mailbox(1);
    let ids: Vec<Option<u8>> = mb.iter().map(delivery_event_id).collect();
    assert_eq!(ids, vec![Some(1)]);
}

#[test]
fn unsubscribe_stops_delivery() {
    let mut relay = Relay::new(100, 10);
    assert!(relay.connect(1, 10).is_ok());
    assert!(relay.subscribe(1, "s".to_string(), vec![kind_filter(1)]).is_ok());
    let _ = relay.take_mailbox(1);
    assert!(relay.unsubscribe(1, &"s".to_string()));
    assert_eq!(relay.publish_event(mk_event(1, 10, 1)), PutOutcome::Inserted);
    assert_eq!(relay.take_mailbox(1).len(), 0);
}

#[test]
fn resubscribe_replaces_filters() {
    let mut relay = Relay::new(100, 10);
    assert!(relay.connect(1, 10).is_ok());
    assert!(relay.subscribe(1, "s".to_string(), vec![kind_filter(1)]).is_ok());
    let _ = relay.take_mailbox(1);
    assert!(relay.subscribe(1, "s".to_string(), vec![kind_filter(2)]).is_ok());
    let _ = relay.take_mailbox(1);
    assert_eq!(relay.publish_event(mk_event(1, 10, 1)), PutOutcome::Inserted);
    assert_eq!(relay.publish_event(mk_event(2, 20, 2)), PutOutcome::Inserted);
    let mb = relay.take_mailbox(1);
    let ids: Vec<Option<u8>> = mb.iter().map(delivery_event_id).collect();
    assert_eq!(ids, vec![Some(2)]);
}

#[test]
fn disconnect_unregisters_everything() {
    let mut relay = Relay::new(100, 10);
    assert!(relay.connect(1, 10).is_ok());
    assert!(relay.subscribe(1, "s".to_string(), vec![kind_filter(1)]).is_ok());
    assert!(relay.disconnect(1));
    assert_eq!(relay.publish_event(mk_event(1, 10, 1)), PutOutcome::Inserted);
    assert_eq!(relay.take_mailbox(1).len(), 0);
    assert!(!relay.disconnect(1));
}

#[test]
fn unregister_all_clears_subscriptions_but_keeps_connection() {
    let mut reg = nostr_relay::registry::Registry::new(10);
    assert!(reg.connect(1, 10).is_ok());
    assert!(reg.register(1, "a".to_string(), vec![kind_filter(1)]).is_ok());
    assert!(reg.register(1, "b".to_string(), vec![kind_filter(2)]).is_ok());
    assert!(reg.unregister_all(1));
    reg.broadcast(&mk_event(1, 10, 1));
    assert_eq!(reg.conns[0].mailbox.len(), 0);
    assert!(reg.register(1, "a".to_string(), vec![kind_filter(1)]).is_ok());
    reg.broadcast(&mk_event(2, 20, 1));
    assert_eq!(reg.conns[0].mailbox.len(), 1);
}

#[test]
fn registry_errors() {
    let mut relay = Relay::new(100, 1);
    assert_eq!(
        relay.subscribe(9, "s".to_string(), vec![kind_filter(1)]),
        Err(RegistryError::UnknownConnection)
    );
    assert!(relay.connect(1, 10).is_ok());
    assert_eq!(relay.connect(1, 10), Err(RegistryError::DuplicateConnection));
    assert!(relay.subscribe(1, "a".to_string(), vec![kind_filter(1)]).is_ok());
    assert_eq!(
        relay.subscribe(1, "b".to_string(), vec![kind_filter(2)]),
        Err(RegistryError::TooManySubscriptions)
    );
    // replacing the existing subscription is always allowed
    assert!(relay.subscribe(1, "a".to_string(), vec![kind_filter(3)]).is_ok());
}

#[test]
fn subscription_limit_bounds_history() {
    let mut relay = Relay::new(100, 10);
    for i in 0..5u8 {
        assert_eq!(relay.publish_event(mk_event(i + 1, (i as i64) + 1, 1)), PutOutcome::Inserted);
    }
    assert!(relay.connect(1, 10).is_ok());
    let mut f = kind_filter(1);
    f.limit = Some(2);
    assert!(relay.subscribe(1, "s".to_string(), vec![f]).is_ok());
    let mb = relay.take_mailbox(1);
    let ids: Vec<Option<u8>> = mb.iter().map(delivery_event_id).collect();
    // the two newest events, newest first, then the marker
    assert_eq!(ids, vec![Some(5), Some(4), None]);
}
