use grpc_opizontas::config::EventConfig;
use grpc_opizontas::events::EventBus;
use grpc_opizontas::messages::{EventMessage, SubscriptionAction, SubscriptionRequest};

fn event(event_id: &str, event_type: &str, publisher_id: &str, payload: &[u8]) -> EventMessage {
    EventMessage {
        event_id: event_id.to_string(),
        event_type: event_type.to_string(),
        publisher_id: publisher_id.to_string(),
        payload: payload.to_vec(),
        timestamp: 7,
        metadata: Vec::new(),
    }
}

#[test]
fn test_event_publish_subscribe() {
    let config = EventConfig {
        max_subscribers_per_type: 10,
        channel_capacity: 100,
        max_event_history: None,
        event_ttl_seconds: None,
        enable_metrics: true,
    };
    let mut event_bus = EventBus::new(config);

    let event_type = "test.event";
    let subscriber_id = "test-subscriber";

    event_bus
        .subscribe_event_type(event_type, subscriber_id, 1)
        .expect("Failed to subscribe to event type");

    let test_event = event("test-event-1", event_type, "test-publisher", b"Hello, World!");

    let publish_result = event_bus.publish_event(test_event, 2);
    assert!(publish_result.is_ok());
    let (received_event, count) = publish_result.unwrap();
    assert_eq!(count, 1);

    assert_eq!(received_event.event_id, "test-event-1");
    assert_eq!(received_event.event_type, event_type);
    assert_eq!(received_event.publisher_id, "test-publisher");
    assert_eq!(received_event.payload, b"Hello, World!".to_vec());
}

#[test]
fn test_multiple_subscribers() {
    let mut event_bus = EventBus::new(EventConfig::default());
    let event_type = "multi.test";

    event_bus
        .subscribe_event_type(event_type, "subscriber-1", 1)
        .expect("Failed to subscribe subscriber-1");
    event_bus
        .subscribe_event_type(event_type, "subscriber-2", 1)
        .expect("Failed to subscribe subscriber-2");

    let test_event = event("multi-test-1", event_type, "multi-publisher", b"Multi subscriber test");

    let publish_result = event_bus.publish_event(test_event, 2);
    assert!(publish_result.is_ok());
    let (received_event, count) = publish_result.unwrap();
    assert_eq!(count, 2);
    assert_eq!(received_event.event_id, "multi-test-1");
}

#[test]
fn test_subscription_management() {
    let mut event_bus = EventBus::new(EventConfig::default());
    let subscriber_id = "test-sub-mgmt";

    let subscription_request = SubscriptionRequest {
        action: SubscriptionAction::Subscribe,
        event_types: vec!["test.sub1".to_string(), "test.sub2".to_string()],
        subscriber_id: subscriber_id.to_string(),
    };
    let result = event_bus.handle_subscription_request(&subscription_request, 1);
    assert!(result.is_ok());

    let event_types = event_bus.get_subscriber_event_types(subscriber_id);
    assert_eq!(event_types.len(), 2);
    assert!(event_types.contains(&"test.sub1".to_string()));
    assert!(event_types.contains(&"test.sub2".to_string()));

    let unsubscribe_request = SubscriptionRequest {
        action: SubscriptionAction::Unsubscribe,
        event_types: vec!["test.sub1".to_string()],
        subscriber_id: subscriber_id.to_string(),
    };
    let result = event_bus.handle_subscription_request(&unsubscribe_request, 2);
    assert!(result.is_ok());

    let event_types = event_bus.get_subscriber_event_types(subscriber_id);
    assert_eq!(event_types.len(), 1);
    assert!(event_types.contains(&"test.sub2".to_string()));
}

#[test]
fn test_event_stats() {
    let mut event_bus = EventBus::new(EventConfig::default());

    event_bus
        .subscribe_event_type("stats.test", "stats-subscriber", 1)
        .expect("Failed to subscribe");

    let test_event = event("stats-test-1", "stats.test", "stats-publisher", b"Stats test");
    let _ = event_bus.publish_event(test_event, 2);

    let stats = event_bus.get_stats();
    assert_eq!(stats.active_event_types, 1);
    assert_eq!(stats.total_subscribers, 1);
    assert_eq!(stats.events_published, 1);
    assert_eq!(stats.events_delivered, 1);
}

#[test]
fn test_no_subscribers() {
    let mut event_bus = EventBus::new(EventConfig::default());

    let test_event = event("no-sub-test", "no.subscribers", "no-sub-publisher", b"No subscribers");
    let result = event_bus.publish_event(test_event, 2);
    assert!(result.is_err());
}

#[test]
fn fan_out_counts_follow_subscriptions() {
    let mut event_bus = EventBus::new(EventConfig::default());

    event_bus
        .subscribe_event_type("e.t", "first", 1)
        .expect("first subscription failed");
    event_bus
        .subscribe_event_type("e.t", "second", 1)
        .expect("second subscription failed");

    let (_, count) = event_bus
        .publish_event(event("", "e.t", "pub", b"x"), 2)
        .expect("publish failed");
    assert_eq!(count, 2);

    event_bus.unsubscribe("second", &vec!["e.t".to_string()]);

    let (_, count) = event_bus
        .publish_event(event("", "e.t", "pub", b"y"), 3)
        .expect("publish failed");
    assert_eq!(count, 1);
}

#[test]
fn empty_event_type_is_refused() {
    let mut event_bus = EventBus::new(EventConfig::default());
    let result = event_bus.publish_event(event("id", "", "pub", b"x"), 1);
    assert!(result.is_err());
}

#[test]
fn subscriber_cap_is_enforced() {
    let config = EventConfig {
        max_subscribers_per_type: 1,
        channel_capacity: 8,
        max_event_history: None,
        event_ttl_seconds: None,
        enable_metrics: true,
    };
    let mut event_bus = EventBus::new(config);
    assert!(event_bus.subscribe_event_type("t.t", "one", 1).is_ok());
    assert!(event_bus.subscribe_event_type("t.t", "two", 1).is_err());
}

#[test]
fn publish_mints_missing_event_id_and_timestamp() {
    let mut event_bus = EventBus::new(EventConfig::default());
    event_bus
        .subscribe_event_type("m.t", "sub", 1)
        .expect("subscription failed");
    let mut e = event("", "m.t", "pub", b"z");
    e.timestamp = 0;
    let (enriched, _) = event_bus.publish_event(e, 42).expect("publish failed");
    assert_eq!(enriched.event_id.len(), 36);
    assert_eq!(enriched.timestamp, 42);
}
