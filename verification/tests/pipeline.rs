//! End-to-end behaviour of the access-event pipeline: publishing,
//! consuming, and the counter store they meet in.

use shortener_analytics::carrier::HeaderInjector;
use shortener_analytics::consume::AccessEventConsumer;
use shortener_analytics::event::AccessEvent;
use shortener_analytics::publish::AccessEventPublisher;
use shortener_analytics::store::CounterStore;
use shortener_analytics::topology::TopologyConfig;

fn sample_event(code: &str) -> AccessEvent {
    AccessEvent::from_parts(
        "a3f1c2d4-0000-4000-8000-000000000001".to_string(),
        code.to_string(),
        "2024-05-01T12:34:56+00:00".to_string(),
        Some("agent/1.0".to_string()),
        Some("203.0.113.7".to_string()),
        None,
    )
}

#[test]
fn published_event_is_counted_once() {
    let publisher = AccessEventPublisher::new(TopologyConfig::default_names());
    let headers = HeaderInjector::new();
    let event = sample_event("abc123");
    let msg = publisher.prepare_publish(&event, &headers);

    assert_eq!(msg.message_id, "a3f1c2d4-0000-4000-8000-000000000001");
    assert_eq!(msg.content_type, "application/json");
    assert_eq!(msg.delivery_mode, 2);
    assert_eq!(msg.exchange, "url_shortener");
    assert_eq!(msg.routing_key, "access.event");

    let mut consumer = AccessEventConsumer::new(CounterStore::new());
    let acked = consumer.process_delivery(&msg.payload);
    assert!(acked);

    let rec = consumer.store().get("abc123").unwrap().unwrap();
    assert_eq!(rec.access_count, 1);
    assert_eq!(
        rec.last_accessed_at.as_deref(),
        Some("2024-05-01T12:34:56+00:00")
    );
}

#[test]
fn replayed_event_doubles_the_counter() {
    let publisher = AccessEventPublisher::new(TopologyConfig::default_names());
    let headers = HeaderInjector::new();
    let event = sample_event("abc123");
    let msg = publisher.prepare_publish(&event, &headers);

    let mut consumer = AccessEventConsumer::new(CounterStore::new());
    assert!(consumer.process_delivery(&msg.payload));
    assert!(consumer.process_delivery(&msg.payload));

    let rec = consumer.store().get("abc123").unwrap().unwrap();
    assert_eq!(rec.access_count, 2);
}

#[test]
fn n_increments_leave_count_n() {
    let mut store = CounterStore::new();
    for _ in 0..5 {
        store
            .increment("hot", "2024-05-01T00:00:00+00:00")
            .unwrap();
    }
    let rec = store.get("hot").unwrap().unwrap();
    assert_eq!(rec.access_count, 5);
}

#[test]
fn malformed_payload_is_acked_and_discarded() {
    let mut consumer = AccessEventConsumer::new(CounterStore::new());
    assert!(consumer.process_delivery("this is not a wire message"));
    assert!(consumer.process_delivery("{\"event_id\":"));
    let (items, total) = consumer.store().list(10, 0).unwrap();
    assert!(items.is_empty());
    assert_eq!(total, 0);

    // a well-formed message afterwards is still processed
    let publisher = AccessEventPublisher::new(TopologyConfig::default_names());
    let msg = publisher.prepare_publish(&sample_event("after"), &HeaderInjector::new());
    assert!(consumer.process_delivery(&msg.payload));
    let rec = consumer.store().get("after").unwrap().unwrap();
    assert_eq!(rec.access_count, 1);
}

#[test]
fn event_with_exotic_metadata_is_still_counted() {
    // quotes, backslashes and control characters in the request
    // metadata ride the wire escaped and the access is counted
    let publisher = AccessEventPublisher::new(TopologyConfig::default_names());
    let mut event = sample_event("abc123");
    event.user_agent = Some("agent \"quoted\" back\\slash".to_string());
    event.referer = Some("tab\there".to_string());
    let msg = publisher.prepare_publish(&event, &HeaderInjector::new());

    let mut consumer = AccessEventConsumer::new(CounterStore::new());
    assert!(consumer.process_delivery(&msg.payload));
    let rec = consumer.store().get("abc123").unwrap().unwrap();
    assert_eq!(rec.access_count, 1);
    assert_eq!(
        rec.last_accessed_at.as_deref(),
        Some("2024-05-01T12:34:56+00:00")
    );
}

#[test]
fn topology_establishment_is_idempotent() {
    let cfg = TopologyConfig::default_names();
    let mut broker = shortener_analytics::topology::BrokerModel::new();
    broker.establish(&cfg).unwrap();
    broker.establish(&cfg).unwrap();
    assert_eq!(broker.exchange_count(), 1);
    assert_eq!(broker.queue_count(), 1);
    assert_eq!(broker.binding_count(), 1);
}
