//! Unit behaviour: the wire codec, the header carrier, the counter
//! store's listing, the error mapping, and the API shapes.

use shortener_analytics::analytics_api::{default_limit, get_analytics_response, health, ready};
use shortener_analytics::carrier::{clone_pairs, HeaderExtractor, HeaderInjector};
use shortener_analytics::codec::{decode_access_event, encode_access_event};
use shortener_analytics::errors::AppError;
use shortener_analytics::event::AccessEvent;
use shortener_analytics::store::{sort_by_count_desc, window_codes, Analytics, CounterStore};
use shortener_analytics::urls_api;

fn full_event() -> AccessEvent {
    AccessEvent::from_parts(
        "11111111-2222-4333-8444-555555555555".to_string(),
        "xY9zQ1".to_string(),
        "2024-01-02T03:04:05.678+00:00".to_string(),
        Some("Mozilla/5.0".to_string()),
        Some("198.51.100.23".to_string()),
        Some("https://example.org/start".to_string()),
    )
}

#[test]
fn encoding_is_the_documented_json_object() {
    let e = AccessEvent::from_parts(
        "id-1".to_string(),
        "c0de".to_string(),
        "2024-01-01T00:00:00+00:00".to_string(),
        None,
        None,
        None,
    );
    let payload = encode_access_event(&e);
    assert_eq!(
        payload,
        "{\"event_id\":\"id-1\",\"code\":\"c0de\",\"accessed_at\":\"2024-01-01T00:00:00+00:00\",\"user_agent\":null,\"ip_address\":null,\"referer\":null}"
    );
}

#[test]
fn codec_round_trips_every_field() {
    let e = full_event();
    let payload = encode_access_event(&e);
    let d = decode_access_event(&payload).unwrap();
    assert_eq!(d.event_id, e.event_id);
    assert_eq!(d.code, e.code);
    assert_eq!(d.accessed_at, e.accessed_at);
    assert_eq!(d.user_agent, e.user_agent);
    assert_eq!(d.ip_address, e.ip_address);
    assert_eq!(d.referer, e.referer);
}

#[test]
fn decoder_rejects_malformed_payloads() {
    assert!(decode_access_event("").is_none());
    assert!(decode_access_event("{}").is_none());
    assert!(decode_access_event("{\"event_id\":\"x\"}").is_none());
    let e = full_event();
    let payload = encode_access_event(&e);
    let mut trailing = payload.clone();
    trailing.push(' ');
    assert!(decode_access_event(&trailing).is_none());
}

#[test]
fn escaping_writes_the_documented_forms() {
    let mut e = AccessEvent::from_parts(
        "id-2".to_string(),
        "c0de".to_string(),
        "2024-01-01T00:00:00+00:00".to_string(),
        None,
        None,
        None,
    );
    e.user_agent = Some("say \"hi\" \\ now".to_string());
    e.referer = Some("line\nbreak\u{1f}end".to_string());
    let payload = encode_access_event(&e);
    assert!(payload.contains("say \\\"hi\\\" \\\\ now"));
    assert!(payload.contains("line\\u000abreak\\u001fend"));
}

#[test]
fn escaped_text_round_trips() {
    let mut e = full_event();
    e.user_agent = Some("agent \"quoted\"".to_string());
    e.ip_address = Some("back\\slash".to_string());
    e.referer = Some("ctrl\u{0007}char and \u{1f}".to_string());
    let payload = encode_access_event(&e);
    let d = decode_access_event(&payload).unwrap();
    assert_eq!(d.user_agent, e.user_agent);
    assert_eq!(d.ip_address, e.ip_address);
    assert_eq!(d.referer, e.referer);
}

#[test]
fn decoder_rejects_noncanonical_escapes() {
    // uppercase hex and bare backslashes are not the canonical forms
    assert!(decode_access_event(
        "{\"event_id\":\"a\\u000Ab\",\"code\":\"c\",\"accessed_at\":\"t\",\"user_agent\":null,\"ip_address\":null,\"referer\":null}"
    )
    .is_none());
    assert!(decode_access_event(
        "{\"event_id\":\"a\\x\",\"code\":\"c\",\"accessed_at\":\"t\",\"user_agent\":null,\"ip_address\":null,\"referer\":null}"
    )
    .is_none());
}

#[test]
fn fresh_events_carry_identity_and_time() {
    let e = AccessEvent::new("abc".to_string(), None, Some("127.0.0.1".to_string()), None);
    assert_eq!(e.event_id.chars().count(), 36);
    assert_eq!(e.code, "abc");
    assert!(chrono::DateTime::parse_from_rfc3339(&e.accessed_at).is_ok());
}

#[test]
fn injected_headers_round_trip_through_extraction() {
    let mut inj = HeaderInjector::new();
    inj.set("traceparent", "00-0af7651916cd43dd8448eb211c80319c-b7ad6b7169203331-01");
    inj.set("tracestate", "vendor=1");
    inj.set("traceparent", "00-0af7651916cd43dd8448eb211c80319c-00f067aa0ba902b7-01");

    let ext = HeaderExtractor::from_pairs(clone_pairs(inj.pairs()));
    assert_eq!(
        ext.get("traceparent").as_deref(),
        Some("00-0af7651916cd43dd8448eb211c80319c-00f067aa0ba902b7-01")
    );
    assert_eq!(ext.get("tracestate").as_deref(), Some("vendor=1"));
    assert!(ext.get("absent").is_none());
    let mut keys = ext.keys();
    keys.sort();
    assert_eq!(keys, vec!["traceparent".to_string(), "tracestate".to_string()]);
}

#[test]
fn empty_header_map_extracts_to_nothing() {
    let ext = HeaderExtractor::from_pairs(Vec::new());
    assert!(ext.get("traceparent").is_none());
    assert!(ext.keys().is_empty());
}

#[test]
fn listing_is_windowed_then_sorted_by_count() {
    let mut store = CounterStore::new();
    for (code, n) in [("A", 5), ("B", 9), ("C", 1)] {
        for _ in 0..n {
            store.increment(code, "2024-05-01T00:00:00+00:00").unwrap();
        }
    }
    let (items, total) = store.list(2, 0).unwrap();
    assert_eq!(total, 3);
    let codes: Vec<&str> = items.iter().map(|a| a.code.as_str()).collect();
    assert_eq!(codes, vec!["B", "A"]);
    assert_eq!(items[0].access_count, 9);
    assert_eq!(items[1].access_count, 5);
}

#[test]
fn listing_handles_offsets_past_the_end() {
    let mut store = CounterStore::new();
    store.increment("only", "2024-05-01T00:00:00+00:00").unwrap();
    let (items, total) = store.list(10, 5).unwrap();
    assert!(items.is_empty());
    assert_eq!(total, 1);
    let (items, total) = store.list(0, 0).unwrap();
    assert!(items.is_empty());
    assert_eq!(total, 1);
}

#[test]
fn unknown_code_reads_as_no_record() {
    let store = CounterStore::new();
    assert!(store.get("unknown-code").unwrap().is_none());
    assert!(store.ping().is_ok());

    let err = get_analytics_response(None, "unknown-code").unwrap_err();
    let parts = err.response_parts();
    assert_eq!(parts.status, 404);
    assert_eq!(parts.code, "NOT_FOUND");
    assert_eq!(parts.message, "Analytics for code 'unknown-code' not found");
}

#[test]
fn sorting_orders_by_descending_count() {
    let mut v = vec![
        Analytics { code: "a".to_string(), access_count: 2, last_accessed_at: None },
        Analytics { code: "b".to_string(), access_count: 7, last_accessed_at: None },
        Analytics { code: "c".to_string(), access_count: 4, last_accessed_at: None },
        Analytics { code: "d".to_string(), access_count: 7, last_accessed_at: None },
    ];
    sort_by_count_desc(&mut v);
    let counts: Vec<i64> = v.iter().map(|a| a.access_count).collect();
    assert_eq!(counts, vec![7, 7, 4, 2]);
}

#[test]
fn windowing_skips_and_takes() {
    let codes: Vec<String> = ["a", "b", "c", "d", "e"]
        .iter()
        .map(|s| s.to_string())
        .collect();
    assert_eq!(window_codes(&codes, 2, 1), vec!["b".to_string(), "c".to_string()]);
    assert_eq!(window_codes(&codes, 10, 3), vec!["d".to_string(), "e".to_string()]);
    assert!(window_codes(&codes, 3, 9).is_empty());
}

#[test]
fn every_error_maps_to_its_response() {
    let cases: Vec<(AppError, u16, &str, &str)> = vec![
        (AppError::NotFound("x missing".to_string()), 404, "NOT_FOUND", "x missing"),
        (AppError::BadRequest("bad".to_string()), 400, "BAD_REQUEST", "bad"),
        (AppError::Conflict("dup".to_string()), 409, "CONFLICT", "dup"),
        (
            AppError::Database("pg down".to_string()),
            500,
            "DATABASE_ERROR",
            "Database error occurred",
        ),
        (AppError::Redis("io".to_string()), 500, "REDIS_ERROR", "Redis error occurred"),
        (
            AppError::MessageQueue("amqp".to_string()),
            500,
            "MQ_ERROR",
            "Message queue error occurred",
        ),
        (
            AppError::Serialization("enc".to_string()),
            500,
            "SERIALIZATION_ERROR",
            "Serialization error",
        ),
        (AppError::UrlParse("no scheme".to_string()), 400, "INVALID_URL", "no scheme"),
        (
            AppError::Internal("boom".to_string()),
            500,
            "INTERNAL_ERROR",
            "Internal server error",
        ),
    ];
    for (err, status, code, message) in cases {
        let parts = err.response_parts();
        assert_eq!(parts.status, status);
        assert_eq!(parts.code, code);
        assert_eq!(parts.message, message);
    }
}

#[test]
fn probe_bodies_follow_store_health() {
    let h = health("analytics-service");
    assert_eq!(h.status, "ok");
    assert_eq!(h.service_name, "analytics-service");
    let (status, body) = ready(true);
    assert_eq!(status, 200);
    assert_eq!(body.status, "ready");
    assert_eq!(body.redis.as_deref(), Some("ok"));
    let (status, body) = ready(false);
    assert_eq!(status, 503);
    assert_eq!(body.status, "not ready");
    assert_eq!(body.redis.as_deref(), Some("unavailable"));
}

#[test]
fn url_service_probes_follow_database_health() {
    let h = shortener_analytics::urls_api::health("shortener-service");
    assert_eq!(h.status, "ok");
    assert_eq!(h.service_name, "shortener-service");
    let (status, body) = shortener_analytics::urls_api::ready(true);
    assert_eq!(status, 200);
    assert_eq!(body.status, "ready");
    assert_eq!(body.database.as_deref(), Some("ok"));
    let (status, body) = shortener_analytics::urls_api::ready(false);
    assert_eq!(status, 503);
    assert_eq!(body.status, "not ready");
    assert_eq!(body.database.as_deref(), Some("unavailable"));
}

#[test]
fn shared_connection_is_established_at_most_once() {
    let mut cache = shortener_analytics::conncache::ConnectionCache::new();
    assert_eq!(cache.acquire(7), 7);
    assert_eq!(cache.acquire(9), 7);
    assert_eq!(cache.acquire(11), 7);
}

#[test]
fn lazy_connection_checks_then_installs_once() {
    let mut cache = shortener_analytics::conncache::ConnectionCache::new();
    assert!(cache.cached().is_none());
    cache.install(42);
    assert_eq!(cache.cached(), Some(42));
    assert_eq!(cache.acquire(99), 42);
}

#[test]
fn page_defaults_are_twenty() {
    assert_eq!(default_limit(), 20);
    assert_eq!(urls_api::default_limit(), 20);
}

#[test]
fn generated_codes_are_six_alphanumerics() {
    for _ in 0..20 {
        let code = urls_api::generate_code();
        assert_eq!(code.chars().count(), 6);
        assert!(code.chars().all(|c| c.is_ascii_alphanumeric()));
    }
}
