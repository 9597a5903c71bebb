//! The publisher's side of the pipeline: preparing the outbound broker
//! message for an access event.
//!
//! `prepare_publish` is the whole decision: it serializes the event to
//! its wire payload, attaches the injected trace headers, and stamps the
//! envelope — persistent delivery, the event's identity as message id,
//! and the JSON content-type marker. Handing the prepared message to the
//! broker is transport work that happens off the request's critical
//! path; a successful hand-off means the broker accepted the message for
//! durable relay, not that any consumer has processed it.

use vstd::prelude::*;
use vstd::string::StringExecFns;
use crate::carrier::{HeaderInjector, clone_pairs};
use crate::codec::{encode_access_event, event_json};
use crate::event::AccessEvent;
use crate::topology::TopologyConfig;

verus! {

/// A fully prepared outbound message: where it goes, what it carries,
/// and its envelope.
#[derive(Debug)]
pub struct OutboundMessage {
    pub exchange: String,
    pub routing_key: String,
    pub payload: String,
    pub message_id: String,
    pub content_type: String,
    pub delivery_mode: u8,
    pub headers: Vec<(String, String)>,
}

/// Publisher of access events for one configured topology.
pub struct AccessEventPublisher {
    pub topology: TopologyConfig,
}

impl AccessEventPublisher {
    /// A publisher addressing the given topology.
    pub fn new(topology: TopologyConfig) -> (r: Self)
        ensures
            r.topology == topology,
    {
        AccessEventPublisher { topology }
    }

    /// Prepares the broker message for `event`: the canonical JSON
    /// payload — the codec escapes any field text the format cannot
    /// carry verbatim, so every event encodes — the injected trace
    /// headers, persistent (mode 2) delivery, the event's identity as
    /// the message id, and the JSON content-type, addressed to the
    /// configured exchange and routing key.
    pub fn prepare_publish(&self, event: &AccessEvent, headers: &HeaderInjector) -> (m:
        OutboundMessage)
        ensures
            m.payload@ == event_json(*event),
            m.message_id@ == event.event_id@,
            m.content_type@ == "application/json"@,
            m.delivery_mode == 2,
            m.headers@ == headers@,
            m.exchange@ == self.topology.exchange@,
            m.routing_key@ == self.topology.routing_key@,
    {
        let payload = encode_access_event(event);
        OutboundMessage {
            exchange: self.topology.exchange.clone(),
            routing_key: self.topology.routing_key.clone(),
            payload,
            message_id: event.event_id.clone(),
            content_type: String::from_str("application/json"),
            delivery_mode: 2,
            headers: clone_pairs(headers.pairs()),
        }
    }
}

} // verus!
