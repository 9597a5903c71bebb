//! Verified core of a URL-shortening platform's asynchronous access-event
//! pipeline: the path from "a short code was resolved" to a durable,
//! queryable access counter.
//!
//! The modules cover the event record and its JSON wire codec, the
//! trace-context header carrier, the broker topology model, the publisher's
//! message preparation, the consumer's per-message decision step, and the
//! aggregation counter store with its paginated, count-sorted listing.

pub mod analytics_api;
pub mod carrier;
pub mod codec;
pub mod conncache;
pub mod consume;
pub mod errors;
pub mod event;
pub mod laws;
pub mod publish;
pub mod store;
pub mod strutil;
pub mod topology;
pub mod urls_api;

pub use errors::AppError;
