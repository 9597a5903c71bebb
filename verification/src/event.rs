//! The access event: an immutable record of one short-code resolution.
//! It is created once at redirect time, handed to the publisher, and
//! exists otherwise only as a wire message.

use vstd::prelude::*;

verus! {

/// One short-code resolution: identity, code, time of access as an
/// RFC 3339 text timestamp, and optional request metadata.
pub struct AccessEvent {
    pub event_id: String,
    pub code: String,
    pub accessed_at: String,
    pub user_agent: Option<String>,
    pub ip_address: Option<String>,
    pub referer: Option<String>,
}

impl Clone for AccessEvent {
    fn clone(&self) -> (res: Self)
        ensures
            res == *self,
    {
        AccessEvent {
            event_id: self.event_id.clone(),
            code: self.code.clone(),
            accessed_at: self.accessed_at.clone(),
            user_agent: match &self.user_agent {
                Some(s) => Some(s.clone()),
                None => None,
            },
            ip_address: match &self.ip_address {
                Some(s) => Some(s.clone()),
                None => None,
            },
            referer: match &self.referer {
                Some(s) => Some(s.clone()),
                None => None,
            },
        }
    }
}

/// Relies on `uuid::Uuid::new_v4` and its `Display` form: a random
/// version-4 UUID rendered as 36 hyphenated lowercase hexadecimal ASCII
/// characters. The value is random, so nothing more is promised of it.
#[verifier::external_body]
fn fresh_event_id() -> (r: String)
    ensures
        r@.len() == 36,
{
    uuid::Uuid::new_v4().to_string()
}

/// Relies on `chrono::Utc::now` and `DateTime::to_rfc3339`: the current
/// time rendered as a non-empty RFC 3339 timestamp. The value depends on
/// the clock, so nothing more is promised of it.
#[verifier::external_body]
fn now_rfc3339() -> (r: String)
    ensures
        r@.len() > 0,
{
    chrono::Utc::now().to_rfc3339()
}

impl AccessEvent {
    /// Creates the event for one resolution of `code`: a fresh random
    /// identity, the current time as the access time, and the request
    /// metadata as given.
    pub fn new(
        code: String,
        user_agent: Option<String>,
        ip_address: Option<String>,
        referer: Option<String>,
    ) -> (r: Self)
        ensures
            r.code == code,
            r.user_agent == user_agent,
            r.ip_address == ip_address,
            r.referer == referer,
            r.event_id@.len() == 36,
            r.accessed_at@.len() > 0,
    {
        AccessEvent {
            event_id: fresh_event_id(),
            code,
            accessed_at: now_rfc3339(),
            user_agent,
            ip_address,
            referer,
        }
    }

    /// Creates an event from all six parts as given, for replaying a
    /// known resolution or rebuilding a decoded wire message.
    pub fn from_parts(
        event_id: String,
        code: String,
        accessed_at: String,
        user_agent: Option<String>,
        ip_address: Option<String>,
        referer: Option<String>,
    ) -> (r: Self)
        ensures
            r.event_id == event_id,
            r.code == code,
            r.accessed_at == accessed_at,
            r.user_agent == user_agent,
            r.ip_address == ip_address,
            r.referer == referer,
    {
        AccessEvent { event_id, code, accessed_at, user_agent, ip_address, referer }
    }

    /// Whether two events carry the same text in every field.
    pub open spec fn same_view(self, other: AccessEvent) -> bool {
        &&& self.event_id@ == other.event_id@
        &&& self.code@ == other.code@
        &&& self.accessed_at@ == other.accessed_at@
        &&& opt_view_eq(self.user_agent, other.user_agent)
        &&& opt_view_eq(self.ip_address, other.ip_address)
        &&& opt_view_eq(self.referer, other.referer)
    }
}

/// Whether two optional texts are both absent or carry the same text.
pub open spec fn opt_view_eq(a: Option<String>, b: Option<String>) -> bool {
    match (a, b) {
        (Some(x), Some(y)) => x@ == y@,
        (None, None) => true,
        _ => false,
    }
}

} // verus!
