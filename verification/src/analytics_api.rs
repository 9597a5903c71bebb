//! The analytics query API's data shapes and decisions: pagination
//! defaults, the not-found rule for point lookups, and the readiness
//! probe's verdict. The HTTP framing around them is an external
//! collaborator; store failures crossing this API surface to the caller
//! as 5xx-class responses via `AppError::response_parts`.

use vstd::prelude::*;
use vstd::string::StringExecFns;
use crate::errors::AppError;
use crate::store::Analytics;

verus! {

/// Query parameters of the paginated listing.
pub struct ListAnalyticsQuery {
    pub limit: usize,
    pub offset: usize,
}

/// The default page size of the listing.
pub fn default_limit() -> (r: usize)
    ensures
        r == 20,
{
    20
}

/// The listing's response: the requested window, count-sorted, and the
/// full index size for pagination metadata.
pub struct AnalyticsListResponse {
    pub items: Vec<Analytics>,
    pub total: usize,
}

/// Liveness probe body.
pub struct HealthResponse {
    pub status: String,
    pub service_name: String,
}

/// Readiness probe body.
pub struct ReadyResponse {
    pub status: String,
    pub redis: Option<String>,
}

/// The liveness answer: the service is running.
pub fn health(service_name: &str) -> (r: HealthResponse)
    ensures
        r.status@ == "ok"@,
        r.service_name@ == service_name@,
{
    HealthResponse { status: String::from_str("ok"), service_name: service_name.to_owned() }
}

/// The readiness verdict from the backing store's liveness: ready with
/// status 200 when the store answered, unavailable with status 503 when
/// it did not.
pub fn ready(store_ok: bool) -> (r: (u16, ReadyResponse))
    ensures
        store_ok ==> r.0 == 200 && r.1.status@ == "ready"@ && (r.1.redis matches Some(v)
            && v@ == "ok"@),
        !store_ok ==> r.0 == 503 && r.1.status@ == "not ready"@ && (r.1.redis matches Some(v)
            && v@ == "unavailable"@),
{
    if store_ok {
        (
            200,
            ReadyResponse {
                status: String::from_str("ready"),
                redis: Some(String::from_str("ok")),
            },
        )
    } else {
        (
            503,
            ReadyResponse {
                status: String::from_str("not ready"),
                redis: Some(String::from_str("unavailable")),
            },
        )
    }
}

/// Turns a point lookup's outcome into the API's response: the record
/// when one exists, and a not-found error — naming the code — when no
/// event was ever recorded for it.
pub fn get_analytics_response(found: Option<Analytics>, code: &str) -> (r: Result<
    Analytics,
    AppError,
>)
    ensures
        r is Ok <==> found is Some,
        r matches Ok(a) ==> found == Some(a),
        r matches Err(e) ==> (e matches AppError::NotFound(m) && m@ == "Analytics for code '"@
            + code@ + "' not found"@),
{
    match found {
        Some(a) => Ok(a),
        None => {
            let mut m = String::from_str("Analytics for code '");
            m.append(code);
            m.append("' not found");
            Err(AppError::NotFound(m))
        },
    }
}

} // verus!
