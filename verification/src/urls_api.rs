//! The URL management API's data shapes, and short-code generation.
//! URL storage itself is straightforward relational access and an
//! external collaborator; only the shapes its routes exchange and the
//! random code alphabet are the library's own.

use vstd::prelude::*;
use vstd::string::StringExecFns;

verus! {

/// Request body for creating a short URL.
pub struct CreateUrlRequest {
    pub url: String,
}

/// Response body for a created short URL.
pub struct CreateUrlResponse {
    pub code: String,
    pub short_url: String,
    pub original_url: String,
}

/// Request body for updating a short URL's target.
pub struct UpdateUrlRequest {
    pub url: String,
}

/// Query parameters of the URL listing.
pub struct ListUrlsQuery {
    pub limit: i64,
    pub offset: i64,
}

/// The default page size of the URL listing.
pub fn default_limit() -> (r: i64)
    ensures
        r == 20,
{
    20
}

/// Liveness probe body of the URL service.
pub struct HealthResponse {
    pub status: String,
    pub service_name: String,
}

/// Readiness probe body of the URL service.
pub struct ReadyResponse {
    pub status: String,
    pub database: Option<String>,
}

/// The liveness answer: the service is running.
pub fn health(service_name: &str) -> (r: HealthResponse)
    ensures
        r.status@ == "ok"@,
        r.service_name@ == service_name@,
{
    HealthResponse {
        status: String::from_str("ok"),
        service_name: service_name.to_owned(),
    }
}

/// The readiness verdict from the relational store's liveness: ready
/// with status 200 when the database answered, unavailable with status
/// 503 when it did not.
pub fn ready(database_ok: bool) -> (r: (u16, ReadyResponse))
    ensures
        database_ok ==> r.0 == 200 && r.1.status@ == "ready"@ && (r.1.database matches Some(v)
            && v@ == "ok"@),
        !database_ok ==> r.0 == 503 && r.1.status@ == "not ready"@ && (r.1.database matches Some(
            v,
        ) && v@ == "unavailable"@),
{
    if database_ok {
        (
            200,
            ReadyResponse {
                status: String::from_str("ready"),
                database: Some(String::from_str("ok")),
            },
        )
    } else {
        (
            503,
            ReadyResponse {
                status: String::from_str("not ready"),
                database: Some(String::from_str("unavailable")),
            },
        )
    }
}

/// Relies on `rand::rng` and `RngExt::random_range`: a uniformly random
/// index below `bound`. The value is random, so only its range is
/// promised.
#[verifier::external_body]
fn random_index(bound: usize) -> (r: usize)
    requires
        bound > 0,
    ensures
        r < bound,
{
    let mut g = rand::rng();
    <rand::rngs::ThreadRng as rand::RngExt>::random_range(&mut g, 0..bound)
}

/// Draws a fresh six-character short code over the alphanumeric
/// alphabet.
pub fn generate_code() -> (r: String)
    ensures
        r@.len() == 6,
        forall|i: int| 0 <= i < r@.len()
            ==> "0123456789ABCDEFGHIJKLMNOPQRSTUVWXYZabcdefghijklmnopqrstuvwxyz"@.contains(
            #[trigger] r@[i],
        ),
{
    let charset = "0123456789ABCDEFGHIJKLMNOPQRSTUVWXYZabcdefghijklmnopqrstuvwxyz";
    proof {
        reveal_strlit("0123456789ABCDEFGHIJKLMNOPQRSTUVWXYZabcdefghijklmnopqrstuvwxyz");
    }
    let mut r = String::new();
    let mut i: usize = 0;
    while i < 6
        invariant
            0 <= i <= 6,
            r@.len() == i,
            charset@ == "0123456789ABCDEFGHIJKLMNOPQRSTUVWXYZabcdefghijklmnopqrstuvwxyz"@,
            charset@.len() == 62,
            forall|k: int| 0 <= k < r@.len()
                ==> "0123456789ABCDEFGHIJKLMNOPQRSTUVWXYZabcdefghijklmnopqrstuvwxyz"@.contains(
                #[trigger] r@[k],
            ),
        decreases 6 - i,
    {
        let idx = random_index(62);
        let c = charset.get_char(idx);
        crate::strutil::push_char(&mut r, c);
        proof {
            assert(charset@[idx as int] == c);
            assert(charset@.contains(c));
            assert(r@[i as int] == c);
        }
        i += 1;
    }
    r
}

} // verus!
