//! Error taxonomy shared by the pipeline: transport, serialization and
//! store failures, plus the request-facing kinds, and the mapping from an
//! error to the HTTP status, machine-readable code and user-visible message
//! of its response.

use vstd::prelude::*;
use vstd::string::StringExecFns;

verus! {

/// The error taxonomy of the platform. `MessageQueue` stands for transport
/// failures (broker connection/channel/publish/declare), `Serialization`
/// for encode/decode failures, and `Redis` for backing-store failures.
#[derive(Debug)]
pub enum AppError {
    NotFound(String),
    BadRequest(String),
    Conflict(String),
    Database(String),
    Redis(String),
    MessageQueue(String),
    Serialization(String),
    UrlParse(String),
    Internal(String),
}

/// The pieces of an HTTP error response: status code, machine-readable
/// error code, and user-visible message.
pub struct ErrorParts {
    pub status: u16,
    pub code: String,
    pub message: String,
}

impl AppError {
    /// The HTTP status an error maps to.
    pub open spec fn spec_status(self) -> u16 {
        match self {
            AppError::NotFound(_) => 404,
            AppError::BadRequest(_) => 400,
            AppError::Conflict(_) => 409,
            AppError::Database(_) => 500,
            AppError::Redis(_) => 500,
            AppError::MessageQueue(_) => 500,
            AppError::Serialization(_) => 500,
            AppError::UrlParse(_) => 400,
            AppError::Internal(_) => 500,
        }
    }

    /// The machine-readable error code of the response body.
    pub open spec fn spec_code(self) -> Seq<char> {
        match self {
            AppError::NotFound(_) => "NOT_FOUND"@,
            AppError::BadRequest(_) => "BAD_REQUEST"@,
            AppError::Conflict(_) => "CONFLICT"@,
            AppError::Database(_) => "DATABASE_ERROR"@,
            AppError::Redis(_) => "REDIS_ERROR"@,
            AppError::MessageQueue(_) => "MQ_ERROR"@,
            AppError::Serialization(_) => "SERIALIZATION_ERROR"@,
            AppError::UrlParse(_) => "INVALID_URL"@,
            AppError::Internal(_) => "INTERNAL_ERROR"@,
        }
    }

    /// The user-visible message of the response body. Internal failure
    /// details (database, store, broker, serialization, internal) are
    /// replaced by a generic message; caller-caused errors carry their
    /// original text through.
    pub open spec fn spec_message(self) -> Seq<char> {
        match self {
            AppError::NotFound(m) => m@,
            AppError::BadRequest(m) => m@,
            AppError::Conflict(m) => m@,
            AppError::Database(_) => "Database error occurred"@,
            AppError::Redis(_) => "Redis error occurred"@,
            AppError::MessageQueue(_) => "Message queue error occurred"@,
            AppError::Serialization(_) => "Serialization error"@,
            AppError::UrlParse(m) => m@,
            AppError::Internal(_) => "Internal server error"@,
        }
    }

    /// Maps an error to the status, code and message of the HTTP response
    /// it is rendered as. Store failures surfaced through the analytics
    /// query API propagate to the caller as a 5xx-class failure with a
    /// generic message; client errors echo their own message.
    pub fn response_parts(&self) -> (r: ErrorParts)
        ensures
            r.status == self.spec_status(),
            r.code@ == self.spec_code(),
            r.message@ == self.spec_message(),
    {
        match self {
            AppError::NotFound(m) => ErrorParts {
                status: 404,
                code: String::from_str("NOT_FOUND"),
                message: m.clone(),
            },
            AppError::BadRequest(m) => ErrorParts {
                status: 400,
                code: String::from_str("BAD_REQUEST"),
                message: m.clone(),
            },
            AppError::Conflict(m) => ErrorParts {
                status: 409,
                code: String::from_str("CONFLICT"),
                message: m.clone(),
            },
            AppError::Database(_) => ErrorParts {
                status: 500,
                code: String::from_str("DATABASE_ERROR"),
                message: String::from_str("Database error occurred"),
            },
            AppError::Redis(_) => ErrorParts {
                status: 500,
                code: String::from_str("REDIS_ERROR"),
                message: String::from_str("Redis error occurred"),
            },
            AppError::MessageQueue(_) => ErrorParts {
                status: 500,
                code: String::from_str("MQ_ERROR"),
                message: String::from_str("Message queue error occurred"),
            },
            AppError::Serialization(_) => ErrorParts {
                status: 500,
                code: String::from_str("SERIALIZATION_ERROR"),
                message: String::from_str("Serialization error"),
            },
            AppError::UrlParse(m) => ErrorParts {
                status: 400,
                code: String::from_str("INVALID_URL"),
                message: m.clone(),
            },
            AppError::Internal(_) => ErrorParts {
                status: 500,
                code: String::from_str("INTERNAL_ERROR"),
                message: String::from_str("Internal server error"),
            },
        }
    }
}

} // verus!
