//! Errors, their messages and the HTTP status that each is answered with.

use crate::text::{decimal_of, number};
use vstd::prelude::*;
use vstd::string::*;

verus! {

#[derive(Debug)]
pub enum MemoryError {
    L1WriteFailed(String),
    L1NotFound(String),
    L2WriteFailed(String),
    L2EmbedFailed(String),
    L2InvalidVector(String),
    L2Rebuilding,
    L3ArchiveFailed(String),
    L3ImportFailed(String),
    ApiKeyMissing,
    ApiKeyInvalid,
    InvalidRequest(String),
    EntryTooLarge { key: String, size: usize, max: usize },
    InvalidKey(String),
    Unauthorized(String),
    RateLimited(String),
    ServiceUnavailable(String),
    Internal(String),
}

impl MemoryError {
    /// The message for people.
    pub open spec fn message_of(&self) -> Seq<char> {
        match self {
            MemoryError::L1WriteFailed(s) => "L1 write failed: "@ + s@,
            MemoryError::L1NotFound(s) => "L1 entry not found: "@ + s@,
            MemoryError::L2WriteFailed(s) => "L2 write failed: "@ + s@,
            MemoryError::L2EmbedFailed(s) => "L2 embedding failed: "@ + s@,
            MemoryError::L2InvalidVector(s) => "L2 invalid vector (NaN/Inf): "@ + s@,
            MemoryError::L2Rebuilding => "L2 is rebuilding, temporarily unavailable"@,
            MemoryError::L3ArchiveFailed(s) => "L3 archive failed: "@ + s@,
            MemoryError::L3ImportFailed(s) => "L3 import failed: "@ + s@,
            MemoryError::ApiKeyMissing => "API key missing"@,
            MemoryError::ApiKeyInvalid => "API key invalid"@,
            MemoryError::InvalidRequest(s) => "invalid request: "@ + s@,
            MemoryError::EntryTooLarge { key, size, max } => "entry too large: "@ + decimal_of(
                *size as nat,
            ) + " bytes (max "@ + decimal_of(*max as nat) + "): "@ + key@,
            MemoryError::InvalidKey(s) => "invalid key: "@ + s@,
            MemoryError::Unauthorized(s) => "unauthorized: "@ + s@,
            MemoryError::RateLimited(s) => "rate limited: "@ + s@,
            MemoryError::ServiceUnavailable(s) => "service unavailable: "@ + s@,
            MemoryError::Internal(s) => "internal error: "@ + s@,
        }
    }

    /// The HTTP status that the error is answered with.
    pub open spec fn status_of(&self) -> u16 {
        match self {
            MemoryError::L1NotFound(_) => 404,
            MemoryError::InvalidRequest(_) => 400,
            MemoryError::InvalidKey(_) => 400,
            MemoryError::EntryTooLarge { .. } => 400,
            MemoryError::ApiKeyMissing => 401,
            MemoryError::ApiKeyInvalid => 401,
            MemoryError::Unauthorized(_) => 401,
            MemoryError::RateLimited(_) => 429,
            MemoryError::L2Rebuilding => 503,
            MemoryError::ServiceUnavailable(_) => 503,
            _ => 500,
        }
    }

    /// The message for people.
    pub fn message(&self) -> (r: String)
        ensures
            r@ == self.message_of(),
    {
        match self {
            MemoryError::L1WriteFailed(s) => "L1 write failed: ".to_owned().concat(s.as_str()),
            MemoryError::L1NotFound(s) => "L1 entry not found: ".to_owned().concat(s.as_str()),
            MemoryError::L2WriteFailed(s) => "L2 write failed: ".to_owned().concat(s.as_str()),
            MemoryError::L2EmbedFailed(s) => "L2 embedding failed: ".to_owned().concat(s.as_str()),
            MemoryError::L2InvalidVector(s) => "L2 invalid vector (NaN/Inf): ".to_owned().concat(
                s.as_str(),
            ),
            MemoryError::L2Rebuilding => "L2 is rebuilding, temporarily unavailable".to_owned(),
            MemoryError::L3ArchiveFailed(s) => "L3 archive failed: ".to_owned().concat(s.as_str()),
            MemoryError::L3ImportFailed(s) => "L3 import failed: ".to_owned().concat(s.as_str()),
            MemoryError::ApiKeyMissing => "API key missing".to_owned(),
            MemoryError::ApiKeyInvalid => "API key invalid".to_owned(),
            MemoryError::InvalidRequest(s) => "invalid request: ".to_owned().concat(s.as_str()),
            MemoryError::EntryTooLarge { key, size, max } => {
                let mut r = "entry too large: ".to_owned();
                r.append(number(*size as u64).as_str());
                r.append(" bytes (max ");
                r.append(number(*max as u64).as_str());
                r.append("): ");
                r.append(key.as_str());
                r
            },
            MemoryError::InvalidKey(s) => "invalid key: ".to_owned().concat(s.as_str()),
            MemoryError::Unauthorized(s) => "unauthorized: ".to_owned().concat(s.as_str()),
            MemoryError::RateLimited(s) => "rate limited: ".to_owned().concat(s.as_str()),
            MemoryError::ServiceUnavailable(s) => "service unavailable: ".to_owned().concat(
                s.as_str(),
            ),
            MemoryError::Internal(s) => "internal error: ".to_owned().concat(s.as_str()),
        }
    }

    /// The HTTP status that the error is answered with.
    pub fn status(&self) -> (r: u16)
        ensures
            r == self.status_of(),
    {
        match self {
            MemoryError::L1NotFound(_) => 404,
            MemoryError::InvalidRequest(_) => 400,
            MemoryError::InvalidKey(_) => 400,
            MemoryError::EntryTooLarge { .. } => 400,
            MemoryError::ApiKeyMissing => 401,
            MemoryError::ApiKeyInvalid => 401,
            MemoryError::Unauthorized(_) => 401,
            MemoryError::RateLimited(_) => 429,
            MemoryError::L2Rebuilding => 503,
            MemoryError::ServiceUnavailable(_) => 503,
            _ => 500,
        }
    }
}

} // verus!
