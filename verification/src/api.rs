//! What the admin surface answers: bodies, queries, and how errors map to
//! status codes.

use vstd::prelude::*;
use vstd::string::StringExecFns;
use crate::db::DatabaseError;

verus! {

/// The body of the home page.
#[derive(Debug)]
pub struct HomeResponse {
    pub connected_devices: usize,
    pub mqtt_messages_received: u64,
    pub mqtt_messages_sent: u64,
    pub mqtt_messages_dropped: u64,
    pub forest_version: String,
}

/// The query of a read of a series between two timestamps.
#[derive(Clone, Copy, Debug)]
pub struct TimeseriesQuery {
    pub start: u64,
    pub end: u64,
}

/// The query of a read of the newest points of a series.
#[derive(Clone, Copy, Debug)]
pub struct LastValuesQuery {
    pub limit: Option<u64>,
}

impl LastValuesQuery {
    /// How many points to read: the limit asked for, or one.
    pub fn effective_limit(&self) -> (r: u64)
        ensures
            r == match self.limit {
                Some(n) => n,
                None => 1u64,
            },
    {
        match self.limit {
            Some(n) => n,
            None => 1,
        }
    }
}

/// The body of a request that registers a device.
#[derive(Debug)]
pub struct PutDeviceBody {
    pub key: Option<String>,
}

/// Status code of a resource that was not found.
pub const STATUS_NOT_FOUND: u16 = 404;

/// Status code of a request that does not fit the resource it addresses.
pub const STATUS_BAD_REQUEST: u16 = 400;

/// Status code of any other failure.
pub const STATUS_INTERNAL_ERROR: u16 = 500;

/// Why a request failed.
#[derive(Debug)]
pub enum AppError {
    NotFound(String),
    DatabaseError(DatabaseError),
    InternalServerError(String),
}

/// The status code that an error of the storage layer is answered with: not
/// found for a missing resource, bad request for an update addressed to
/// another shadow, internal error for anything else.
pub open spec fn database_status(e: DatabaseError) -> u16 {
    match e {
        DatabaseError::NotFoundError(_) => STATUS_NOT_FOUND,
        DatabaseError::ShadowError(_) => STATUS_BAD_REQUEST,
        _ => STATUS_INTERNAL_ERROR,
    }
}

impl AppError {
    /// The status code that the error is answered with.
    pub fn status_code(&self) -> (r: u16)
        ensures
            r == match *self {
                AppError::NotFound(_) => STATUS_NOT_FOUND,
                AppError::DatabaseError(e) => database_status(e),
                AppError::InternalServerError(_) => STATUS_INTERNAL_ERROR,
            },
    {
        match self {
            AppError::NotFound(_) => STATUS_NOT_FOUND,
            AppError::DatabaseError(e) => match e {
                DatabaseError::NotFoundError(_) => STATUS_NOT_FOUND,
                DatabaseError::ShadowError(_) => STATUS_BAD_REQUEST,
                _ => STATUS_INTERNAL_ERROR,
            },
            AppError::InternalServerError(_) => STATUS_INTERNAL_ERROR,
        }
    }

    /// The message that the error is answered with.
    pub fn message(&self) -> (r: String)
        ensures
            r@ == match *self {
                AppError::NotFound(m) => "Not found: "@ + m@,
                AppError::DatabaseError(_) => "Database error"@,
                AppError::InternalServerError(m) => "Internal server error: "@ + m@,
            },
    {
        match self {
            AppError::NotFound(m) => "Not found: ".to_owned().concat(m.as_str()),
            AppError::DatabaseError(_) => "Database error".to_owned(),
            AppError::InternalServerError(m) => "Internal server error: ".to_owned().concat(
                m.as_str(),
            ),
        }
    }
}

} // verus!
