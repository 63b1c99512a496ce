//! Statistics core for a URL-shortener dashboard.
//!
//! Daily dumps of redirect logs are aggregated into per-domain counts and
//! persisted as immutable dated snapshots; a cache-aside reader serves them
//! back, and a time-series builder turns the snapshot history into chart
//! data. Everything here is verified; the surrounding process (file and
//! network I/O, HTTP) lives outside this crate and only hands plain values
//! in and out.

use vstd::prelude::*;

pub mod aggregate;
pub mod cache;
pub mod codec;
pub mod date;
pub mod series;
pub mod stats;
pub mod store;
pub mod text;

pub use stats::{DomainTemplate, IndexTemplate};

verus! {

/// Failure classification for the whole core, mirroring how each failure is
/// surfaced: unreadable input, a malformed snapshot name, an artifact or
/// cache entry that does not deserialize, a missing domain, or no snapshots
/// at all.
#[derive(Clone, Copy, Debug, PartialEq, Eq, Structural)]
pub enum StatsError {
    IOError,
    ParseError,
    CorruptDataError,
    NotFoundError,
    NoDataError,
}

impl StatsError {
    /// Short description, for the presentation layer to render.
    pub fn describe(&self) -> (r: &'static str)
        ensures
            self is NoDataError ==> r@ == "no data available yet"@,
            self is NotFoundError ==> r@ == "Unknown domain specified"@,
    {
        match self {
            StatsError::IOError => "could not read source data",
            StatsError::ParseError => "malformed snapshot name",
            StatsError::CorruptDataError => "snapshot data is corrupt",
            StatsError::NotFoundError => "Unknown domain specified",
            StatsError::NoDataError => "no data available yet",
        }
    }
}

/// Liveness probe for the surrounding server.
pub fn healthz() -> (r: &'static str)
    ensures
        r@ == "OK"@,
{
    "OK"
}

} // verus!
