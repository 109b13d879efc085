//! Incremental synchronization of a remote, paginated message feed into a
//! local keyed store: timestamp codec, derived cursor, pagination driver,
//! and idempotent persistence.

pub mod codec;
pub mod message;
pub mod store;
pub mod driver;

use vstd::prelude::*;

verus! {

/// The errors this library reports.
#[derive(Debug)]
pub enum ArchiveError {
    /// A wire timestamp that does not parse as `<seconds>.<microseconds>`.
    MalformedTimestamp,
    /// A requested page size above the remote API's maximum.
    PageSizeExceeded,
    /// A transport-level failure while fetching a page.
    FetchFailed { cause: String },
    /// A storage-level failure while persisting a record.
    PersistFailed { cause: String },
}

} // verus!
