//! A minimal persistent store of per-user task records.
//!
//! Each record is owned by the identity that created it and lives at a
//! storage address derived deterministically from the owner's identity and
//! the record's content. The store enforces ownership on every mutation,
//! sizes and deposits storage at creation, and refunds the deposit on
//! deletion.

pub mod deriver;
pub mod store;

use vstd::prelude::*;

verus! {

/// Maximum length, in bytes, of a record's content.
pub const MAX_CONTENT_BYTES: usize = 200;

/// Bytes reserved for one record: a discriminant header, the owner's
/// 32-byte identity, a 4-byte length prefix plus the maximum content,
/// and the one-byte marked flag.
pub const RECORD_SPACE: u64 = 8 + 32 + 4 + 200 + 1;

} // verus!
