//! Verified core of a desktop notebook application's file bridge.
//!
//! The bridge offers five operations to a UI shell: read a notebook file,
//! write one, list recently opened files, record a recently opened file,
//! and resolve the default save directory. The file and platform I/O lives
//! outside this crate; here stand the data model of the recent-files list,
//! the JSON format it is persisted in, and the rules by which the list is
//! updated, each with a proved contract.

use vstd::prelude::*;

pub mod jsontext;
pub mod parse;
pub mod reader;
pub mod recent;
pub mod roundtrip;
pub mod serialize;
pub mod store;

verus! {

/// The persisted recent-files list never holds more than this many entries.
pub const RECENT_FILES_CAPACITY: usize = 10;

} // verus!
