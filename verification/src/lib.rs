//! Access-point scan and synchronization engine.
//!
//! The crate parses the line-oriented multi-record output of a wireless
//! scanner into typed access-point records, persists record collections as
//! JSON, and coordinates rescans and import/export operations against a
//! shared record store.

pub mod codec;
pub mod coordinator;
pub mod parse;
pub mod store;
pub mod wifi;

use vstd::prelude::*;

verus! {

/// The number of recognized lines that make one complete record in the
/// scanner's four-field output (SSID, channel, signal, BSSID).
pub const SCAN_FIELDS_PER_RECORD: usize = 4;

} // verus!
