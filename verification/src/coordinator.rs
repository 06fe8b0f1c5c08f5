//! The synchronization coordinator: turns rescan, import and export intents
//! into race-free operations against the store.
//!
//! At most one rescan is in flight at a time; a request made while one is
//! outstanding is a silent no-op. Import and export are spawned
//! independently of rescans: whichever completes last wins the store, an
//! accepted and documented race. The store is only ever replaced by a fully
//! constructed collection.

use vstd::prelude::*;

use crate::codec::{deserialize, serialize, spec_deserialize, spec_serialize, DecodeError};
use crate::store::Store;

verus! {

/// What a rescan request does to the coordinator: it starts a scan exactly
/// when none is outstanding, and afterwards one is outstanding either way.
pub open spec fn spec_request_rescan(outstanding: bool) -> (bool, bool) {
    (!outstanding, true)
}

/// Tracks whether a rescan is in flight. The runtime keeps the task handle;
/// the coordinator keeps only the liveness fact the handle answers.
pub struct Coordinator {
    scanning: bool,
}

impl Coordinator {
    /// Whether a rescan is currently outstanding.
    pub closed spec fn is_scanning(&self) -> bool {
        self.scanning
    }

    /// A coordinator with no scan in flight.
    pub fn new() -> (r: Self)
        ensures
            !r.is_scanning(),
    {
        Coordinator { scanning: false }
    }

    /// Whether a rescan is currently outstanding.
    pub fn scan_outstanding(&self) -> (b: bool)
        ensures
            b == self.is_scanning(),
    {
        self.scanning
    }

    /// Handles a rescan intent: starts a scan exactly when none is
    /// outstanding; a request made while one is in flight is a no-op.
    pub fn request_rescan(&mut self) -> (start: bool)
        ensures
            (start, final(self).is_scanning()) == spec_request_rescan(old(self).is_scanning()),
    {
        if self.scanning {
            false
        } else {
            self.scanning = true;
            true
        }
    }

    /// Records that the in-flight rescan has finished (the retained task
    /// handle reports completion).
    pub fn note_scan_finished(&mut self)
        ensures
            !final(self).is_scanning(),
    {
        self.scanning = false;
    }
}

/// Concurrent rescan requests run exactly one scan: a request against a
/// coordinator with a scan outstanding starts none, and of two requests in
/// a row the second never starts a scan, whatever the starting state.
pub proof fn lemma_second_rescan_noop(outstanding: bool)
    ensures
        outstanding ==> !spec_request_rescan(outstanding).0,
        spec_request_rescan(outstanding).1,
        !spec_request_rescan(spec_request_rescan(outstanding).1).0,
{
}

/// Applies the outcome of an import: `contents` is the text of the chosen
/// file, or nothing if the user cancelled the file dialog. A cancelled
/// selection leaves the store unchanged and raises no error; malformed
/// contents leave it unchanged and report the decoding error; well-formed
/// contents replace the collection wholesale. The result tells whether the
/// store was replaced.
pub fn apply_import(store: &mut Store, contents: Option<&str>) -> (r: Result<bool, DecodeError>)
    ensures
        match contents {
            None => r == Ok::<bool, DecodeError>(false) && final(store)@ == old(store)@,
            Some(text) => match spec_deserialize(text@) {
                Some(rs) => r == Ok::<bool, DecodeError>(true) && final(store)@ == rs,
                None => r == Err::<bool, DecodeError>(DecodeError) && final(store)@ == old(
                    store,
                )@,
            },
        },
{
    match contents {
        None => Ok(false),
        Some(text) => match deserialize(text) {
            Ok(aps) => {
                store.replace(aps);
                Ok(true)
            },
            Err(e) => Err(e),
        },
    }
}

/// Plans an export: serializes a snapshot of the current collection when a
/// destination was chosen, and produces nothing when the dialog was
/// cancelled — then no file is written and no error is raised. The store is
/// only read.
pub fn plan_export(store: &Store, destination_chosen: bool) -> (r: Option<String>)
    ensures
        destination_chosen ==> r is Some && r->Some_0@ == spec_serialize(store@),
        !destination_chosen ==> r is None,
{
    if destination_chosen {
        Some(serialize(store.read()))
    } else {
        None
    }
}

} // verus!
