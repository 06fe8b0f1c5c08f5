//! The shared state store for the current record collection.

use vstd::prelude::*;

use crate::wifi::{WiFi, WiFiView};

verus! {

/// Exclusive owner of the current record collection. It is replaced
/// wholesale by completed operations (scan, import) and never partially
/// updated, so a reader always sees either the old or the new collection in
/// full. The runtime embeds it in a mutual-exclusion primitive; every
/// verified path goes through `read` and `replace`.
pub struct Store {
    aps: Vec<WiFi>,
}

impl View for Store {
    type V = Seq<WiFiView>;

    closed spec fn view(&self) -> Seq<WiFiView> {
        self.aps.deep_view()
    }
}

impl Store {
    /// An empty store.
    pub fn new() -> (r: Self)
        ensures
            r@ == Seq::<WiFiView>::empty(),
    {
        let aps: Vec<WiFi> = Vec::new();
        proof {
            assert(aps.deep_view() =~= Seq::<WiFiView>::empty());
        }
        Store { aps }
    }

    /// A store holding the given collection.
    pub fn with_collection(aps: Vec<WiFi>) -> (r: Self)
        ensures
            r@ == aps.deep_view(),
    {
        Store { aps }
    }

    /// A consistent snapshot of the current collection.
    pub fn read(&self) -> (r: &Vec<WiFi>)
        ensures
            r.deep_view() == self@,
    {
        &self.aps
    }

    /// Installs a new collection wholesale: after the call the store holds
    /// exactly the new records.
    pub fn replace(&mut self, new_aps: Vec<WiFi>)
        ensures
            final(self)@ == new_aps.deep_view(),
    {
        self.aps = new_aps;
    }
}

} // verus!
