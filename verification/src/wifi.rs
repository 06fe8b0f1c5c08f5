//! The access-point record type and the frequency-band selector.

use vstd::prelude::*;
use vstd::string::StrSliceExecFns;

verus! {

/// Mathematical model of one access-point record.
#[verifier::ext_equal]
pub ghost struct WiFiView {
    pub ssid: Seq<char>,
    pub bssid: Seq<char>,
    pub bandwidth: int,
    pub channel: int,
    pub signal: int,
}

/// Whether every numeric field of the model fits a 32-bit signed integer,
/// as it does for the model of any concrete record.
pub open spec fn wifi_view_in_range(r: WiFiView) -> bool {
    &&& -0x8000_0000 <= r.bandwidth <= 0x7FFF_FFFF
    &&& -0x8000_0000 <= r.channel <= 0x7FFF_FFFF
    &&& -0x8000_0000 <= r.signal <= 0x7FFF_FFFF
}

/// The record value a freshly started accumulator holds before any field of
/// the input has been consumed into it.
pub open spec fn default_wifi_view() -> WiFiView {
    WiFiView {
        ssid: "Default"@,
        bssid: "FF:FF:FF:FF:FF:FF"@,
        bandwidth: 20,
        channel: 0,
        signal: 0,
    }
}

/// One observed access point: display name, hardware identifier, and
/// channel attributes. Fully populated on construction; immutable after.
#[derive(Debug)]
pub struct WiFi {
    ssid: String,
    bssid: String,
    bandwidth: i32,
    channel: i32,
    signal: i32,
}

impl View for WiFi {
    type V = WiFiView;

    closed spec fn view(&self) -> WiFiView {
        WiFiView {
            ssid: self.ssid@,
            bssid: self.bssid@,
            bandwidth: self.bandwidth as int,
            channel: self.channel as int,
            signal: self.signal as int,
        }
    }
}

impl DeepView for WiFi {
    type V = WiFiView;

    open spec fn deep_view(&self) -> WiFiView {
        self.view()
    }
}

impl WiFi {
    /// Creates a record with the given field values.
    pub fn new(ssid: &str, bssid: &str, bandwidth: i32, channel: i32, signal: i32) -> (r: Self)
        ensures
            r@ == (WiFiView {
                ssid: ssid@,
                bssid: bssid@,
                bandwidth: bandwidth as int,
                channel: channel as int,
                signal: signal as int,
            }),
    {
        WiFi { ssid: ssid.to_owned(), bssid: bssid.to_owned(), bandwidth, channel, signal }
    }

    pub fn ssid(&self) -> (r: &String)
        ensures
            r@ == self@.ssid,
    {
        &self.ssid
    }

    pub fn bssid(&self) -> (r: &String)
        ensures
            r@ == self@.bssid,
    {
        &self.bssid
    }

    pub fn bandwidth(&self) -> (r: &i32)
        ensures
            *r as int == self@.bandwidth,
    {
        &self.bandwidth
    }

    pub fn channel(&self) -> (r: &i32)
        ensures
            *r as int == self@.channel,
    {
        &self.channel
    }

    pub fn signal(&self) -> (r: &i32)
        ensures
            *r as int == self@.signal,
    {
        &self.signal
    }

    /// Consumes one input line into the accumulating record: a known
    /// `key:value` line replaces that field, anything else changes nothing.
    pub(crate) fn apply_scan_line(&mut self, l: &str)
        ensures
            final(self)@ == crate::parse::apply_line(old(self)@, l@),
    {
        let n = l.unicode_len();
        let p = crate::parse::find_char_in(l, ':');
        if p < n {
            let k = l.substring_char(0, p);
            let v = l.substring_char(p + 1, n);
            proof {
                assert(k@ =~= l@.take(p as int));
                assert(v@ =~= l@.skip(p as int + 1));
            }
            if crate::parse::str_eq(k, "SSID") {
                self.ssid = v.to_owned();
            } else if crate::parse::str_eq(k, "CHAN") {
                self.channel = crate::parse::parse_i32(v);
            } else if crate::parse::str_eq(k, "SIGNAL") {
                self.signal = crate::parse::parse_i32(v);
            } else if crate::parse::str_eq(k, "BW") {
                self.bandwidth = crate::parse::parse_i32(v);
            } else if crate::parse::str_eq(k, "BSSID") {
                self.bssid = v.to_owned();
            }
            // an unknown key is diagnostic only: the record keeps its fields
        }
    }
}

/// The model of a concrete record always has in-range numeric fields.
pub proof fn lemma_wifi_view_in_range(w: &WiFi)
    ensures
        wifi_view_in_range(w@),
{
}

impl Default for WiFi {
    /// The blank record: placeholder identity and a 20-unit channel width.
    fn default() -> (r: Self)
        ensures
            r@ == default_wifi_view(),
    {
        WiFi::new("Default", "FF:FF:FF:FF:FF:FF", 20, 0, 0)
    }
}

impl PartialEq for WiFi {
    fn eq(&self, other: &Self) -> (r: bool) {
        self.ssid == other.ssid && self.bssid == other.bssid && self.bandwidth == other.bandwidth
            && self.channel == other.channel && self.signal == other.signal
    }
}

impl vstd::std_specs::cmp::PartialEqSpecImpl for WiFi {
    open spec fn obeys_eq_spec() -> bool {
        true
    }

    open spec fn eq_spec(&self, other: &Self) -> bool {
        self@ == other@
    }
}

impl Eq for WiFi {}

/// The two frequency bands the display can focus on.
#[derive(Debug, PartialEq, Eq, Structural, Clone, Copy)]
pub enum Band {
    G2,
    G5,
}

/// The band `toggle` switches to.
pub open spec fn spec_toggled(b: Band) -> Band {
    match b {
        Band::G2 => Band::G5,
        Band::G5 => Band::G2,
    }
}

impl Band {
    /// Switches to the other band.
    pub fn toggle(&mut self)
        ensures
            *final(self) == spec_toggled(*old(self)),
    {
        match self {
            Band::G2 => *self = Band::G5,
            Band::G5 => *self = Band::G2,
        }
    }

    /// Human-readable name of the band.
    pub fn label(&self) -> (s: &'static str)
        ensures
            *self is G2 ==> s@ == "2 GHz"@,
            *self is G5 ==> s@ == "5 GHz"@,
    {
        match self {
            Band::G2 => "2 GHz",
            Band::G5 => "5 GHz",
        }
    }
}

impl Default for Band {
    fn default() -> (r: Self)
        ensures
            r == Band::G2,
    {
        Band::G2
    }
}

} // verus!
