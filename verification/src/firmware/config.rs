//! The settings of a node.
use vstd::prelude::*;

verus! {

/// The settings of a node.
pub struct Config {
    /// The name of the network that a node opens, and by which it knows others.
    pub softap_prefix: &'static str,
    /// Report channel state of all frames, not only of those to this node.
    pub promi_en: bool,
    /// The milliseconds between two ranging sessions with a peer.
    pub contact_interval_ms: u64,
}

impl Config {
    /// The settings that a node starts with.
    pub fn new() -> (r: Self)
        ensures
            r.softap_prefix@ == "ESP_LOCALIZATION_TEST"@,
            !r.promi_en,
            r.contact_interval_ms == 5000,
    {
        Config {
            softap_prefix: "ESP_LOCALIZATION_TEST",
            promi_en: false,
            contact_interval_ms: 5000,
        }
    }
}

} // verus!
