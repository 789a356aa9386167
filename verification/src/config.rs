//! The provider's configuration document, as the measurement core reads
//! it: plain values only. The one field the ranking pipeline consumes
//! is `servers`, the candidate base URLs; the rest travels along so a
//! caller can inspect what the provider answered. Fetching and decoding
//! the document over the wire is the transport layer's job.

use vstd::prelude::*;

verus! {

/// Preference flags of the provider's configuration response.
#[derive(Debug)]
pub struct DSLReportsResponsePrefs {
    pub ipv6: u8,
    pub https: u8,
}

/// The provider's configuration response. `servers` lists the candidate
/// measurement servers' base URLs, the input of a ranking run.
#[derive(Debug)]
pub struct DSLReportsResponse {
    pub locations: Vec<String>,
    pub plat: String,
    pub server_rids: Vec<String>,
    pub locations_short: Vec<String>,
    pub key: String,
    pub ports: Vec<String>,
    pub prefs: DSLReportsResponsePrefs,
    pub dnsdom: Option<String>,
    pub servers: Vec<String>,
    pub ipaddr: String,
}

} // verus!
