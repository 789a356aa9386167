//! Round-trip latency of one probe, with an explicit sentinel for
//! unreachable servers, and a total order that places the sentinel after
//! every finite value.

use vstd::prelude::*;

verus! {

/// Outcome of one latency probe: either a round-trip time in
/// nanoseconds, or the sentinel for a server that could not be reached.
/// The sentinel orders after every finite latency.
#[derive(Clone, Copy, Debug, PartialEq, Eq, Structural)]
pub enum Latency {
    Reachable(u64),
    Unreachable,
}

/// Total order on latencies: finite values by magnitude, `Unreachable`
/// at least as great as everything.
pub open spec fn latency_le(a: Latency, b: Latency) -> bool {
    match (a, b) {
        (Latency::Reachable(x), Latency::Reachable(y)) => x <= y,
        (Latency::Reachable(_), Latency::Unreachable) => true,
        (Latency::Unreachable, Latency::Reachable(_)) => false,
        (Latency::Unreachable, Latency::Unreachable) => true,
    }
}

/// The order is total: any two latencies compare, so sorting by it can
/// never fail on any pair of probe outcomes.
pub proof fn lemma_latency_order_total(a: Latency, b: Latency)
    ensures
        latency_le(a, b) || latency_le(b, a),
        latency_le(a, a),
{
}

impl Latency {
    /// Decides `latency_le` on concrete values.
    pub fn leq(self, other: Latency) -> (r: bool)
        ensures
            r == latency_le(self, other),
    {
        match (self, other) {
            (Latency::Reachable(x), Latency::Reachable(y)) => x <= y,
            (Latency::Reachable(_), Latency::Unreachable) => true,
            (Latency::Unreachable, Latency::Reachable(_)) => false,
            (Latency::Unreachable, Latency::Unreachable) => true,
        }
    }

    /// True on the sentinel alone.
    pub fn is_unreachable(self) -> (r: bool)
        ensures
            r == (self is Unreachable),
    {
        match self {
            Latency::Reachable(_) => false,
            Latency::Unreachable => true,
        }
    }
}

/// One probed server: its base URL and the latency the probe measured.
#[derive(Debug)]
pub struct PingResult {
    pub server: String,
    pub latency: Latency,
}

impl PingResult {
    /// Builds the record for one finished probe. A probe that got any
    /// response at all reports the elapsed time between issuing the
    /// request and the response arriving; a failed or timed-out probe
    /// reports `Unreachable` instead of an error, so one dead server
    /// never aborts a ranking run.
    pub fn from_probe(server: String, start_ns: u64, finish_ns: Option<u64>) -> (r: PingResult)
        requires
            finish_ns is Some ==> finish_ns.unwrap() >= start_ns,
        ensures
            r.server == server,
            r.latency == (match finish_ns {
                Some(f) => Latency::Reachable((f - start_ns) as u64),
                None => Latency::Unreachable,
            }),
    {
        match finish_ns {
            Some(f) => PingResult { server, latency: Latency::Reachable(f - start_ns) },
            None => PingResult { server, latency: Latency::Unreachable },
        }
    }
}

} // verus!
