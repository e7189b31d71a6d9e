//! Data model: one candidate mirror, probe outcomes, and the run configuration.

use vstd::prelude::*;

verus! {

/// Largest reliability or latency input the scorer accepts, in thousandths of
/// a unit (thousandths of a second for latency): 100 units, far above any
/// sensible probe timeout.  Inputs beyond this bound do not fit the scorer's
/// fixed-point range.
pub const MAX_INPUT_MILLI: u64 = 100_000;

/// Fitness of a perfect candidate (reliability 0, latency 0); fitness values
/// are fixed-point fractions of this constant.
pub const FITNESS_ONE: u128 = 100_000_000_000_000;

/// Half of `FITNESS_ONE`: the default acceptance threshold (a fitness of 0.5).
pub const FITNESS_HALF: u128 = 50_000_000_000_000;

/// Transport protocol of a mirror's base URL.
#[derive(Clone, Copy, Debug, PartialEq, Eq, Structural)]
pub enum Protocol {
    Http,
    Https,
    Rsync,
    Ftp,
}

/// Internet protocol version a probe is required to use.
#[derive(Clone, Copy, Debug, PartialEq, Eq, Structural)]
pub enum IpVersion {
    V4,
    V6,
}

/// One candidate mirror as read from the catalog document.
///
/// The reliability score is a reporter-supplied indicator of historical sync
/// health (lower is better for the fitness formula), kept in thousandths of a
/// unit; it is absent when the upstream source has no measurement.
#[derive(Debug)]
pub struct MirrorRecord {
    pub url: String,
    pub protocol: Protocol,
    pub active: bool,
    pub reliability_milli: Option<u64>,
    pub ipv4: bool,
    pub ipv6: bool,
    pub country: String,
}

/// Outcome of probing one candidate: a measured round-trip latency in
/// milliseconds, or failure (timeout, connection error, DNS error — the kind
/// is not distinguished here).
#[derive(Clone, Copy, Debug, PartialEq, Eq, Structural)]
pub enum ProbeOutcome {
    Latency(u64),
    Failed,
}

/// Configuration of one ranking run: which candidates are eligible, how long a
/// probe may take, and the fitness a candidate must exceed to be listed.
#[derive(Clone, Copy, Debug)]
pub struct Config {
    pub protocol: Protocol,
    pub ip: IpVersion,
    pub timeout_ms: u64,
    pub threshold: u128,
}

impl Default for Config {
    /// The documented defaults: https over IPv4, a 15 second probe timeout,
    /// and an acceptance threshold of half the maximal fitness.
    fn default() -> (c: Config)
        ensures
            c.protocol == Protocol::Https,
            c.ip == IpVersion::V4,
            c.timeout_ms == 15_000,
            c.threshold == FITNESS_HALF,
    {
        Config { protocol: Protocol::Https, ip: IpVersion::V4, timeout_ms: 15_000, threshold: FITNESS_HALF }
    }
}

} // verus!
