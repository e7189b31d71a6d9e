//! Selection of the fastest, most reliable network mirrors from a catalog.
//!
//! The pipeline filters a catalog of candidate mirrors down to the eligible
//! ones, combines each candidate's reported reliability with a measured probe
//! latency into a fitness value, and emits the candidates above an acceptance
//! threshold as an ordered mirror list.  Probing itself is network I/O and is
//! done by the surrounding application; this crate holds the verified logic:
//! eligibility filtering, fitness scoring, and ranking.

pub mod catalog;
pub mod filter;
pub mod pipeline;
pub mod rank;
pub mod score;

pub use catalog::Config;
pub use catalog::IpVersion;
pub use catalog::MirrorRecord;
pub use catalog::ProbeOutcome;
pub use catalog::Protocol;
pub use catalog::FITNESS_HALF;
pub use catalog::FITNESS_ONE;
pub use catalog::MAX_INPUT_MILLI;
pub use filter::Candidate;
pub use filter::filter_catalog;
pub use pipeline::RankedMirror;
pub use pipeline::mirror_line;
pub use pipeline::probe_target;
pub use pipeline::rank_mirrors;
pub use pipeline::score_outcomes;
pub use rank::Scored;
pub use rank::rank_scored;
pub use rank::sort_scored;
pub use score::DECAY_ONE;
pub use score::decay;
pub use score::weighted_score;
