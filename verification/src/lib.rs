//! Measurement core for a download speed test: latency-based server
//! ranking, windowed throughput sampling, and aggregation of per-server
//! rates. Network transport is supplied by callers; everything here works
//! on plain values.

pub mod config;
pub mod latency;
pub mod meter;
pub mod ranker;
pub mod sampler;

pub use config::DSLReportsResponse;
pub use config::DSLReportsResponsePrefs;
pub use latency::Latency;
pub use latency::PingResult;
pub use meter::AggregateMeter;
pub use ranker::rank;
pub use sampler::Chunk;
pub use sampler::RateSample;
pub use sampler::ThroughputSampler;
