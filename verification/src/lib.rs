//! An API health-monitoring and progressive load-testing engine: endpoint
//! configuration and its validation and interpolation, the health-check and
//! load-test task model, the ramp/retry/aggregation state machine of the
//! load generator, the ordered-group scheduler, and the concurrency-safe
//! result store, each with a proved contract. The binary around this
//! library performs the HTTP traffic and serves the results.

pub mod appstate;
pub mod config;
pub mod factory;
pub mod interpolate;
pub mod loadgen;
pub mod tasks;
