//! Telemetry ingestion and aggregation: deployment reports are recorded in a
//! store, and aggregate statistics (counts, breakdowns, average startup time,
//! recent records, time buckets) are computed from what the store holds.

mod clock;
pub mod config;
pub mod db;
pub mod handlers;
pub mod laws;
pub mod models;
