//! Synthetic telemetry timeline generator.
//!
//! A fixed population of `(node, query, metric)` tuples is simulated over a
//! configurable number of hours. Randomized disruption periods switch affected
//! tuples from a "regular" to a "disrupted" Gaussian regime. The library
//! builds the lookup tables, drives the hour-by-hour state machine that tags
//! and parameterizes every record, and frames records for the bulk sink; the
//! surrounding binary supplies samples, I/O and threading.

pub mod assembler;
pub mod config;
pub mod dispatch;
pub mod distributions;
pub mod generator;
pub mod query;
pub mod record;
pub mod rng;
pub mod schedule;
pub mod timestamp;
