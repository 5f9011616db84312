//! Scheduling logic of a reinforcement-learning fuzzing driver for Ethereum
//! consensus clients: corpus binning, sampling and pruning, arm bookkeeping,
//! metric parsing and the decisions of the differential harnesses.
pub mod bins;
pub mod commands;
pub mod config;
pub mod coverage;
pub mod diff;
pub mod engine;
pub mod metrics;
pub mod report;
pub mod text;
