//! Scoring of grid-partitioning contest submissions, with machine-checked contracts.

pub mod error;
pub mod number;
pub mod pizza;
pub mod registry;
pub mod response;
pub mod route;
pub mod text;

pub use registry::ProblemKey;
