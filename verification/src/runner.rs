//! The runner: its settings, and how results are reported.
pub mod builder;
pub mod render;
