//! Runs and supervises the processes that a flake defines: they start in dependency order, each
//! gated on the readiness of what it depends on, and all of them are torn down in the end.
//!
//! The library decides; it does no input or output. A program around it starts processes, sends
//! signals and waits, and tells the library what came of it.

pub mod child;
pub mod cli;
pub mod config;
pub mod flake;
pub mod graph;
pub mod health;
pub mod log;
pub mod names;
pub mod number;
pub mod recovery_laws;
pub mod run;
pub mod run_laws;
pub mod signals;
pub mod state;
pub mod step_laws;
pub mod supervisor;
pub mod text;
