//! A production-network policy optimizer.
//!
//! A specification describes stocks (resource types with integer
//! quantities) and processes (rules that consume stock quantities and,
//! after a fixed duration, produce other quantities).  A deterministic
//! event-driven simulator plays one candidate policy (a genome of
//! priority keys plus tuning parameters) forward to a time horizon and
//! scores it by the final quantity of a designated target stock.  An
//! island-based evolutionary search proposes, evaluates and refines
//! populations of such genomes.

pub mod domain;
pub mod genome;
pub mod model;
pub mod sim;
pub mod laws;
pub mod rng;
pub mod ga;
pub mod parser;
