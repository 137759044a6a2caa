//! A discrete-time simulator of how beliefs and behaviours spread through a
//! social network.
//!
//! Every quantity the model calls a real number is held as a fixed-point
//! integer with nine decimal places (see [`fixed`]), so that each step of a
//! run is exact, reproducible and provably inside its bounds.

pub mod entity;
pub mod error;
pub mod fixed;
pub mod ident;
pub mod index;
pub mod json;
pub mod kernel;
pub mod laws;
pub mod loader;
pub mod output;
pub mod performance_relationships;
mod rng;
pub mod runner;
pub mod select;
pub mod table;
