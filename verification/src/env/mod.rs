pub mod actions;
pub mod board;
pub mod config;
pub mod error;
pub mod rule_laws;
pub mod rules;
pub mod seed;
pub mod snapshot;
pub mod traits;
pub mod variants;
pub mod types;
