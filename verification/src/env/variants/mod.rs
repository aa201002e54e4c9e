//! Variant environments: thin wrappers around `DarkChessEnv` with fixed rules.
pub mod game4x4;
pub mod mini_darkchess;
pub mod curriculum;
