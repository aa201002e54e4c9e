//! Dark chess (banqi) rules engine.
pub mod env;
pub mod expectimax;
pub mod mcts;
