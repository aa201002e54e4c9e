//! Interface types of the MCTS evaluator.
pub mod evaluator;
