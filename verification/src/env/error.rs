//! Errors of the game environment.

use vstd::prelude::*;

verus! {

/// Errors that environment operations report instead of panicking.
#[derive(Debug, Clone, PartialEq, Eq)]
pub enum EnvError {
    /// The action is not in the current legal action set (or out of range).
    IllegalAction { action: usize },
    /// An internal invariant is broken; carries the place where it was detected.
    BrokenInvariant { context: &'static str },
    /// A position snapshot payload is malformed: truncated bytes, an unknown
    /// version, or content that does not fit its variant. This is an input
    /// problem, not a defect of the engine.
    InvalidSnapshot { context: &'static str },
}

impl EnvError {
    /// The variant's fixed description, without the payload.
    pub fn kind_name(&self) -> (r: &'static str)
        ensures
            self is IllegalAction ==> r@ == "illegal action"@,
            self is BrokenInvariant ==> r@ == "broken environment invariant"@,
            self is InvalidSnapshot ==> r@ == "invalid position snapshot"@,
    {
        match self {
            EnvError::IllegalAction { .. } => "illegal action",
            EnvError::BrokenInvariant { .. } => "broken environment invariant",
            EnvError::InvalidSnapshot { .. } => "invalid position snapshot",
        }
    }
}

} // verus!
