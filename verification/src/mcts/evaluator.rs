//! Errors of a batch evaluation: a failing inference backend, or a model output that
//! breaks the forward contract. Evaluation reports them instead of panicking or quietly
//! falling back to a uniform policy.

use vstd::prelude::*;

verus! {

/// A failed batch evaluation, with its message.
#[derive(Debug, Clone, PartialEq, Eq)]
pub struct EvaluatorError(String);

impl View for EvaluatorError {
    type V = Seq<char>;

    closed spec fn view(&self) -> Seq<char> {
        self.0@
    }
}

impl EvaluatorError {
    /// An error with the given message.
    pub fn new(message: &str) -> (r: Self)
        ensures
            r@ == message@,
    {
        EvaluatorError(String::from_str(message))
    }

    /// The message.
    pub fn message(&self) -> (r: &str)
        ensures
            r@ == self@,
    {
        self.0.as_str()
    }
}

} // verus!
