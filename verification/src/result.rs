//! The errors of the executor.
use vstd::prelude::*;
use crate::executor::blend::BlendError;

verus! {

/// Why an evaluated expression could not be used.
#[derive(Debug, PartialEq)]
pub enum EvaluateError {
    /// The expression evaluated to something that is not one scalar.
    ScalarExpected,
    /// The evaluator failed; the text is its own.
    Failed(String),
}

/// Every failure that the executor reports.
#[derive(Debug, PartialEq)]
pub enum Error {
    Blend(BlendError),
    /// The storage knows no table of the name asked for.
    SchemaNotFound,
    /// The storage failed; the text is its own.
    Storage(String),
    /// The predicate check failed; the text is its own.
    Filter(String),
    Evaluate(EvaluateError),
}

impl Clone for EvaluateError {
    fn clone(&self) -> (copy: Self)
        ensures
            copy == *self,
    {
        match self {
            EvaluateError::ScalarExpected => EvaluateError::ScalarExpected,
            EvaluateError::Failed(reason) => EvaluateError::Failed(reason.clone()),
        }
    }
}

impl Clone for Error {
    fn clone(&self) -> (copy: Self)
        ensures
            copy == *self,
    {
        match self {
            Error::Blend(error) => Error::Blend(error.clone()),
            Error::SchemaNotFound => Error::SchemaNotFound,
            Error::Storage(reason) => Error::Storage(reason.clone()),
            Error::Filter(reason) => Error::Filter(reason.clone()),
            Error::Evaluate(error) => Error::Evaluate(error.clone()),
        }
    }
}

} // verus!
