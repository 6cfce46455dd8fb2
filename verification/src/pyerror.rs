//! The error that the Python bindings raise.
use crate::error::{triplclust_message, TriplclustError};
use vstd::prelude::*;

verus! {

/// Error handed to the Python bindings: a pipeline error, unchanged.
#[derive(Debug, Clone)]
pub enum PyTriplclustError {
    Triplclust(TriplclustError),
}

impl From<TriplclustError> for PyTriplclustError {
    fn from(value: TriplclustError) -> (r: Self) {
        PyTriplclustError::Triplclust(value)
    }
}

impl vstd::std_specs::convert::FromSpecImpl<TriplclustError> for PyTriplclustError {
    open spec fn obeys_from_spec() -> bool {
        true
    }

    open spec fn from_spec(v: TriplclustError) -> Self {
        PyTriplclustError::Triplclust(v)
    }
}

impl PyTriplclustError {
    /// The message of the wrapped pipeline error.
    pub fn message(&self) -> (s: String)
        ensures
            match *self {
                PyTriplclustError::Triplclust(inner) => s@ == triplclust_message(inner),
            },
    {
        match self {
            PyTriplclustError::Triplclust(inner) => inner.message(),
        }
    }
}

} // verus!
