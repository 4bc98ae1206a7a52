//! Typed errors of the memory layer.

use vstd::prelude::*;
use vstd::string::StringExecFns;

use crate::text::str_join;

verus! {

/// What can go wrong in the memory layer.
#[derive(Debug)]
pub enum MemoryError {
    /// A failure reported by the storage collaborator, tagged with the
    /// operation that hit it.
    Storage {
        /// The storage operation that failed.
        operation: String,
        /// A description of the underlying failure.
        cause: String,
    },
    /// A structured-document encode/decode mismatch.
    Serialization {
        /// The operation during which the mismatch surfaced.
        operation: String,
    },
    /// An input rejected before any storage work was done.
    Validation {
        /// The offending field.
        field: String,
        /// The rule it broke.
        rule: String,
        /// What was observed instead.
        observed: String,
    },
    /// A failure of an outside collaborator (language model, embedder),
    /// wrapped with the operation name for diagnostics.
    Service {
        /// The collaborator operation that failed.
        operation: String,
        /// A description of the underlying failure.
        cause: String,
    },
}

impl MemoryError {
    /// A human-readable description of the error.
    pub fn message(&self) -> String {
        match self {
            MemoryError::Storage { operation, cause } => {
                let mut m = str_join("storage failure in ", operation.as_str());
                m.append(": ");
                m.append(cause.as_str());
                m
            },
            MemoryError::Serialization { operation } => {
                str_join("serialization failure in ", operation.as_str())
            },
            MemoryError::Validation { field, rule, observed } => {
                let mut m = str_join("validation failure: ", field.as_str());
                m.append(" ");
                m.append(rule.as_str());
                m.append(", got ");
                m.append(observed.as_str());
                m
            },
            MemoryError::Service { operation, cause } => {
                let mut m = str_join("collaborator failure in ", operation.as_str());
                m.append(": ");
                m.append(cause.as_str());
                m
            },
        }
    }
}

} // verus!
