//! Error types for Apofasi core operations.

use vstd::prelude::*;

use crate::text::{append_str, decimal, push_decimal, string_of};

verus! {

/// Apofasi errors. Callers should treat these as actionable, not panics.
#[derive(Debug, Clone, PartialEq, Eq)]
pub enum Error {
    /// Question schema is incomplete or inconsistent.
    InvalidQuestion {
        /// Question id.
        id: String,
        /// Human-readable reason.
        reason: String,
    },
    /// Sequence packing exhausted the option token budget.
    HeadBudgetExceeded {
        /// Question id.
        id: String,
        /// Configured head budget.
        head_max_len: usize,
    },
    /// Unknown checkpoint name or alias.
    UnknownCheckpoint {
        /// Provided name.
        name: String,
    },
    /// JSON state serialization failure (the encoder's message).
    StateSerialize(String),
    /// Checkpoint directory or files are missing / incompatible.
    Checkpoint(String),
    /// Neural inference backend failure.
    Infer(String),
}

/// Convenient result alias.
pub type Result<T> = core::result::Result<T, Error>;

/// The human-readable message of an error.
pub open spec fn error_message(e: Error) -> Seq<char> {
    match e {
        Error::InvalidQuestion { id, reason } => "invalid question `"@ + id@ + "`: "@ + reason@,
        Error::HeadBudgetExceeded { id, head_max_len } => "question `"@ + id@
            + "` options exceed head_max_len="@ + decimal(head_max_len as nat),
        Error::UnknownCheckpoint { name } => "unknown checkpoint `"@ + name@ + "`"@,
        Error::StateSerialize(m) => "state serialization failed: "@ + m@,
        Error::Checkpoint(m) => "checkpoint error: "@ + m@,
        Error::Infer(m) => "inference error: "@ + m@,
    }
}

impl Error {
    /// The human-readable message (what the error displays).
    pub fn message(&self) -> (r: String)
        ensures
            r@ == error_message(*self),
    {
        let mut out: Vec<char> = Vec::new();
        match self {
            Error::InvalidQuestion { id, reason } => {
                append_str(&mut out, "invalid question `");
                append_str(&mut out, id.as_str());
                append_str(&mut out, "`: ");
                append_str(&mut out, reason.as_str());
            },
            Error::HeadBudgetExceeded { id, head_max_len } => {
                append_str(&mut out, "question `");
                append_str(&mut out, id.as_str());
                append_str(&mut out, "` options exceed head_max_len=");
                push_decimal(&mut out, *head_max_len);
            },
            Error::UnknownCheckpoint { name } => {
                append_str(&mut out, "unknown checkpoint `");
                append_str(&mut out, name.as_str());
                append_str(&mut out, "`");
            },
            Error::StateSerialize(m) => {
                append_str(&mut out, "state serialization failed: ");
                append_str(&mut out, m.as_str());
            },
            Error::Checkpoint(m) => {
                append_str(&mut out, "checkpoint error: ");
                append_str(&mut out, m.as_str());
            },
            Error::Infer(m) => {
                append_str(&mut out, "inference error: ");
                append_str(&mut out, m.as_str());
            },
        }
        proof {
            let e = *self;
            assert(out@ =~= error_message(e));
        }
        string_of(out.as_slice())
    }
}

} // verus!
