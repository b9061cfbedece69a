//! The error type surfaced by the store engine.

use vstd::prelude::*;
use vstd::string::StringExecFns;

verus! {

/// Errors surfaced by the store engine.
#[derive(Debug)]
pub enum RuskError {
    /// A filesystem or I/O failure, carrying its message.  The engine itself
    /// performs no I/O; the caller that does constructs this variant, and the
    /// engine returns it where the bytes handed to it end mid-entry.
    Io(String),
    /// A log payload failed to decode: corruption or an incompatible format.
    Serde,
    /// `remove` was called on a key with no live binding.
    KeyNotFound,
    /// A `get` resolved to a log entry that is not a Set: the index and the
    /// log have diverged.
    UnexpectedCommand,
}

impl RuskError {
    /// Human-readable message for this error.
    pub fn message(&self) -> (r: String)
        ensures
            match self {
                RuskError::Io(m) => r@ == "IO error: "@ + m@,
                RuskError::Serde => r@ == "Serialization error"@,
                RuskError::KeyNotFound => r@ == "Key not found"@,
                RuskError::UnexpectedCommand => r@ == "Unexpected command"@,
            },
    {
        match self {
            RuskError::Io(m) => {
                let mut s = String::from_str("IO error: ");
                s.append(m.as_str());
                s
            },
            RuskError::Serde => String::from_str("Serialization error"),
            RuskError::KeyNotFound => String::from_str("Key not found"),
            RuskError::UnexpectedCommand => String::from_str("Unexpected command"),
        }
    }
}

} // verus!
