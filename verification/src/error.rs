use vstd::prelude::*;
use vstd::string::*;

verus! {

/// The errors of the store.
#[derive(Debug, Clone, Copy, PartialEq, Eq, Structural)]
pub enum KvsError {
    /// Removing a key that the log does not hold.
    KeyNotFound,
    /// A command of an unexpected kind, which means a corrupted log or a bug.
    UnexpectedCommandType,
}

impl KvsError {
    /// The message that describes the error.
    pub open spec fn message(self) -> Seq<char> {
        match self {
            KvsError::KeyNotFound => "Key not found"@,
            KvsError::UnexpectedCommandType => "Unexpected command type"@,
        }
    }

    /// The message of the error, as a `String`.
    pub fn to_string(&self) -> (s: String)
        ensures
            s@ == self.message(),
    {
        match self {
            KvsError::KeyNotFound => String::from_str("Key not found"),
            KvsError::UnexpectedCommandType => String::from_str("Unexpected command type"),
        }
    }
}

} // verus!
