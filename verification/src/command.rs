//! The commands that the store appends to its log and that the client sends
//! to the server.
use vstd::prelude::*;

verus! {

/// A command of the store: a write (`Put`, the command that `set` makes), a
/// read or a removal of one key.
#[derive(Debug, PartialEq, Eq)]
pub enum Command {
    Put { key: String, value: String },
    Get { key: String },
    Rm { key: String },
}

impl Command {
    /// The command that sets `key` to `value`.
    pub fn set(key: String, value: String) -> (cmd: Command)
        ensures
            cmd == (Command::Put { key, value }),
    {
        Command::Put { key, value }
    }

    /// The command that reads `key`.
    pub fn get(key: String) -> (cmd: Command)
        ensures
            cmd == (Command::Get { key }),
    {
        Command::Get { key }
    }

    /// The command that removes `key`.
    pub fn rm(key: String) -> (cmd: Command)
        ensures
            cmd == (Command::Rm { key }),
    {
        Command::Rm { key }
    }
}

} // verus!
