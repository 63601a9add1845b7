//! A log-structured key/value store: the commands it records, the naming of
//! its log files, and the decisions that its engine takes on them.
use vstd::prelude::*;

pub mod command;
mod error;
pub mod laws;
pub mod log_files;
pub mod store;

pub use command::Command;
pub use error::KvsError;
pub use store::{CommandPos, KvStore};

verus! {

/// The result of the store's operations.
pub type Result<T> = core::result::Result<T, KvsError>;

/// The client side of the store's network protocol.
pub struct KvsClient {}

/// The server side of the store's network protocol.
pub struct KvsServer {}

/// An engine backed by an embedded database.
pub struct SledKvsEngine {}

} // verus!
