//! Three-level bloom filter index.
//!
//! Blooms are inserted under consecutive record indices, buffered in an
//! append log, and promoted by a flush into three record stores of growing
//! coarseness. A range query walks the three stores in lock-step and skips
//! every block whose summary cannot hold the bloom asked for.
//!
//! The index works on values in memory: the bytes of its five persisted
//! parts are handed in on open and read back after an insert or a flush.

pub mod bloom;
pub mod db;
pub mod error;
pub mod file;
pub mod matching;
pub mod meta;
pub mod pending;
pub mod replay;
pub mod scan;

pub use bloom::Bloom;
pub use db::{Database, DatabaseIterator};
pub use error::Error;
pub use file::{File, FileIterator};
pub use meta::Meta;
pub use pending::{Pending, PendingIterator};
