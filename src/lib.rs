//! An embedded, log-structured key-value store for string keys and values.
//!
//! The library holds the storage engine as verified logic: the record codec,
//! the replay of log segments into the index, the write path, compaction, and
//! the naming of segment files. Reading and writing the files themselves is
//! left to the caller, who hands the engine the bytes it reads and performs the
//! writes the engine asks for.

pub mod error;
pub mod codec;
pub mod index;
pub mod kv;
pub mod segment;
pub mod cli;
pub mod laws;

pub use error::{KvsError, Result};
pub use codec::Command;
pub use index::{CommandPos, KeyIndex};
pub use kv::{load, Compaction, KvStore, COMPACTION_THRESHOLD};
pub use segment::{decimal_string, log_path, parse_gen, sorted_gen_list};
