//! A persistent key-value store built on an append-only command log with an
//! in-memory key directory.
//!
//! Every mutation is appended to a log segment as one serialized record;
//! the key directory maps each live key to the position of its latest `Set`
//! record; recovery replays the segments in order; compaction rewrites the
//! live records into fresh segments and deletes the old ones once the active
//! segment reaches a size threshold.
//!
//! The store in [`store::KvStore`] holds the log's contents and is verified:
//! its observable state is a map from key to value, replaying its segments
//! always rebuilds exactly its directory, and the queue of mirror effects it
//! hands out describes, step by step, how to keep a real directory of files
//! identical to it. The surrounding process performs the file reads and
//! writes.
//!
//! Sizes and offsets are counted in characters, not bytes: segments are
//! UTF-8 text, the shell reads and writes them as text, and the engine only
//! ever reads positions it recorded itself, so the two stay consistent. The
//! size threshold is a heuristic gate either way.

#![allow(unused_imports)]
use vstd::prelude::*;

pub mod codec;
pub mod keydir;
pub mod names;
pub mod segment;
pub mod store;

pub use store::KvStore;

verus! {

/// The closed error taxonomy of the store.
///
/// `Io` stands for the resource failures of the surrounding process; in this
/// core, which holds the log in memory, it arises only when the space of
/// segment identifiers is exhausted.
#[derive(Debug, Clone, Copy, PartialEq, Eq, Structural)]
pub enum KvSError {
    /// An empty key was passed to `set` or `remove`.
    KeyNotProvided,
    /// `remove` was invoked on a key absent from the key directory.
    KeyNotFound,
    /// A segment holds a line that does not decode to a command record.
    Corruption,
    /// A resource of the surrounding process gave out.
    Io,
}

pub type CommandResult<T> = Result<T, KvSError>;

} // verus!
