//! A write-ahead log that acts as a durable queue: entries are pushed to
//! the back, popped from the front, and acknowledged once they are
//! processed. The log is kept in chunks, each the image of one file, and an
//! acknowledgement lets go the chunks in which every entry is acknowledged.
//!
//! The library holds the chunks as bytes and does no input or output of its
//! own: [`Wal::open`] takes the files of a directory, and [`Wal::close`]
//! hands them back.
//!
//! - [`bytes`]: numbers as big-endian bytes
//! - [`record`]: the records of a chunk and their frames
//! - [`file`]: one chunk and its cursors
//! - [`names`]: the names of chunk files
//! - [`log`]: the state of a log and what each operation makes of it
//! - [`wal`]: the log
//! - [`entry`]: what can be stored in the log
//! - [`error`]: what can go wrong
//! - [`chain`]: chunks whose records are in order
//! - [`order`]: logs that are in order: pushes, pops and acknowledgements
//! - [`recovery`]: logs that are in order: seeking, reverting and reopening
//! - [`acks`]: logs whose acknowledged indices ascend
//! - [`runs`]: logs in order through sequences of calls

pub mod acks;
pub mod bytes;
pub mod chain;
pub mod entry;
pub mod error;
pub mod file;
pub mod log;
pub mod names;
pub mod order;
pub mod record;
pub mod recovery;
pub mod runs;
pub mod wal;

pub use entry::Entry;
pub use error::Error;
pub use file::WalFile;
pub use wal::Wal;
