//! A log-structured key/value store in the style of Bitcask: the on-disk
//! record formats, the in-memory key directory, recovery from segment and
//! hint files, and the merge that condenses live data into one segment.
//! The file system itself is driven by the caller; every decision about
//! what to write, where, and what the key directory becomes is made here.
pub mod codec;
pub mod keydir;
pub mod naming;
pub mod recovery;
pub mod error;
pub mod engine;
pub mod model;
