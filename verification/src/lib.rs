//! Incremental, resumable bulk file transfer: the verified core.
//!
//! The library holds the logic of a one-directional file mover: the durable
//! tracker (write-ahead log plus compacted snapshot of transferred files),
//! the listing-and-filter pipeline that decides which files to move, the
//! byte-copy engine, and the option parsing. File handles, network sessions
//! and threads live outside the library and hand it plain values.

pub mod copier;
pub mod lister;
pub mod options;
pub mod stats;
pub mod text;
pub mod track;
pub mod vfs;
