//! A networked file archive: upload, delete and list files, and stream
//! case-insensitive substring searches over the stored corpus.
//!
//! The crate holds the verified core of the system: the wire framing, the
//! bounded-memory sliding-window search engine, the transfer accounting, the
//! progress/throttle bookkeeping, the metadata catalogue, and the per-command
//! session state machines.  Socket and file handling, the SQLite-backed
//! catalogue, and the interactive client live outside the library and drive
//! these functions with plain values.

pub mod client;
pub mod events;
pub mod progress;
pub mod search;
pub mod session;
pub mod store;
pub mod text;
pub mod transfer;
pub mod wire;
