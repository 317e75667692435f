//! Four-layer memory for agents: working memory, short-term memory, semantic
//! memory and an archive.
//!
//! The library holds the logic of all layers. It reads no file, opens no
//! connection and keeps no table on disk: a caller does, hands in what it read
//! and carries out what the library says.

pub mod api;
pub mod bm25;
pub mod clock;
pub mod common;
pub mod config;
pub mod embed;
pub mod errors;
pub mod fusion;
pub mod ident;
pub mod l0;
pub mod l1;
pub mod l2;
pub mod l3;
pub mod laws;
pub mod legacy;
pub mod migrate;
pub mod notes;
pub mod openclaw;
pub mod roundtrip;
pub mod sort;
pub mod system;
pub mod table;
pub mod text;
pub mod wal;

pub use common::{Entry, Importance, Layer, MemoryStats, RecallRequest, RecallResult};
pub use config::Config;
pub use errors::MemoryError;
pub use system::MemorySystem;
