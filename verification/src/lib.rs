//! Directory synchronisation by content-defined chunks.

pub mod chunker;
pub mod cli;
pub mod diff;
pub mod dirwalker;
pub mod error;
pub mod key;
pub mod listing;
pub mod path;
pub mod protocol;
pub mod receiver;
pub mod sender;
pub mod snapshot;
pub mod sync;
pub mod text;
pub mod tree;

pub use error::Error;
