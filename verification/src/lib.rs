//! Text data loading: records, batching, tensorization and whitespace utilities.

pub mod data;
pub mod error;
pub mod unicode;
pub mod utils;
pub mod whitespace;
