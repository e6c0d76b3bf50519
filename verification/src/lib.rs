//! A small persistent vector database: fixed-dimension embeddings keyed by a
//! 64-bit identifier, with metadata, directed links, filtered nearest-neighbour
//! search and a binary file format.

pub mod codec;
pub mod decoder;
pub mod entry;
pub mod error;
pub mod filter;
pub mod format;
pub mod laws;
pub mod links;
pub mod scorer;
pub mod search;
pub mod store;
pub mod text;

pub use crate::entry::Entry;
pub use crate::error::DbError;
pub use crate::links::LinkGraph;
pub use crate::scorer::Hit;
pub use crate::store::DB;
