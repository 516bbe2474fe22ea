//! An in-memory, queryable index of entry names collected from a search
//! path.
//!
//! Entry names are concatenated into a single delimited corpus; a
//! generalized suffix table over that corpus answers substring queries,
//! and every occurrence is mapped back to the entry that owns it.

pub mod collect;
pub mod corpus;
pub mod model;
mod suffix_table;
pub mod text;

pub use corpus::AlreadyInitializedError;
pub use corpus::CorpusIndex;
pub use corpus::NotInitializedError;

