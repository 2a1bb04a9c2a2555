//! A versioned associative index: each key keeps an append-only timeline of
//! values ordered by context, answered by floor lookups, while a reverse index
//! guarantees that no value is live under two keys at once.
pub mod context_map;
pub mod error;
pub mod history;

pub use context_map::ContextMap;
pub use error::ContextError;
pub use history::Registry;
