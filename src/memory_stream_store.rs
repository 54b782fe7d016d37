//! The in-memory store: a single message log and the position indices derived from it.

pub mod index;
pub mod store;
pub mod laws;
