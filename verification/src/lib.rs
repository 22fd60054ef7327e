//! Long-term memory store.
//!
//! Entries are text with an embedding vector, under a theme and perhaps in a chat
//! session. The store holds the rows of the database in memory, with an index of
//! the vectors, and carries out commands on them: see [`command`]. What the
//! commands keep and undo is stated in [`laws`].

pub mod calendar;
mod clock;
pub mod codec;
pub mod command;
pub mod ids;
pub mod index;
pub mod json;
pub mod laws;
pub mod listing;
pub mod mementos;
pub mod numbers;
pub mod recall;
pub mod retention;
pub mod rows;
pub mod search;
pub mod sessions;
pub mod startup;
pub mod store;
pub mod tables;
pub mod text;
pub mod writing;
