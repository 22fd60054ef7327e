//! What holds of the commands taken together.

pub mod chatting;
pub mod commanding;
pub mod consistency;
pub mod counting;
pub mod dating;
pub mod numerals;
pub mod pruning;
pub mod recalling;
pub mod replacing;
pub mod searching;
pub mod settling;
pub mod showing;
