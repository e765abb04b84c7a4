//! The chat room: who may enter it, who is in it, and what is said.

pub mod person;
pub mod room;
