//! Verified building blocks of a collection of small network servers.
//!
//! The largest of them is the speed-enforcement server in [`speed`]:
//! cameras report sightings of plates, a region turns them into tickets,
//! and dispatchers receive the tickets of their roads. Beside it stand
//! the parts of smaller servers: a chat room and its people in [`chat`], a
//! key-value store in [`kv`], the messages of a session protocol over
//! datagrams in [`lrcp`], and a ledger of prices in [`means`].

pub mod assoc;
pub mod bytes;
pub mod chat;
pub mod kv;
pub mod lrcp;
pub mod means;
pub mod speed;
