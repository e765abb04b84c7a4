//! The speed-enforcement server: cameras report plate sightings, the
//! region turns them into tickets, and dispatchers receive the tickets of
//! the roads they cover.

pub mod domain;
pub mod records;
pub mod issued;
pub mod desks;
pub mod roads;
pub mod history;
pub mod connection;
pub mod server;
