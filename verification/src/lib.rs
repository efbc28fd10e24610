//! A durable relay: two endpoints of a channel exchange opaque JSON payloads,
//! and the relay keeps every message until the receiving devices acknowledge it.

pub mod client;
pub mod clock;
pub mod config;
pub mod consistency;
pub mod database;
pub mod delivery;
pub mod digest;
pub mod durability;
pub mod entity;
pub mod frame;
pub mod hub;
pub mod ids;
pub mod isolation;
pub mod journal;
pub mod keyed_lock;
pub mod operation;
pub mod payload;
pub mod promises;
pub mod replay;
pub mod retention;
pub mod server;
pub mod table;
pub mod tables;
pub mod text;
