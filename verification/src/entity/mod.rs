//! The rows that the relay keeps.

pub mod counter;
pub mod device;
pub mod pending_message;
pub mod receipt;
