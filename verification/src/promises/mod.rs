//! What each operation promises, written out over the rows, frames and numbers
//! that it takes and gives.

pub mod acknowledging;
pub mod client;
pub mod connections;
pub mod keeping;
pub mod locks;
pub mod queueing;
pub mod rows;
pub mod values;
