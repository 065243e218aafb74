//! The effects this library offers.

pub mod laws;
pub mod line;
pub mod order;
pub mod sort;
