//! The units that compute addresses and access memory.

pub mod address;
pub mod memory;
