//! The broker's wire data: what clients send, what the broker sends back, and
//! the values, DOM patches, operations and captured calls those carry.
//!
//! Floating-point components travel here as their IEEE-754 bit patterns
//! (`f32::to_bits` / `f64::to_bits`), so every value is held exactly.

pub mod value;
pub mod dom;
pub mod operation;
pub mod remote;
pub mod messages;
pub mod transport;
pub mod handshake;



