//! Array-backed structures.

pub mod bit_array;
pub mod dyn_array;
pub mod gap_buffer;
pub mod gap_laws;
pub mod gap_model;
