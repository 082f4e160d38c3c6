//! Integer routines.
pub mod general;
