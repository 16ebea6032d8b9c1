//! Trap handling functionality.
pub mod context;
pub mod handler;
pub mod laws;
