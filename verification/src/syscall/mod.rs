//! The system calls.
pub mod call_laws;
pub mod file_laws;
pub mod fs;
pub mod laws;
pub mod process;
