//! Process management.
pub mod context;
pub mod id;
pub mod signal;
pub mod machine;
pub mod task;
pub mod exec;
pub mod table;
pub mod manager;
pub mod processor;
pub mod kernel;
pub mod laws;
pub mod process_laws;
pub mod sched;
pub mod lifecycle;
pub mod current;
