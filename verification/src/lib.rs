//! A small teaching operating system: the `easy_fs` file system and the parts of
//! the kernel around it that compute rather than touch hardware.
pub mod batch;
pub mod config;
pub mod drivers;
pub mod easy_fs;
pub mod fs;
pub mod link_app;
pub mod loader;
pub mod mm;
pub mod pack;
pub mod syscall;
pub mod task;
pub mod trap;
