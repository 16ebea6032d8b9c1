//! An easy file system isolated from the kernel.
pub mod bitmap;
pub mod block_cache;
pub mod block_dev;
pub mod bytes;
pub mod disk;
pub mod efs;
pub mod file_laws;
pub mod laws;
pub mod layout;
pub mod model;
pub mod store;
pub mod tree;
pub mod vfs;
