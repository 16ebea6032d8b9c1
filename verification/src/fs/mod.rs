//! Files as a process sees them: inodes, pipes, and the console.
pub mod file;
pub mod inode;
pub mod pipe;
pub mod stdio;
