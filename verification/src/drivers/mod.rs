//! What the drivers of devices need of the memory.
pub mod virtio_blk;
