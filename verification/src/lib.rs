//! Disk-resident volume registry for a storage node: discovers volume data
//! files in a directory by their filename convention, keeps a duplicate-free
//! registry from volume identifier to handle, loads volumes sequentially or
//! in partitioned batches, and removes volumes without forgetting the ones
//! whose on-disk destruction failed.

pub mod types;
pub mod codec;
pub mod location;
pub mod loader;
