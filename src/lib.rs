//! A fixed-capacity spatial hash table over voxel coordinates, an object
//! registry that voxelizes object footprints into it, and the alignment links
//! between registered objects.

pub mod demos;
pub mod error;
pub mod gpu_hash;
pub mod palette;
pub mod polarization;
pub mod util;
pub mod world;
