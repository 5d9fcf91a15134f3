use vstd::prelude::*;

verus! {

/// An unsigned integer 3-vector: a voxel key, or the block size of the
/// table's linearization.
#[derive(Debug, Clone, Copy, PartialEq, Eq, Structural)]
pub struct UVec3 {
    pub x: u32,
    pub y: u32,
    pub z: u32,
}

/// A signed integer 3-vector: a voxel position in world coordinates,
/// before the bias that makes it non-negative.
#[derive(Debug, Clone, Copy, PartialEq, Eq, Structural)]
pub struct IVec3 {
    pub x: i32,
    pub y: i32,
    pub z: i32,
}

impl UVec3 {
    pub fn new(x: u32, y: u32, z: u32) -> (r: UVec3)
        ensures
            r == (UVec3 { x, y, z }),
    {
        UVec3 { x, y, z }
    }
}

impl IVec3 {
    pub fn new(x: i32, y: i32, z: i32) -> (r: IVec3)
        ensures
            r == (IVec3 { x, y, z }),
    {
        IVec3 { x, y, z }
    }
}

/// Reinterprets each component as unsigned, as `as u32` does.
pub fn i32_to_u32_vec(in_val: IVec3) -> (r: UVec3)
    ensures
        r.x == in_val.x as u32,
        r.y == in_val.y as u32,
        r.z == in_val.z as u32,
{
    UVec3 { x: in_val.x as u32, y: in_val.y as u32, z: in_val.z as u32 }
}

} // verus!
