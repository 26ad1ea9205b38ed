use vstd::prelude::*;

verus! {

/// A 2D vector of signed integers, used for positions in the XZ plane.
/// As in common math crates, the second component is named `y`; when the
/// vector addresses the horizontal plane of the world it holds the z
/// coordinate.
#[derive(Copy, Clone, PartialEq, Eq, Structural, Debug)]
pub struct IVec2 {
    pub x: i32,
    pub y: i32,
}

/// A 3D vector of signed integers, used for voxel positions.
#[derive(Copy, Clone, PartialEq, Eq, Structural, Debug)]
pub struct IVec3 {
    pub x: i32,
    pub y: i32,
    pub z: i32,
}

impl IVec2 {
    pub fn new(x: i32, y: i32) -> (r: IVec2)
        ensures
            r.x == x,
            r.y == y,
    {
        IVec2 { x, y }
    }
}

impl IVec3 {
    pub fn new(x: i32, y: i32, z: i32) -> (r: IVec3)
        ensures
            r.x == x,
            r.y == y,
            r.z == z,
    {
        IVec3 { x, y, z }
    }

    /// The XZ components, as a 2D vector.
    pub fn xz(&self) -> (r: IVec2)
        ensures
            r.x == self.x,
            r.y == self.z,
    {
        IVec2 { x: self.x, y: self.z }
    }
}

} // verus!
