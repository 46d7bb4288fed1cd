use vstd::prelude::*;

verus! {

/// The work group counts of a compute dispatch.
#[derive(Copy, Clone, Debug, PartialEq, Eq, Structural)]
pub struct ComputePassDispatchInfo {
    pub x: u32,
    pub y: u32,
    pub z: u32,
}

impl ComputePassDispatchInfo {
    pub fn new(x: u32, y: u32, z: u32) -> (r: ComputePassDispatchInfo)
        ensures
            r == (ComputePassDispatchInfo { x, y, z }),
    {
        ComputePassDispatchInfo { x, y, z }
    }

    /// Enough 16 x 16 work groups to cover an image of `width` x `height`
    /// (one more than the whole groups in each direction), one deep.
    pub fn for_size(width: u32, height: u32) -> (r: ComputePassDispatchInfo)
        ensures
            r == (ComputePassDispatchInfo { x: (width / 16 + 1) as u32, y: (height / 16 + 1) as u32, z: 1 }),
    {
        ComputePassDispatchInfo { x: width / 16 + 1, y: height / 16 + 1, z: 1 }
    }
}

} // verus!
