use vstd::prelude::*;

verus! {

/// A uniform buffer descriptor whose writes have been made.
#[derive(Debug)]
pub struct UniformDescriptor {}

} // verus!
