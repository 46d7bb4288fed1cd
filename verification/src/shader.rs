use vstd::prelude::*;

verus! {

/// The shader stage a shader is for.
#[derive(Copy, Clone, Debug, PartialEq, Eq, Structural)]
pub enum ShaderType {
    Compute,
    Vertex,
    Fragment,
}

} // verus!
