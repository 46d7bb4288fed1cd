use vstd::prelude::*;

verus! {

/// The vertex type of passes that draw without vertex data.
#[derive(Copy, Clone, Debug)]
pub struct NoVertices {}

/// The width of the indices of an index buffer.
#[derive(Copy, Clone, Debug, PartialEq, Eq, Structural)]
pub enum IndexWidth {
    U16,
    U32,
}

/// The index width for index values of `size` bytes: 2-byte indices are
/// 16-bit, 4-byte indices 32-bit; other sizes have none.
pub fn index_width(size: usize) -> (r: Option<IndexWidth>)
    ensures
        r == if size == 2 {
            Some(IndexWidth::U16)
        } else if size == 4 {
            Some(IndexWidth::U32)
        } else {
            None::<IndexWidth>
        },
{
    if size == 2 {
        Some(IndexWidth::U16)
    } else if size == 4 {
        Some(IndexWidth::U32)
    } else {
        None
    }
}

} // verus!
