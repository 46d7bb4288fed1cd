use crate::push_constant::PushConstant;
use ash::vk;
use vstd::prelude::*;

verus! {

/// The (size, stages) range of each given push constant, vertex first, each
/// at offset 0 (sizes taken modulo 2^32).
pub fn push_constant_ranges(vertex: Option<&PushConstant>, fragment: Option<&PushConstant>) -> (r: Vec<(u32, vk::ShaderStageFlags)>)
    ensures
        r@ == (match vertex {
            Some(p) => seq![(p.size as u32, p.stage)],
            None => Seq::empty(),
        }) + (match fragment {
            Some(p) => seq![(p.size as u32, p.stage)],
            None => Seq::empty(),
        }),
{
    let mut r: Vec<(u32, vk::ShaderStageFlags)> = Vec::new();
    if let Some(p) = vertex {
        r.push((p.size as u32, p.stage));
    }
    let ghost first = r@;
    if let Some(p) = fragment {
        r.push((p.size as u32, p.stage));
    }
    assert(r@ =~= first + (match fragment {
        Some(p) => seq![(p.size as u32, p.stage)],
        None => Seq::empty(),
    }));
    r
}

/// The given descriptor set layouts, vertex first.
pub fn set_layouts<T: Copy>(vertex: Option<T>, fragment: Option<T>) -> (r: Vec<T>)
    ensures
        r@ == (match vertex {
            Some(l) => seq![l],
            None => Seq::empty(),
        }) + (match fragment {
            Some(l) => seq![l],
            None => Seq::empty(),
        }),
{
    let mut r: Vec<T> = Vec::new();
    if let Some(l) = vertex {
        r.push(l);
    }
    let ghost first = r@;
    if let Some(l) = fragment {
        r.push(l);
    }
    assert(r@ =~= first + (match fragment {
        Some(l) => seq![l],
        None => Seq::empty(),
    }));
    r
}

/// The attachments of a graphics pipeline's render pass.
#[derive(Copy, Clone, Debug, PartialEq, Eq, Structural)]
pub struct AttachmentPlan {
    /// The colour attachment (index 0) is cleared at the start of the pass;
    /// otherwise its previous contents are loaded.
    pub clear_colour: bool,
    /// The index of the depth attachment, when there is one.
    pub depth_attachment: Option<u32>,
    /// How many attachments the render pass has.
    pub attachment_count: u32,
}

/// The attachments of a render pass that clears its colour target when
/// `clear_prev` and has a depth buffer when `with_depth_buffer`: the colour
/// attachment first, then the depth attachment.
pub fn attachment_plan(with_depth_buffer: bool, clear_prev: bool) -> (r: AttachmentPlan)
    ensures
        r.clear_colour == clear_prev,
        r.depth_attachment == (if with_depth_buffer { Some(1u32) } else { None::<u32> }),
        r.attachment_count == (if with_depth_buffer { 2u32 } else { 1u32 }),
{
    if with_depth_buffer {
        AttachmentPlan { clear_colour: clear_prev, depth_attachment: Some(1), attachment_count: 2 }
    } else {
        AttachmentPlan { clear_colour: clear_prev, depth_attachment: None, attachment_count: 1 }
    }
}

} // verus!
