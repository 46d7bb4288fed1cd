use vstd::prelude::*;

verus! {

/// The dimensionality of an image.
#[derive(Copy, Clone, Debug, PartialEq, Eq, Structural)]
pub enum ImageKind {
    Flat,
    Volume,
}

/// The kind and depth of an image of the requested depth: a depth above 1
/// makes a volume of that depth, anything else a flat image of depth 1.
pub fn image_shape(depth: Option<u32>) -> (r: (ImageKind, u32))
    ensures
        r == match depth {
            Some(d) => if d > 1 { (ImageKind::Volume, d) } else { (ImageKind::Flat, 1u32) },
            None => (ImageKind::Flat, 1u32),
        },
{
    match depth {
        Some(d) if d > 1 => (ImageKind::Volume, d),
        _ => (ImageKind::Flat, 1),
    }
}

/// The aspect an image view covers.
#[derive(Copy, Clone, Debug, PartialEq, Eq, Structural)]
pub enum ImageAspect {
    Depth,
    Color,
}

/// The aspect of the view of an image whose usage bits are `usage`: depth
/// when the usage is exactly the depth-stencil attachment usage
/// `depth_stencil_attachment`, color otherwise.
pub fn image_aspect(usage: u32, depth_stencil_attachment: u32) -> (r: ImageAspect)
    ensures
        r == if usage == depth_stencil_attachment { ImageAspect::Depth } else { ImageAspect::Color },
{
    if usage == depth_stencil_attachment {
        ImageAspect::Depth
    } else {
        ImageAspect::Color
    }
}

/// Whether the memory property bits `properties` include all of the
/// host-visible bits `host_visible`: such memory is written directly, other
/// memory through a staging buffer.
pub fn is_host_visible(properties: u32, host_visible: u32) -> (b: bool)
    ensures
        b == (properties & host_visible == host_visible),
{
    properties & host_visible == host_visible
}

/// The commands that set up a new image.
#[derive(Copy, Clone, Debug, PartialEq, Eq, Structural)]
pub struct ImageSetup {
    /// Setup commands are recorded, submitted and waited for.
    pub record: bool,
    /// The initial data is copied in (after a move to the transfer layout).
    pub copy_data: bool,
    /// The image is moved to its requested layout.
    pub transition: bool,
    /// That move starts from the transfer layout (rather than an undefined one).
    pub transition_from_transfer: bool,
}

/// The setup of an image created with or without a requested layout and
/// initial data, on memory it allocates itself or on a given image: commands
/// are recorded when there is a layout or data; the data is copied when there
/// is some; the layout is set only on an image created here, starting from the
/// transfer layout when data was copied.
pub fn image_setup(has_layout: bool, has_data: bool, pre_allocated: bool) -> (r: ImageSetup)
    ensures
        r.record == (has_layout || has_data),
        r.copy_data == has_data,
        r.transition == (has_layout && !pre_allocated),
        r.transition_from_transfer == has_data,
{
    ImageSetup {
        record: has_layout || has_data,
        copy_data: has_data,
        transition: has_layout && !pre_allocated,
        transition_from_transfer: has_data,
    }
}

} // verus!
