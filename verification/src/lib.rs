//! Bookkeeping core of a Vulkan render graph: a named, directed graph of
//! layers with breadth-first walks, the per-frame submission plan derived
//! from it, named renderer resources, descriptor binding allocation, push
//! constants, frame timing, and small resource decisions.

pub mod compute_pass;
pub mod descriptors;
pub mod device;
pub mod graphics_pass;
pub mod image;
pub mod pipeline;
pub mod push_constant;
pub mod renderer;
pub mod renderer_data;
pub mod shader;
pub mod swapchain;
pub mod util;
pub mod vertex_buffer;
