use ash::vk;
use vrg::compute_pass::ComputePassDispatchInfo;
use vrg::descriptors::{BindingReference, DescriptorReference, DescriptorType, DescriptorsBuilder};
use vrg::graphics_pass::{target_rect, GraphicsPassDrawInfo};
use vrg::image::{image_setup, image_shape, ImageKind, ImageSetup};
use vrg::pipeline::{attachment_plan, push_constant_ranges, set_layouts, AttachmentPlan};
use vrg::push_constant::{PushConstant, PushConstantBuilder};
use vrg::renderer_data::RendererData;
use vrg::shader::ShaderType;
use vrg::vertex_buffer::{index_width, IndexWidth};

#[test]
fn renderer_data_lookup_by_name() {
    let mut d: RendererData<u32, &str> = RendererData::new(2);
    d.insert_buffers("uniforms", vec![1, 2]);
    d.insert_buffers("storage", vec![3, 4]);
    d.insert_images("target", vec!["t0", "t1"]);
    assert_eq!(d.get_buffers("uniforms"), &vec![1, 2]);
    assert_eq!(d.get_buffers("storage"), &vec![3, 4]);
    assert_eq!(d.get_images("target"), &vec!["t0", "t1"]);
    assert_eq!(d.get_buffer_refs("storage"), 1);
    assert_eq!(d.get_image_refs("target"), 0);
    assert_eq!(d.get_buffers_from_ref(0), &vec![1, 2]);
    assert_eq!(d.get_images_from_ref(0), &vec!["t0", "t1"]);
    assert!(d.has_buffers("uniforms"));
    assert!(!d.has_buffers("target"));
    assert!(d.has_images("target"));
}

#[test]
fn renderer_data_latest_registration_wins() {
    let mut d: RendererData<u32, u32> = RendererData::new(1);
    d.insert_buffers("b", vec![1]);
    d.insert_buffers("b", vec![2]);
    assert_eq!(d.get_buffers("b"), &vec![2]);
    assert_eq!(d.get_buffer_refs("b"), 1);
    assert_eq!(d.buffers.len(), 2);
}

#[test]
fn add_images_raw_registers_the_images() {
    let mut d: RendererData<u32, u32> = RendererData::new(2);
    d.add_images_raw("swapchain_image", vec![10, 11]);
    assert_eq!(d.get_images("swapchain_image"), &vec![10, 11]);
}

#[test]
fn descriptor_bindings_follow_addition_order() {
    let b: DescriptorsBuilder<&str, &str, &str, &str> = DescriptorsBuilder::new()
        .count(2)
        .stage(vk::ShaderStageFlags::COMPUTE)
        .add_uniform_builder("u0")
        .add_image_builder("i0")
        .add_uniform_builder("u1")
        .add_sampler_builder("p0")
        .add_storage_builder("s0");
    assert_eq!(b.next_binding, 5);
    assert_eq!(b.uniform_builders, vec![(0, "u0"), (2, "u1")]);
    assert_eq!(b.image_builders, vec![(1, "i0")]);
    assert_eq!(b.sampler_builders, vec![(3, "p0")]);
    assert_eq!(b.storage_builders, vec![(4, "s0")]);
    assert_eq!(
        b.binding_references,
        vec![
            BindingReference::Uniform(0),
            BindingReference::Image(0),
            BindingReference::Uniform(1),
            BindingReference::Sampler(0),
            BindingReference::Storage(0),
        ]
    );
    assert_eq!(b.desciptor_references[2], DescriptorReference::new(DescriptorType::Uniform, 1));
    assert_eq!(b.stage, Some(vk::ShaderStageFlags::COMPUTE));
    assert_eq!(b.count, Some(2));
    assert_eq!(
        b.layout_bindings(),
        vec![
            (0, DescriptorType::Uniform),
            (2, DescriptorType::Uniform),
            (4, DescriptorType::Storage),
            (1, DescriptorType::Image),
            (3, DescriptorType::Sampler),
        ]
    );
    assert_eq!(
        b.pool_sizes(),
        vec![
            (DescriptorType::Uniform, 32),
            (DescriptorType::Storage, 16),
            (DescriptorType::Image, 16),
            (DescriptorType::Sampler, 16),
        ]
    );
}

#[test]
fn pool_sizes_skip_kinds_without_descriptors() {
    let b: DescriptorsBuilder<u8, u8, u8, u8> = DescriptorsBuilder::new().count(3).add_storage_builder(1);
    assert_eq!(b.pool_sizes(), vec![(DescriptorType::Storage, 24)]);
    assert_eq!(b.layout_bindings(), vec![(0, DescriptorType::Storage)]);
}

#[test]
fn descriptor_reference_new() {
    let r = DescriptorReference::new(DescriptorType::Sampler, 4);
    assert_eq!(r.descriptor_type, DescriptorType::Sampler);
    assert_eq!(r.index, 4);
}

#[test]
fn draw_info_constructors() {
    let v = GraphicsPassDrawInfo::simple_vertex(6);
    assert_eq!((v.vertex_count, v.index_count, v.instance_count), (6, 0, 1));
    let i = GraphicsPassDrawInfo::simple_indexed(4, 6);
    assert_eq!((i.vertex_count, i.index_count, i.instance_count), (4, 6, 1));
    let iv = GraphicsPassDrawInfo::instanced_vertex(3, 10);
    assert_eq!((iv.vertex_count, iv.index_count, iv.instance_count), (3, 0, 10));
    let ii = GraphicsPassDrawInfo::instanced_indexed(4, 6, 8);
    assert_eq!((ii.vertex_count, ii.index_count, ii.instance_count), (4, 6, 8));
    let e = GraphicsPassDrawInfo::simple_empty();
    assert_eq!((e.vertex_count, e.index_count, e.instance_count), (0, 0, 1));
    for d in [v, i, iv, ii, e] {
        assert_eq!((d.first_vertex, d.first_instance, d.vertex_offset), (0, 0, 0));
    }
}

#[test]
fn draw_info_counts_wrap_to_32_bits() {
    let v = GraphicsPassDrawInfo::simple_vertex((1usize << 32) + 5);
    assert_eq!(v.vertex_count, 5);
}

#[test]
fn dispatch_info() {
    let d = ComputePassDispatchInfo::new(1, 2, 3);
    assert_eq!((d.x, d.y, d.z), (1, 2, 3));
    let f = ComputePassDispatchInfo::for_size(1280, 720);
    assert_eq!((f.x, f.y, f.z), (81, 46, 1));
    let s = ComputePassDispatchInfo::for_size(15, 0);
    assert_eq!((s.x, s.y, s.z), (1, 1, 1));
}

#[test]
fn index_widths() {
    assert_eq!(index_width(2), Some(IndexWidth::U16));
    assert_eq!(index_width(4), Some(IndexWidth::U32));
    assert_eq!(index_width(8), None);
    assert_eq!(index_width(1), None);
}

#[test]
fn image_shapes() {
    assert_eq!(image_shape(None), (ImageKind::Flat, 1));
    assert_eq!(image_shape(Some(1)), (ImageKind::Flat, 1));
    assert_eq!(image_shape(Some(0)), (ImageKind::Flat, 1));
    assert_eq!(image_shape(Some(16)), (ImageKind::Volume, 16));
}

#[test]
fn shader_types_are_distinct() {
    assert_ne!(ShaderType::Compute, ShaderType::Vertex);
    assert_ne!(ShaderType::Vertex, ShaderType::Fragment);
}

#[test]
fn push_constant_is_zeroed() {
    let p = PushConstant::new(8, vk::ShaderStageFlags::VERTEX);
    assert_eq!(p.data, vec![0u8; 8]);
    assert_eq!(p.size, 8);
    assert_eq!(p.stage, vk::ShaderStageFlags::VERTEX);
}

#[test]
fn push_constant_builder_builds() {
    let p = PushConstantBuilder::new().size(12).stage(vk::ShaderStageFlags::FRAGMENT).build();
    assert_eq!(p.data.len(), 12);
    assert_eq!(p.size, 12);
    assert_eq!(p.stage, vk::ShaderStageFlags::FRAGMENT);
}

#[test]
fn push_constant_set_data_bytes_copies_the_declared_size() {
    let mut p = PushConstant::new(4, vk::ShaderStageFlags::COMPUTE);
    p.set_data_bytes(&[1, 2, 3, 4, 5, 6]);
    // grown to 6 bytes; the first 4 copied, the rest zero padding
    assert_eq!(p.data, vec![1, 2, 3, 4, 0, 0]);
    p.set_data_bytes(&[9, 8, 7, 6]);
    assert_eq!(p.data, vec![9, 8, 7, 6]);
}

#[test]
fn push_constant_builder_reports_its_stage() {
    let b = PushConstantBuilder::new().size(4);
    assert!(!b.stage_is_set());
    let b = b.stage(vk::ShaderStageFlags::VERTEX);
    assert!(b.stage_is_set());
}

#[test]
fn pipeline_ranges_and_layouts_keep_vertex_first() {
    let v = PushConstant::new(16, vk::ShaderStageFlags::VERTEX);
    let f = PushConstant::new(8, vk::ShaderStageFlags::FRAGMENT);
    assert_eq!(
        push_constant_ranges(Some(&v), Some(&f)),
        vec![(16, vk::ShaderStageFlags::VERTEX), (8, vk::ShaderStageFlags::FRAGMENT)]
    );
    assert_eq!(push_constant_ranges(None, Some(&f)), vec![(8, vk::ShaderStageFlags::FRAGMENT)]);
    assert_eq!(push_constant_ranges(None, None), vec![]);
    assert_eq!(set_layouts(Some(1u64), Some(2u64)), vec![1, 2]);
    assert_eq!(set_layouts(None, Some(2u64)), vec![2]);
    assert_eq!(set_layouts::<u64>(None, None), vec![]);
}

#[test]
fn image_aspect_and_host_visibility() {
    let depth = vk::ImageUsageFlags::DEPTH_STENCIL_ATTACHMENT.as_raw();
    assert_eq!(vrg::image::image_aspect(depth, depth), vrg::image::ImageAspect::Depth);
    assert_eq!(vrg::image::image_aspect(depth | 1, depth), vrg::image::ImageAspect::Color);
    assert_eq!(vrg::image::image_aspect(0, depth), vrg::image::ImageAspect::Color);
    let hv = vk::MemoryPropertyFlags::HOST_VISIBLE.as_raw();
    assert!(vrg::image::is_host_visible(hv | 4, hv));
    assert!(!vrg::image::is_host_visible(1, hv));
}

#[test]
fn target_rect_defaults_to_the_origin_and_the_first_target() {
    assert_eq!(target_rect(None, None, (800, 600)), ((0, 0), (800, 600)));
    assert_eq!(target_rect(Some((320, 200)), None, (800, 600)), ((0, 0), (320, 200)));
    assert_eq!(target_rect(None, Some((10, -4)), (800, 600)), ((10, -4), (800, 600)));
    assert_eq!(target_rect(Some((1, 2)), Some((3, 4)), (800, 600)), ((3, 4), (1, 2)));
}

#[test]
fn attachment_plan_adds_a_depth_attachment_after_the_colour_one() {
    let p = attachment_plan(true, false);
    assert_eq!(p, AttachmentPlan { clear_colour: false, depth_attachment: Some(1), attachment_count: 2 });
    let p = attachment_plan(false, true);
    assert_eq!(p, AttachmentPlan { clear_colour: true, depth_attachment: None, attachment_count: 1 });
}

#[test]
fn image_setup_records_only_when_there_is_work() {
    let none = image_setup(false, false, false);
    assert!(!none.record && !none.copy_data && !none.transition);
    let upload = image_setup(true, true, false);
    assert_eq!(upload, ImageSetup { record: true, copy_data: true, transition: true, transition_from_transfer: true });
    let given = image_setup(true, false, true);
    assert_eq!(given, ImageSetup { record: true, copy_data: false, transition: false, transition_from_transfer: false });
    let data_only = image_setup(false, true, true);
    assert!(data_only.record && data_only.copy_data && !data_only.transition);
}
