use vstd::prelude::*;

verus! {

/// The counts and offsets of one draw call of a graphics pass.
#[derive(Copy, Clone, Debug, PartialEq, Eq, Structural)]
pub struct GraphicsPassDrawInfo {
    pub vertex_count: u32,
    pub index_count: u32,
    pub instance_count: u32,
    pub first_vertex: u32,
    pub first_instance: u32,
    pub vertex_offset: i32,
}

impl GraphicsPassDrawInfo {
    /// One instance of `vertex_count` vertices, not indexed (the count is
    /// taken modulo 2^32).
    pub fn simple_vertex(vertex_count: usize) -> (r: GraphicsPassDrawInfo)
        ensures
            r == (GraphicsPassDrawInfo {
                vertex_count: vertex_count as u32,
                index_count: 0,
                instance_count: 1,
                first_vertex: 0,
                first_instance: 0,
                vertex_offset: 0,
            }),
    {
        GraphicsPassDrawInfo {
            vertex_count: vertex_count as u32,
            index_count: 0,
            instance_count: 1,
            first_vertex: 0,
            first_instance: 0,
            vertex_offset: 0,
        }
    }

    /// One instance of `index_count` indices into `vertex_count` vertices
    /// (counts taken modulo 2^32).
    pub fn simple_indexed(vertex_count: usize, index_count: usize) -> (r: GraphicsPassDrawInfo)
        ensures
            r == (GraphicsPassDrawInfo {
                vertex_count: vertex_count as u32,
                index_count: index_count as u32,
                instance_count: 1,
                first_vertex: 0,
                first_instance: 0,
                vertex_offset: 0,
            }),
    {
        GraphicsPassDrawInfo {
            vertex_count: vertex_count as u32,
            index_count: index_count as u32,
            instance_count: 1,
            first_vertex: 0,
            first_instance: 0,
            vertex_offset: 0,
        }
    }

    /// `instance_count` instances of `vertex_count` vertices, not indexed
    /// (counts taken modulo 2^32).
    pub fn instanced_vertex(vertex_count: usize, instance_count: usize) -> (r: GraphicsPassDrawInfo)
        ensures
            r == (GraphicsPassDrawInfo {
                vertex_count: vertex_count as u32,
                index_count: 0,
                instance_count: instance_count as u32,
                first_vertex: 0,
                first_instance: 0,
                vertex_offset: 0,
            }),
    {
        GraphicsPassDrawInfo {
            vertex_count: vertex_count as u32,
            index_count: 0,
            instance_count: instance_count as u32,
            first_vertex: 0,
            first_instance: 0,
            vertex_offset: 0,
        }
    }

    /// `instance_count` instances of `index_count` indices into
    /// `vertex_count` vertices (counts taken modulo 2^32).
    pub fn instanced_indexed(vertex_count: usize, index_count: usize, instance_count: usize) -> (r: GraphicsPassDrawInfo)
        ensures
            r == (GraphicsPassDrawInfo {
                vertex_count: vertex_count as u32,
                index_count: index_count as u32,
                instance_count: instance_count as u32,
                first_vertex: 0,
                first_instance: 0,
                vertex_offset: 0,
            }),
    {
        GraphicsPassDrawInfo {
            vertex_count: vertex_count as u32,
            index_count: index_count as u32,
            instance_count: instance_count as u32,
            first_vertex: 0,
            first_instance: 0,
            vertex_offset: 0,
        }
    }

    /// One instance of no vertices.
    pub fn simple_empty() -> (r: GraphicsPassDrawInfo)
        ensures
            r == (GraphicsPassDrawInfo {
                vertex_count: 0,
                index_count: 0,
                instance_count: 1,
                first_vertex: 0,
                first_instance: 0,
                vertex_offset: 0,
            }),
    {
        GraphicsPassDrawInfo {
            vertex_count: 0,
            index_count: 0,
            instance_count: 1,
            first_vertex: 0,
            first_instance: 0,
            vertex_offset: 0,
        }
    }
}

/// The rectangle a graphics pass draws to, as (offset, extent): the given
/// offset, or the origin when none is given, and the given extent, or that of
/// the first target image when none is given.
pub fn target_rect(extent: Option<(u32, u32)>, offset: Option<(i32, i32)>, first_target: (u32, u32)) -> (r: (
    (i32, i32),
    (u32, u32),
))
    ensures
        r.0 == (match offset {
            Some(o) => o,
            None => (0i32, 0i32),
        }),
        r.1 == (match extent {
            Some(e) => e,
            None => first_target,
        }),
{
    let e = match extent {
        Some(e) => e,
        None => first_target,
    };
    let o = match offset {
        Some(o) => o,
        None => (0, 0),
    };
    (o, e)
}

} // verus!
