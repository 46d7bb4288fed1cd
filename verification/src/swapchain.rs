use vstd::prelude::*;

verus! {

/// How many swapchain images to ask for: one more than the surface's
/// minimum, but no more than its maximum when it has one (a maximum of 0
/// means no limit).
pub fn image_count(min_image_count: u32, max_image_count: u32) -> (r: u32)
    requires
        max_image_count >= 2,
        min_image_count < u32::MAX,
    ensures
        r == if max_image_count > 0 && min_image_count + 1 > max_image_count {
            max_image_count
        } else {
            (min_image_count + 1) as u32
        },
{
    if max_image_count > 0 && min_image_count + 1 > max_image_count {
        max_image_count
    } else {
        min_image_count + 1
    }
}

/// The queue families that share the swapchain images: only the presenting
/// family when it is also the main family (exclusive use), else both
/// (concurrent use).
pub fn sharing_families(present_family: u32, main_family: u32) -> (r: Vec<u32>)
    ensures
        r@ == if present_family == main_family {
            seq![present_family]
        } else {
            seq![present_family, main_family]
        },
{
    let mut r: Vec<u32> = Vec::new();
    r.push(present_family);
    if present_family != main_family {
        r.push(main_family);
    }
    r
}

/// The presentation mode: `preferred` when the surface offers it, else
/// `fallback`.
pub fn choose_present_mode(modes: &Vec<i32>, preferred: i32, fallback: i32) -> (r: i32)
    ensures
        r == if modes@.contains(preferred) { preferred } else { fallback },
{
    let mut i: usize = 0;
    while i < modes.len()
        invariant
            i <= modes@.len(),
            forall|k: int| 0 <= k < i ==> modes@[k] != preferred,
        decreases modes@.len() - i,
    {
        if modes[i] == preferred {
            assert(modes@[i as int] == preferred);
            return preferred;
        }
        i = i + 1;
    }
    fallback
}

} // verus!
