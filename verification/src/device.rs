use vstd::prelude::*;

verus! {

/// What a queue family offers: whether it can present to the surface, and
/// its queue capability bits.
#[derive(Copy, Clone, Debug, PartialEq, Eq, Structural)]
pub struct QueueFamilySupport {
    pub present: bool,
    pub flags: u32,
}

/// The queue families a device is set up with: one that presents, one for
/// the main (graphics and compute) work, one for asynchronous compute.
#[derive(Copy, Clone, Debug, PartialEq, Eq, Structural)]
pub struct QueueSelection {
    pub device: usize,
    pub present: u32,
    pub main: u32,
    pub async_compute: u32,
}

/// `flags` has every bit of `mask`.
pub open spec fn has_all(flags: u32, mask: u32) -> bool {
    flags & mask == mask
}

/// Index of the first family that can present, or -1.
pub open spec fn first_present(fams: Seq<QueueFamilySupport>) -> int
    decreases fams.len(),
{
    if fams.len() == 0 {
        -1
    } else if fams[0].present {
        0
    } else {
        let r = first_present(fams.drop_first());
        if r < 0 { -1 } else { r + 1 }
    }
}

/// Index of the first family whose capabilities include all of `mask`, or -1.
pub open spec fn first_with(fams: Seq<QueueFamilySupport>, mask: u32) -> int
    decreases fams.len(),
{
    if fams.len() == 0 {
        -1
    } else if has_all(fams[0].flags, mask) {
        0
    } else {
        let r = first_with(fams.drop_first(), mask);
        if r < 0 { -1 } else { r + 1 }
    }
}

/// The device is usable: it has a presenting family, a main family and an
/// asynchronous compute family.
pub open spec fn device_usable(fams: Seq<QueueFamilySupport>, main_mask: u32, async_mask: u32) -> bool {
    first_present(fams) >= 0 && first_with(fams, main_mask) >= 0 && first_with(fams, async_mask) >= 0
}

/// Index of the first usable device, or -1.
pub open spec fn first_usable(devices: Seq<Seq<QueueFamilySupport>>, main_mask: u32, async_mask: u32) -> int
    decreases devices.len(),
{
    if devices.len() == 0 {
        -1
    } else if device_usable(devices[0], main_mask, async_mask) {
        0
    } else {
        let r = first_usable(devices.drop_first(), main_mask, async_mask);
        if r < 0 { -1 } else { r + 1 }
    }
}

proof fn lemma_first_present(fams: Seq<QueueFamilySupport>, i: int)
    requires
        0 <= i <= fams.len(),
        forall|k: int| 0 <= k < i ==> !(#[trigger] fams[k]).present,
    ensures
        i < fams.len() && fams[i].present ==> first_present(fams) == i,
        i == fams.len() ==> first_present(fams) == -1,
    decreases i,
{
    if i > 0 {
        let rest = fams.drop_first();
        assert forall|k: int| 0 <= k < i - 1 implies !(#[trigger] rest[k]).present by {
            assert(rest[k] == fams[k + 1]);
        }
        lemma_first_present(rest, i - 1);
        assert(!fams[0].present);
        if i < fams.len() {
            assert(rest[i - 1] == fams[i]);
        }
    }
}

proof fn lemma_first_with(fams: Seq<QueueFamilySupport>, mask: u32, i: int)
    requires
        0 <= i <= fams.len(),
        forall|k: int| 0 <= k < i ==> !has_all((#[trigger] fams[k]).flags, mask),
    ensures
        i < fams.len() && has_all(fams[i].flags, mask) ==> first_with(fams, mask) == i,
        i == fams.len() ==> first_with(fams, mask) == -1,
    decreases i,
{
    if i > 0 {
        let rest = fams.drop_first();
        assert forall|k: int| 0 <= k < i - 1 implies !has_all((#[trigger] rest[k]).flags, mask) by {
            assert(rest[k] == fams[k + 1]);
        }
        lemma_first_with(rest, mask, i - 1);
        assert(!has_all(fams[0].flags, mask));
        if i < fams.len() {
            assert(rest[i - 1] == fams[i]);
        }
    }
}

proof fn lemma_first_usable(devices: Seq<Seq<QueueFamilySupport>>, main_mask: u32, async_mask: u32, i: int)
    requires
        0 <= i <= devices.len(),
        forall|k: int| 0 <= k < i ==> !device_usable(#[trigger] devices[k], main_mask, async_mask),
    ensures
        i < devices.len() && device_usable(devices[i], main_mask, async_mask) ==> first_usable(devices, main_mask, async_mask) == i,
        i == devices.len() ==> first_usable(devices, main_mask, async_mask) == -1,
    decreases i,
{
    if i > 0 {
        let rest = devices.drop_first();
        assert forall|k: int| 0 <= k < i - 1 implies !device_usable(#[trigger] rest[k], main_mask, async_mask) by {
            assert(rest[k] == devices[k + 1]);
        }
        lemma_first_usable(rest, main_mask, async_mask, i - 1);
        assert(!device_usable(devices[0], main_mask, async_mask));
        if i < devices.len() {
            assert(rest[i - 1] == devices[i]);
        }
    }
}

/// The first family of `fams` that can present.
fn find_present(fams: &Vec<QueueFamilySupport>) -> (r: Option<usize>)
    ensures
        match r {
            Some(i) => i == first_present(fams@),
            None => first_present(fams@) == -1,
        },
{
    let mut i: usize = 0;
    while i < fams.len()
        invariant
            i <= fams@.len(),
            forall|k: int| 0 <= k < i ==> !(#[trigger] fams@[k]).present,
        decreases fams@.len() - i,
    {
        if fams[i].present {
            proof { lemma_first_present(fams@, i as int); }
            return Some(i);
        }
        i = i + 1;
    }
    proof { lemma_first_present(fams@, i as int); }
    None
}

/// The first family of `fams` whose capabilities include all of `mask`.
fn find_with(fams: &Vec<QueueFamilySupport>, mask: u32) -> (r: Option<usize>)
    ensures
        match r {
            Some(i) => i == first_with(fams@, mask),
            None => first_with(fams@, mask) == -1,
        },
{
    let mut i: usize = 0;
    while i < fams.len()
        invariant
            i <= fams@.len(),
            forall|k: int| 0 <= k < i ==> !has_all((#[trigger] fams@[k]).flags, mask),
        decreases fams@.len() - i,
    {
        if fams[i].flags & mask == mask {
            proof { lemma_first_with(fams@, mask, i as int); }
            return Some(i);
        }
        i = i + 1;
    }
    proof { lemma_first_with(fams@, mask, i as int); }
    None
}

/// Picks the first device (of the queue family lists `devices`, one per
/// device) that has a presenting family, a family with all of `main_mask`
/// and a family with all of `async_mask`, and for it the first such family
/// of each kind (family indices taken modulo 2^32).
pub fn select_queue_families(devices: &Vec<Vec<QueueFamilySupport>>, main_mask: u32, async_mask: u32) -> (r: Option<QueueSelection>)
    ensures
        match r {
            Some(s) => {
                let d = first_usable(devices@.map_values(|v: Vec<QueueFamilySupport>| v@), main_mask, async_mask);
                let fams = devices@[s.device as int]@;
                &&& d >= 0
                &&& s.device == d
                &&& s.present == first_present(fams) as u32
                &&& s.main == first_with(fams, main_mask) as u32
                &&& s.async_compute == first_with(fams, async_mask) as u32
            },
            None => first_usable(devices@.map_values(|v: Vec<QueueFamilySupport>| v@), main_mask, async_mask) == -1,
        },
{
    let ghost views = devices@.map_values(|v: Vec<QueueFamilySupport>| v@);
    let mut d: usize = 0;
    while d < devices.len()
        invariant
            d <= devices@.len(),
            views == devices@.map_values(|v: Vec<QueueFamilySupport>| v@),
            forall|k: int| 0 <= k < d ==> !device_usable(#[trigger] views[k], main_mask, async_mask),
        decreases devices@.len() - d,
    {
        let fams = &devices[d];
        assert(views[d as int] == fams@);
        let present = find_present(fams);
        let main = find_with(fams, main_mask);
        let async_compute = find_with(fams, async_mask);
        match (present, main, async_compute) {
            (Some(p), Some(m), Some(a)) => {
                proof { lemma_first_usable(views, main_mask, async_mask, d as int); }
                return Some(QueueSelection { device: d, present: p as u32, main: m as u32, async_compute: a as u32 });
            },
            _ => {},
        }
        d = d + 1;
    }
    proof { lemma_first_usable(views, main_mask, async_mask, d as int); }
    None
}

/// The distinct values of `indices`, each where it first occurs.
pub open spec fn distinct_in_order(indices: Seq<u32>) -> Seq<u32>
    decreases indices.len(),
{
    if indices.len() == 0 {
        Seq::empty()
    } else {
        let r = distinct_in_order(indices.drop_last());
        if r.contains(indices.last()) {
            r
        } else {
            r.push(indices.last())
        }
    }
}

/// The distinct queue family indices among `indices`, in first-occurrence
/// order: one queue is created per distinct family.
pub fn unique_indices(indices: &Vec<u32>) -> (r: Vec<u32>)
    ensures
        r@ == distinct_in_order(indices@),
{
    let mut r: Vec<u32> = Vec::new();
    let mut i: usize = 0;
    while i < indices.len()
        invariant
            i <= indices@.len(),
            r@ == distinct_in_order(indices@.take(i as int)),
        decreases indices@.len() - i,
    {
        let x = indices[i];
        assert(indices@.take(i + 1).drop_last() =~= indices@.take(i as int));
        let mut found = false;
        let mut j: usize = 0;
        while j < r.len()
            invariant
                j <= r@.len(),
                found == r@.take(j as int).contains(x),
            decreases r@.len() - j,
        {
            let ghost before = r@.take(j as int);
            if r[j] == x {
                found = true;
            }
            j = j + 1;
            assert(r@.take(j as int) =~= before.push(r@[j - 1]));
            assert(r@.take(j as int).contains(x) == (before.contains(x) || r@[j - 1] == x)) by {
                if r@[j - 1] == x {
                    assert(r@.take(j as int)[j - 1] == x);
                }
                if before.contains(x) {
                    let k = choose|k: int| 0 <= k < before.len() && before[k] == x;
                    assert(r@.take(j as int)[k] == x);
                }
                if r@.take(j as int).contains(x) {
                    let k = choose|k: int| 0 <= k < j && r@.take(j as int)[k] == x;
                    if k < j - 1 {
                        assert(before[k] == x);
                    }
                }
            }
        }
        assert(r@.take(j as int) =~= r@);
        if !found {
            r.push(x);
        }
        i = i + 1;
    }
    assert(indices@.take(i as int) =~= indices@);
    r
}

/// Index of the first memory type (of `type_flags`) allowed by the bit mask
/// `type_bits` whose property bits include all of `wanted`, or -1.
pub open spec fn first_memory_type(type_bits: u32, type_flags: Seq<u32>, wanted: u32, from: int) -> int
    decreases type_flags.len() - from,
{
    if from >= type_flags.len() || from < 0 {
        -1
    } else if type_bits & (1u32 << (from as u32)) != 0 && type_flags[from] & wanted == wanted {
        from
    } else {
        first_memory_type(type_bits, type_flags, wanted, from + 1)
    }
}

/// The first memory type allowed by `type_bits` whose properties include all
/// of `wanted`, if any.
pub fn memory_type_index(type_bits: u32, type_flags: &Vec<u32>, wanted: u32) -> (r: Option<usize>)
    requires
        type_flags@.len() <= 32,
    ensures
        match r {
            Some(i) => i == first_memory_type(type_bits, type_flags@, wanted, 0),
            None => first_memory_type(type_bits, type_flags@, wanted, 0) == -1,
        },
{
    let mut i: usize = 0;
    while i < type_flags.len()
        invariant
            i <= type_flags@.len() <= 32,
            first_memory_type(type_bits, type_flags@, wanted, 0) == first_memory_type(type_bits, type_flags@, wanted, i as int),
        decreases type_flags@.len() - i,
    {
        let bit: u32 = 1u32 << (i as u32);
        if type_bits & bit != 0 && type_flags[i] & wanted == wanted {
            return Some(i);
        }
        i = i + 1;
    }
    None
}

/// The index of the first of `formats` equal to `wanted`, or else 0 (the
/// first format).
pub fn choose_surface_format(formats: &Vec<(i32, i32)>, wanted: (i32, i32)) -> (r: usize)
    requires
        formats@.len() > 0,
    ensures
        r < formats@.len(),
        formats@[r as int] == wanted ==> forall|k: int| 0 <= k < r ==> formats@[k] != wanted,
        formats@[r as int] != wanted ==> r == 0 && !formats@.contains(wanted),
{
    let mut i: usize = 0;
    while i < formats.len()
        invariant
            i <= formats@.len(),
            forall|k: int| 0 <= k < i ==> formats@[k] != wanted,
        decreases formats@.len() - i,
    {
        if formats[i].0 == wanted.0 && formats[i].1 == wanted.1 {
            return i;
        }
        i = i + 1;
    }
    0
}

/// The surface extent to use: the current one, or 1280 x 720 when the
/// surface leaves it to the application (current width `u32::MAX`).
pub fn surface_extent(current: (u32, u32)) -> (r: (u32, u32))
    ensures
        r == if current.0 == u32::MAX { (1280u32, 720u32) } else { current },
{
    if current.0 == u32::MAX {
        (1280, 720)
    } else {
        current
    }
}

/// Law: the distinct indices contain each index of the input exactly once
/// and nothing else.
pub proof fn distinct_in_order_is_exact(indices: Seq<u32>)
    ensures
        distinct_in_order(indices).no_duplicates(),
        forall|x: u32| #[trigger] distinct_in_order(indices).contains(x) <==> indices.contains(x),
    decreases indices.len(),
{
    if indices.len() > 0 {
        let rest = indices.drop_last();
        distinct_in_order_is_exact(rest);
        let r = distinct_in_order(rest);
        let last = indices.last();
        assert forall|x: u32| #[trigger] distinct_in_order(indices).contains(x) <==> indices.contains(x) by {
            if rest.contains(x) {
                let k = choose|k: int| 0 <= k < rest.len() && rest[k] == x;
                assert(indices[k] == x);
            }
            if indices.contains(x) && x != last {
                let k = choose|k: int| 0 <= k < indices.len() && indices[k] == x;
                assert(rest[k] == x);
            }
            if x == last {
                assert(indices[indices.len() - 1] == x);
                if !r.contains(last) {
                    assert(r.push(last)[r.len() as int] == last);
                }
            }
            if !r.contains(last) && r.push(last).contains(x) && x != last {
                let k = choose|k: int| 0 <= k < r.len() + 1 && r.push(last)[k] == x;
                assert(r[k] == x);
            }
            if !r.contains(last) && r.contains(x) {
                let k = choose|k: int| 0 <= k < r.len() && r[k] == x;
                assert(r.push(last)[k] == x);
            }
        }
        if !r.contains(last) {
            assert forall|i: int, j: int| 0 <= i < j < r.len() + 1 implies r.push(last)[i] != r.push(last)[j] by {
                if j == r.len() {
                    assert(r.push(last)[i] == r[i]);
                    assert(r.contains(r[i]));
                }
            }
        }
    }
}

/// Bit `b` of `x` is set.
pub open spec fn bit_set(x: u32, b: u32) -> bool {
    (x >> b) & 1u32 == 1u32
}

/// Every bit set in `mask` is set in `flags`.
pub open spec fn includes_bits(flags: u32, mask: u32) -> bool {
    forall|b: u32| b < 32 ==> #[trigger] bit_set(mask, b) ==> bit_set(flags, b)
}

/// A word whose bits from `b` up are all clear is zero from `b` up.
proof fn lemma_clear_from(x: u32, b: u32)
    requires
        b < 32,
        forall|c: u32| b <= c < 32 ==> !#[trigger] bit_set(x, c),
    ensures
        x >> b == 0u32,
    decreases 32 - b,
{
    assert(!bit_set(x, b));
    if b == 31 {
        assert(x >> b == 0u32) by (bit_vector)
            requires
                b == 31u32,
                (x >> b) & 1u32 != 1u32,
        ;
    } else {
        let b1 = (b + 1) as u32;
        lemma_clear_from(x, b1);
        assert(x >> b == 0u32) by (bit_vector)
            requires
                b < 31u32,
                b1 == b + 1u32,
                x >> b1 == 0u32,
                (x >> b) & 1u32 != 1u32,
        ;
    }
}

/// Law: `flags` has all of `mask` exactly when every bit set in `mask` is
/// set in `flags`; in particular flags with more bits than the mask qualify.
pub proof fn has_all_is_every_mask_bit(flags: u32, mask: u32)
    ensures
        has_all(flags, mask) <==> includes_bits(flags, mask),
{
    let x = mask & !flags;
    assert((flags & mask == mask) <==> (x == 0u32)) by (bit_vector)
        requires
            x == mask & !flags,
    ;
    assert forall|b: u32| b < 32 implies (bit_set(x, b) <==> (bit_set(mask, b) && !bit_set(flags, b))) by {
        assert(((x >> b) & 1u32 == 1u32) <==> ((mask >> b) & 1u32 == 1u32 && (flags >> b) & 1u32 != 1u32))
            by (bit_vector)
            requires
                x == mask & !flags,
                b < 32u32,
        ;
    }
    if includes_bits(flags, mask) {
        assert forall|c: u32| 0 <= c < 32 implies !#[trigger] bit_set(x, c) by {
            if bit_set(x, c) {
                assert(bit_set(mask, c));
            }
        }
        lemma_clear_from(x, 0);
        assert(x == 0u32) by (bit_vector)
            requires
                x >> 0u32 == 0u32,
        ;
    } else {
        let b = choose|b: u32| b < 32 && bit_set(mask, b) && !bit_set(flags, b);
        assert(bit_set(x, b));
        assert(x != 0u32) by (bit_vector)
            requires
                (x >> b) & 1u32 == 1u32,
        ;
    }
}

/// Law: the family picked for `mask` is the first whose capabilities include
/// every bit of `mask` (more bits are fine); when none is picked, no family
/// has all of them.
pub proof fn first_with_is_first_family_with_the_mask(fams: Seq<QueueFamilySupport>, mask: u32)
    ensures
        -1 <= first_with(fams, mask) < fams.len(),
        first_with(fams, mask) >= 0 ==> includes_bits(fams[first_with(fams, mask)].flags, mask),
        forall|k: int|
            0 <= k < fams.len() && (first_with(fams, mask) == -1 || k < first_with(fams, mask)) ==> !includes_bits(
                #[trigger] fams[k].flags,
                mask,
            ),
    decreases fams.len(),
{
    if fams.len() > 0 {
        let rest = fams.drop_first();
        first_with_is_first_family_with_the_mask(rest, mask);
        has_all_is_every_mask_bit(fams[0].flags, mask);
        assert forall|k: int|
            0 <= k < fams.len() && (first_with(fams, mask) == -1 || k < first_with(fams, mask)) implies !includes_bits(
                #[trigger] fams[k].flags,
                mask,
            ) by {
            if k > 0 {
                assert(fams[k] == rest[k - 1]);
            }
        }
        if first_with(fams, mask) > 0 {
            assert(fams[first_with(fams, mask)] == rest[first_with(rest, mask)]);
        }
    }
}

/// Law: the memory type picked is the first one that `type_bits` allows
/// (bit `i` set for type `i`) and whose property bits include every bit of
/// `wanted`; when none is picked, no allowed type has all of them.
pub proof fn memory_type_is_first_allowed_with_all_wanted(type_bits: u32, type_flags: Seq<u32>, wanted: u32)
    requires
        type_flags.len() <= 32,
    ensures
        -1 <= first_memory_type(type_bits, type_flags, wanted, 0) < type_flags.len(),
        first_memory_type(type_bits, type_flags, wanted, 0) >= 0 ==> {
            let r = first_memory_type(type_bits, type_flags, wanted, 0);
            bit_set(type_bits, r as u32) && includes_bits(type_flags[r], wanted)
        },
        forall|k: int|
            0 <= k < type_flags.len() && (first_memory_type(type_bits, type_flags, wanted, 0) == -1 || k
                < first_memory_type(type_bits, type_flags, wanted, 0)) ==> !(bit_set(type_bits, k as u32)
                && includes_bits(#[trigger] type_flags[k], wanted)),
{
    lemma_memory_type_from(type_bits, type_flags, wanted, 0);
}

proof fn lemma_memory_type_from(type_bits: u32, type_flags: Seq<u32>, wanted: u32, from: int)
    requires
        type_flags.len() <= 32,
        0 <= from <= type_flags.len(),
    ensures
        first_memory_type(type_bits, type_flags, wanted, from) == -1 || from <= first_memory_type(
            type_bits,
            type_flags,
            wanted,
            from,
        ) < type_flags.len(),
        first_memory_type(type_bits, type_flags, wanted, from) >= 0 ==> {
            let r = first_memory_type(type_bits, type_flags, wanted, from);
            bit_set(type_bits, r as u32) && includes_bits(type_flags[r], wanted)
        },
        forall|k: int|
            from <= k < type_flags.len() && (first_memory_type(type_bits, type_flags, wanted, from) == -1 || k
                < first_memory_type(type_bits, type_flags, wanted, from)) ==> !(bit_set(type_bits, k as u32)
                && includes_bits(#[trigger] type_flags[k], wanted)),
    decreases type_flags.len() - from,
{
    if from < type_flags.len() {
        lemma_memory_type_from(type_bits, type_flags, wanted, from + 1);
        has_all_is_every_mask_bit(type_flags[from], wanted);
        let b = from as u32;
        assert((type_bits & (1u32 << b) != 0u32) <==> ((type_bits >> b) & 1u32 == 1u32)) by (bit_vector)
            requires
                b < 32u32,
        ;
    }
}

/// Law: the presenting family picked is the first family that can present;
/// when none is picked, no family can.
pub proof fn first_present_is_first_presenting_family(fams: Seq<QueueFamilySupport>)
    ensures
        -1 <= first_present(fams) < fams.len(),
        first_present(fams) >= 0 ==> fams[first_present(fams)].present,
        forall|k: int|
            0 <= k < fams.len() && (first_present(fams) == -1 || k < first_present(fams)) ==> !(#[trigger] fams[k]).present,
    decreases fams.len(),
{
    if fams.len() > 0 {
        let rest = fams.drop_first();
        first_present_is_first_presenting_family(rest);
        assert forall|k: int|
            0 <= k < fams.len() && (first_present(fams) == -1 || k < first_present(fams)) implies !(
            #[trigger] fams[k]).present by {
            if k > 0 {
                assert(fams[k] == rest[k - 1]);
            }
        }
        if first_present(fams) > 0 {
            assert(fams[first_present(fams)] == rest[first_present(rest)]);
        }
    }
}

/// The families of a device offer presentation, every bit of `main_mask` in
/// one family and every bit of `async_mask` in one family.
pub open spec fn offers_all_queues(fams: Seq<QueueFamilySupport>, main_mask: u32, async_mask: u32) -> bool {
    &&& exists|k: int| 0 <= k < fams.len() && (#[trigger] fams[k]).present
    &&& exists|k: int| 0 <= k < fams.len() && includes_bits((#[trigger] fams[k]).flags, main_mask)
    &&& exists|k: int| 0 <= k < fams.len() && includes_bits((#[trigger] fams[k]).flags, async_mask)
}

proof fn lemma_usable_iff_offers(fams: Seq<QueueFamilySupport>, main_mask: u32, async_mask: u32)
    ensures
        device_usable(fams, main_mask, async_mask) <==> offers_all_queues(fams, main_mask, async_mask),
{
    first_present_is_first_presenting_family(fams);
    first_with_is_first_family_with_the_mask(fams, main_mask);
    first_with_is_first_family_with_the_mask(fams, async_mask);
    if offers_all_queues(fams, main_mask, async_mask) {
        let a = choose|k: int| 0 <= k < fams.len() && (#[trigger] fams[k]).present;
        let b = choose|k: int| 0 <= k < fams.len() && includes_bits((#[trigger] fams[k]).flags, main_mask);
        let c = choose|k: int| 0 <= k < fams.len() && includes_bits((#[trigger] fams[k]).flags, async_mask);
    }
}

/// Law: the device picked is the first whose families offer presentation
/// and every bit of each mask (more bits are fine); when none is picked, no
/// device offers them all.
pub proof fn first_usable_is_first_device_offering_all_queues(
    devices: Seq<Seq<QueueFamilySupport>>,
    main_mask: u32,
    async_mask: u32,
)
    ensures
        -1 <= first_usable(devices, main_mask, async_mask) < devices.len(),
        first_usable(devices, main_mask, async_mask) >= 0 ==> offers_all_queues(
            devices[first_usable(devices, main_mask, async_mask)],
            main_mask,
            async_mask,
        ),
        forall|k: int|
            0 <= k < devices.len() && (first_usable(devices, main_mask, async_mask) == -1 || k < first_usable(
                devices,
                main_mask,
                async_mask,
            )) ==> !offers_all_queues(#[trigger] devices[k], main_mask, async_mask),
    decreases devices.len(),
{
    if devices.len() > 0 {
        let rest = devices.drop_first();
        first_usable_is_first_device_offering_all_queues(rest, main_mask, async_mask);
        lemma_usable_iff_offers(devices[0], main_mask, async_mask);
        assert forall|k: int|
            0 <= k < devices.len() && (first_usable(devices, main_mask, async_mask) == -1 || k < first_usable(
                devices,
                main_mask,
                async_mask,
            )) implies !offers_all_queues(#[trigger] devices[k], main_mask, async_mask) by {
            if k > 0 {
                assert(devices[k] == rest[k - 1]);
            }
        }
        if first_usable(devices, main_mask, async_mask) > 0 {
            assert(devices[first_usable(devices, main_mask, async_mask)] == rest[first_usable(
                rest,
                main_mask,
                async_mask,
            )]);
        }
    }
}

} // verus!
