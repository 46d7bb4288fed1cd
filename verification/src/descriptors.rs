pub mod uniform_descriptor;

use ash::vk;
use vstd::prelude::*;

verus! {

#[verifier::external_type_specification]
#[verifier::external_body]
pub struct ExShaderStageFlags(vk::ShaderStageFlags);

/// The kind of a descriptor.
#[derive(Copy, Clone, Debug, PartialEq, Eq, Structural)]
pub enum DescriptorType {
    Uniform,
    Storage,
    Image,
    Sampler,
}

/// The builder a binding number belongs to: its kind and its index among the
/// builders of that kind.
#[derive(Copy, Clone, Debug, PartialEq, Eq, Structural)]
pub enum BindingReference {
    Uniform(usize),
    Storage(usize),
    Image(usize),
    Sampler(usize),
}

/// A descriptor to create from the named renderer resource.
#[derive(Clone, Debug)]
pub enum CreationReference {
    Uniform(String),
    Storage(String),
    Image(String),
    Sampler(String),
}

/// A descriptor by kind and index among the descriptors of that kind.
#[derive(Copy, Clone, Debug, PartialEq, Eq, Structural)]
pub struct DescriptorReference {
    pub descriptor_type: DescriptorType,
    pub index: usize,
}

impl DescriptorReference {
    pub fn new(descriptor_type: DescriptorType, index: usize) -> (r: DescriptorReference)
        ensures
            r.descriptor_type == descriptor_type,
            r.index == index,
    {
        DescriptorReference { descriptor_type, index }
    }
}

/// The binding reference of the `index`-th builder of kind `t`.
pub open spec fn binding_ref_of(t: DescriptorType, index: usize) -> BindingReference {
    match t {
        DescriptorType::Uniform => BindingReference::Uniform(index),
        DescriptorType::Storage => BindingReference::Storage(index),
        DescriptorType::Image => BindingReference::Image(index),
        DescriptorType::Sampler => BindingReference::Sampler(index),
    }
}

/// The kind and index a binding reference names.
pub open spec fn binding_ref_parts(r: BindingReference) -> (DescriptorType, usize) {
    match r {
        BindingReference::Uniform(i) => (DescriptorType::Uniform, i),
        BindingReference::Storage(i) => (DescriptorType::Storage, i),
        BindingReference::Image(i) => (DescriptorType::Image, i),
        BindingReference::Sampler(i) => (DescriptorType::Sampler, i),
    }
}

/// The binding numbers of a list of (binding, builder) pairs, each with `t`.
pub open spec fn bindings_of<B>(builders: Seq<(u32, B)>, t: DescriptorType) -> Seq<(u32, DescriptorType)> {
    builders.map_values(|b: (u32, B)| (b.0, t))
}

/// The pool size entry for `n` descriptors of kind `t` over `count` sets:
/// none when `n` is 0.
pub open spec fn pool_entry(t: DescriptorType, n: nat, count: nat) -> Seq<(DescriptorType, u32)> {
    if n > 0 {
        seq![(t, (n * count * 8) as u32)]
    } else {
        Seq::empty()
    }
}

/// Collects the descriptors of a set layout, handing out binding numbers in
/// the order descriptors are added, whatever their kind.
pub struct DescriptorsBuilder<Ub, Sb, Ib, Pb> {
    pub count: Option<usize>,
    pub stage: Option<vk::ShaderStageFlags>,
    pub uniform_builders: Vec<(u32, Ub)>,
    pub storage_builders: Vec<(u32, Sb)>,
    pub image_builders: Vec<(u32, Ib)>,
    pub sampler_builders: Vec<(u32, Pb)>,
    pub next_binding: u32,
    pub binding_references: Vec<BindingReference>,
    pub desciptor_references: Vec<DescriptorReference>,
}


fn push_bindings<B>(r: &mut Vec<(u32, DescriptorType)>, builders: &Vec<(u32, B)>, t: DescriptorType)
    ensures
        final(r)@ == old(r)@ + bindings_of(builders@, t),
{
    let ghost start = r@;
    let mut i: usize = 0;
    while i < builders.len()
        invariant
            i <= builders@.len(),
            r@ == start + bindings_of(builders@.take(i as int), t),
        decreases builders@.len() - i,
    {
        r.push((builders[i].0, t));
        i = i + 1;
        assert(bindings_of(builders@.take(i as int), t) =~= bindings_of(builders@.take(i - 1), t).push(
            (builders@[i - 1].0, t),
        ));
    }
    assert(builders@.take(i as int) =~= builders@);
}

fn push_pool_entry(r: &mut Vec<(DescriptorType, u32)>, t: DescriptorType, n: usize, count: usize)
    requires
        n * count * 8 <= usize::MAX,
    ensures
        final(r)@ == old(r)@ + pool_entry(t, n as nat, count as nat),
{
    if n > 0 {
        assert(n * count <= n * count * 8) by (nonlinear_arith)
            requires n * count * 8 <= usize::MAX, n > 0;
        let total = n * count * 8;
        r.push((t, total as u32));
        assert(old(r)@ + pool_entry(t, n as nat, count as nat) =~= old(r)@.push((t, total as u32)));
    } else {
        assert(old(r)@ + pool_entry(t, n as nat, count as nat) =~= old(r)@);
    }
}

impl<Ub, Sb, Ib, Pb> DescriptorsBuilder<Ub, Sb, Ib, Pb> {
    /// The number of binding numbers handed out so far.
    pub open spec fn binding_count(&self) -> nat {
        self.next_binding as nat
    }

    /// The binding number of the `i`-th builder of kind `t`.
    pub open spec fn binding_of(&self, t: DescriptorType, i: int) -> u32 {
        match t {
            DescriptorType::Uniform => self.uniform_builders@[i].0,
            DescriptorType::Storage => self.storage_builders@[i].0,
            DescriptorType::Image => self.image_builders@[i].0,
            DescriptorType::Sampler => self.sampler_builders@[i].0,
        }
    }

    /// The number of builders of kind `t`.
    pub open spec fn kind_len(&self, t: DescriptorType) -> nat {
        match t {
            DescriptorType::Uniform => self.uniform_builders@.len(),
            DescriptorType::Storage => self.storage_builders@.len(),
            DescriptorType::Image => self.image_builders@.len(),
            DescriptorType::Sampler => self.sampler_builders@.len(),
        }
    }

    /// Binding numbers 0, 1, ... are each held by exactly one builder: the one
    /// that `binding_references` names, and `desciptor_references` agrees.
    pub open spec fn wf(&self) -> bool {
        &&& self.binding_references@.len() == self.binding_count()
        &&& self.desciptor_references@.len() == self.binding_count()
        &&& forall|b: int| 0 <= b < self.binding_count() ==> {
            let (t, i) = binding_ref_parts(#[trigger] self.binding_references@[b]);
            &&& i < self.kind_len(t)
            &&& self.binding_of(t, i as int) == b
            &&& self.desciptor_references@[b] == DescriptorReference { descriptor_type: t, index: i }
        }
        &&& forall|t: DescriptorType, i: int| 0 <= i < self.kind_len(t) ==> {
            &&& #[trigger] self.binding_of(t, i) < self.binding_count()
            &&& self.binding_references@[self.binding_of(t, i) as int] == binding_ref_of(t, i as usize)
        }
    }

    pub fn new() -> (r: Self)
        ensures
            r.wf(),
            r.count is None,
            r.stage is None,
            r.binding_count() == 0,
            r.uniform_builders@.len() == 0,
            r.storage_builders@.len() == 0,
            r.image_builders@.len() == 0,
            r.sampler_builders@.len() == 0,
    {
        DescriptorsBuilder {
            count: None,
            stage: None,
            uniform_builders: Vec::new(),
            storage_builders: Vec::new(),
            image_builders: Vec::new(),
            sampler_builders: Vec::new(),
            next_binding: 0,
            binding_references: Vec::new(),
            desciptor_references: Vec::new(),
        }
    }

    /// Sets the number of descriptor sets to allocate.
    pub fn count(self, count: usize) -> (r: Self)
        ensures
            r.count == Some(count),
            r.stage == self.stage,
            r.uniform_builders == self.uniform_builders,
            r.storage_builders == self.storage_builders,
            r.image_builders == self.image_builders,
            r.sampler_builders == self.sampler_builders,
            r.next_binding == self.next_binding,
            r.binding_references == self.binding_references,
            r.desciptor_references == self.desciptor_references,
    {
        let mut s = self;
        s.count = Some(count);
        s
    }

    /// Sets the shader stages the descriptors are visible to.
    pub fn stage(self, stage: vk::ShaderStageFlags) -> (r: Self)
        ensures
            r.count == self.count,
            r.stage == Some(stage),
            r.uniform_builders == self.uniform_builders,
            r.storage_builders == self.storage_builders,
            r.image_builders == self.image_builders,
            r.sampler_builders == self.sampler_builders,
            r.next_binding == self.next_binding,
            r.binding_references == self.binding_references,
            r.desciptor_references == self.desciptor_references,
    {
        let mut s = self;
        s.stage = Some(stage);
        s
    }

    /// Adds a uniform descriptor; it gets the next binding number.
    pub fn add_uniform_builder(self, builder: Ub) -> (r: Self)
        requires
            self.wf(),
            self.next_binding < u32::MAX,
        ensures
            r.wf(),
            r.uniform_builders@ == self.uniform_builders@.push((self.next_binding, builder)),
            r.binding_references@ == self.binding_references@.push(BindingReference::Uniform(self.uniform_builders@.len() as usize)),
            r.desciptor_references@ == self.desciptor_references@.push(
                DescriptorReference { descriptor_type: DescriptorType::Uniform, index: self.uniform_builders@.len() as usize },
            ),
            r.next_binding == self.next_binding + 1,
            r.count == self.count,
            r.stage == self.stage,
            r.storage_builders == self.storage_builders,
            r.image_builders == self.image_builders,
            r.sampler_builders == self.sampler_builders,
    {
        let mut s = self;
        let index = s.uniform_builders.len();
        s.binding_references.push(BindingReference::Uniform(index));
        s.desciptor_references.push(DescriptorReference::new(DescriptorType::Uniform, index));
        s.uniform_builders.push((s.next_binding, builder));
        s.next_binding = s.next_binding + 1;
        proof { self.lemma_add_keeps_wf(&s, DescriptorType::Uniform, index); }
        s
    }

    /// Adds a storage descriptor; it gets the next binding number.
    pub fn add_storage_builder(self, builder: Sb) -> (r: Self)
        requires
            self.wf(),
            self.next_binding < u32::MAX,
        ensures
            r.wf(),
            r.storage_builders@ == self.storage_builders@.push((self.next_binding, builder)),
            r.binding_references@ == self.binding_references@.push(BindingReference::Storage(self.storage_builders@.len() as usize)),
            r.desciptor_references@ == self.desciptor_references@.push(
                DescriptorReference { descriptor_type: DescriptorType::Storage, index: self.storage_builders@.len() as usize },
            ),
            r.next_binding == self.next_binding + 1,
            r.count == self.count,
            r.stage == self.stage,
            r.uniform_builders == self.uniform_builders,
            r.image_builders == self.image_builders,
            r.sampler_builders == self.sampler_builders,
    {
        let mut s = self;
        let index = s.storage_builders.len();
        s.binding_references.push(BindingReference::Storage(index));
        s.desciptor_references.push(DescriptorReference::new(DescriptorType::Storage, index));
        s.storage_builders.push((s.next_binding, builder));
        s.next_binding = s.next_binding + 1;
        proof { self.lemma_add_keeps_wf(&s, DescriptorType::Storage, index); }
        s
    }

    /// Adds a image descriptor; it gets the next binding number.
    pub fn add_image_builder(self, builder: Ib) -> (r: Self)
        requires
            self.wf(),
            self.next_binding < u32::MAX,
        ensures
            r.wf(),
            r.image_builders@ == self.image_builders@.push((self.next_binding, builder)),
            r.binding_references@ == self.binding_references@.push(BindingReference::Image(self.image_builders@.len() as usize)),
            r.desciptor_references@ == self.desciptor_references@.push(
                DescriptorReference { descriptor_type: DescriptorType::Image, index: self.image_builders@.len() as usize },
            ),
            r.next_binding == self.next_binding + 1,
            r.count == self.count,
            r.stage == self.stage,
            r.uniform_builders == self.uniform_builders,
            r.storage_builders == self.storage_builders,
            r.sampler_builders == self.sampler_builders,
    {
        let mut s = self;
        let index = s.image_builders.len();
        s.binding_references.push(BindingReference::Image(index));
        s.desciptor_references.push(DescriptorReference::new(DescriptorType::Image, index));
        s.image_builders.push((s.next_binding, builder));
        s.next_binding = s.next_binding + 1;
        proof { self.lemma_add_keeps_wf(&s, DescriptorType::Image, index); }
        s
    }

    /// Adds a sampler descriptor; it gets the next binding number.
    pub fn add_sampler_builder(self, builder: Pb) -> (r: Self)
        requires
            self.wf(),
            self.next_binding < u32::MAX,
        ensures
            r.wf(),
            r.sampler_builders@ == self.sampler_builders@.push((self.next_binding, builder)),
            r.binding_references@ == self.binding_references@.push(BindingReference::Sampler(self.sampler_builders@.len() as usize)),
            r.desciptor_references@ == self.desciptor_references@.push(
                DescriptorReference { descriptor_type: DescriptorType::Sampler, index: self.sampler_builders@.len() as usize },
            ),
            r.next_binding == self.next_binding + 1,
            r.count == self.count,
            r.stage == self.stage,
            r.uniform_builders == self.uniform_builders,
            r.storage_builders == self.storage_builders,
            r.image_builders == self.image_builders,
    {
        let mut s = self;
        let index = s.sampler_builders.len();
        s.binding_references.push(BindingReference::Sampler(index));
        s.desciptor_references.push(DescriptorReference::new(DescriptorType::Sampler, index));
        s.sampler_builders.push((s.next_binding, builder));
        s.next_binding = s.next_binding + 1;
        proof { self.lemma_add_keeps_wf(&s, DescriptorType::Sampler, index); }
        s
    }


    /// The (binding number, kind) of every descriptor of the set layout:
    /// uniform buffers, then storage buffers, then storage images, then
    /// combined image samplers, each kind in the order added.
    pub fn layout_bindings(&self) -> (r: Vec<(u32, DescriptorType)>)
        ensures
            r@ == bindings_of(self.uniform_builders@, DescriptorType::Uniform) + bindings_of(
                self.storage_builders@,
                DescriptorType::Storage,
            ) + bindings_of(self.image_builders@, DescriptorType::Image) + bindings_of(
                self.sampler_builders@,
                DescriptorType::Sampler,
            ),
    {
        let mut r: Vec<(u32, DescriptorType)> = Vec::new();
        push_bindings(&mut r, &self.uniform_builders, DescriptorType::Uniform);
        push_bindings(&mut r, &self.storage_builders, DescriptorType::Storage);
        push_bindings(&mut r, &self.image_builders, DescriptorType::Image);
        push_bindings(&mut r, &self.sampler_builders, DescriptorType::Sampler);
        r
    }

    /// The descriptor pool sizes: for each kind that has descriptors, in the
    /// order uniform, storage, image, sampler, the kind with room for eight
    /// times its descriptors in each of the `count` sets (the product taken
    /// modulo 2^32).
    pub fn pool_sizes(&self) -> (r: Vec<(DescriptorType, u32)>)
        requires
            self.count is Some,
            self.uniform_builders@.len() * self.count->0 * 8 <= usize::MAX,
            self.storage_builders@.len() * self.count->0 * 8 <= usize::MAX,
            self.image_builders@.len() * self.count->0 * 8 <= usize::MAX,
            self.sampler_builders@.len() * self.count->0 * 8 <= usize::MAX,
        ensures
            r@ == pool_entry(DescriptorType::Uniform, self.uniform_builders@.len(), self.count->0 as nat)
                + pool_entry(DescriptorType::Storage, self.storage_builders@.len(), self.count->0 as nat)
                + pool_entry(DescriptorType::Image, self.image_builders@.len(), self.count->0 as nat)
                + pool_entry(DescriptorType::Sampler, self.sampler_builders@.len(), self.count->0 as nat),
    {
        let count = match self.count {
            Some(c) => c,
            None => 0,
        };
        let mut r: Vec<(DescriptorType, u32)> = Vec::new();
        push_pool_entry(&mut r, DescriptorType::Uniform, self.uniform_builders.len(), count);
        push_pool_entry(&mut r, DescriptorType::Storage, self.storage_builders.len(), count);
        push_pool_entry(&mut r, DescriptorType::Image, self.image_builders.len(), count);
        push_pool_entry(&mut r, DescriptorType::Sampler, self.sampler_builders.len(), count);
        r
    }

    proof fn lemma_add_keeps_wf(&self, s: &Self, t: DescriptorType, idx: usize)
        requires
            idx == self.kind_len(t),
            self.wf(),
            s.next_binding == self.next_binding + 1,
            s.binding_references@ == self.binding_references@.push(binding_ref_of(t, idx)),
            s.desciptor_references@ == self.desciptor_references@.push(
                DescriptorReference { descriptor_type: t, index: idx },
            ),
            s.kind_len(t) == self.kind_len(t) + 1,
            s.binding_of(t, idx as int) == self.next_binding,
            forall|u: DescriptorType, i: int| 0 <= i < self.kind_len(u) ==> s.binding_of(u, i) == self.binding_of(u, i),
            forall|u: DescriptorType| u != t ==> s.kind_len(u) == self.kind_len(u),
        ensures
            s.wf(),
    {
        let n = self.next_binding as int;
        assert forall|b: int| 0 <= b < s.binding_count() implies {
            let (u, i) = binding_ref_parts(#[trigger] s.binding_references@[b]);
            &&& i < s.kind_len(u)
            &&& s.binding_of(u, i as int) == b
            &&& s.desciptor_references@[b] == DescriptorReference { descriptor_type: u, index: i }
        } by {
            if b < n {
                assert(s.binding_references@[b] == self.binding_references@[b]);
                assert(s.desciptor_references@[b] == self.desciptor_references@[b]);
            } else {
                assert(s.binding_references@[b] == binding_ref_of(t, idx));
            }
        }
        assert forall|u: DescriptorType, i: int| 0 <= i < s.kind_len(u) implies {
            &&& #[trigger] s.binding_of(u, i) < s.binding_count()
            &&& s.binding_references@[s.binding_of(u, i) as int] == binding_ref_of(u, i as usize)
        } by {
            if i < self.kind_len(u) {
                assert(s.binding_of(u, i) == self.binding_of(u, i));
                assert(self.binding_of(u, i) < self.binding_count());
            } else {
                assert(u == t);
            }
        }
    }
}

} // verus!
