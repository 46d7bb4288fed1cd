use vstd::prelude::*;

verus! {

/// A renderer resource: the index of a buffer set or of an image set.
#[derive(Copy, Clone, Debug, PartialEq, Eq, Structural)]
pub enum ResourceReference {
    Buffer(usize),
    Image(usize),
}

/// Index of the last of `names` equal to `name`, or -1.
pub open spec fn last_index_of(names: Seq<String>, name: Seq<char>) -> int
    decreases names.len(),
{
    if names.len() == 0 {
        -1
    } else if names.last()@ == name {
        names.len() - 1
    } else {
        last_index_of(names.drop_last(), name)
    }
}

proof fn lemma_last_index_found(names: Seq<String>, name: Seq<char>, j: int)
    requires
        0 <= j < names.len(),
        names[j]@ == name,
        forall|k: int| j < k < names.len() ==> names[k]@ != name,
    ensures
        last_index_of(names, name) == j,
    decreases names.len(),
{
    if j < names.len() - 1 {
        lemma_last_index_found(names.drop_last(), name, j);
    }
}

proof fn lemma_last_index_absent(names: Seq<String>, name: Seq<char>)
    requires
        forall|k: int| 0 <= k < names.len() ==> names[k]@ != name,
    ensures
        last_index_of(names, name) == -1,
    decreases names.len(),
{
    if names.len() > 0 {
        lemma_last_index_absent(names.drop_last(), name);
    }
}

proof fn lemma_last_index_bounds(names: Seq<String>, name: Seq<char>)
    ensures
        -1 <= last_index_of(names, name) < names.len(),
    decreases names.len(),
{
    if names.len() > 0 {
        lemma_last_index_bounds(names.drop_last(), name);
    }
}

/// Law: after `name` is appended to `names` it refers to the new last entry;
/// every other name refers to the entry it referred to before.
pub proof fn last_index_after_push(names: Seq<String>, added: String, name: Seq<char>)
    ensures
        last_index_of(names.push(added), name) == if added@ == name {
            names.len() as int
        } else {
            last_index_of(names, name)
        },
{
    assert(names.push(added).drop_last() =~= names);
}

/// The index of the last of `names` equal to `name`, if any.
fn find_last(names: &Vec<String>, name: &str) -> (r: Option<usize>)
    ensures
        match r {
            Some(i) => i == last_index_of(names@, name@),
            None => last_index_of(names@, name@) == -1,
        },
{
    let key = name.to_owned();
    let mut i = names.len();
    while i > 0
        invariant
            i <= names@.len(),
            key@ == name@,
            forall|k: int| i <= k < names@.len() ==> names@[k]@ != name@,
        decreases i,
    {
        i = i - 1;
        if names[i] == key {
            proof { lemma_last_index_found(names@, name@, i as int); }
            return Some(i);
        }
    }
    proof { lemma_last_index_absent(names@, name@); }
    None
}

/// The renderer's named resources: sets of `count` buffers and sets of
/// `count` images (one per frame in flight), looked up by name. A name given
/// again refers to the set registered last under it.
pub struct RendererData<B, I> {
    pub count: usize,
    pub buffers: Vec<Vec<B>>,
    pub images: Vec<Vec<I>>,
    pub buffer_names: Vec<String>,
    pub image_names: Vec<String>,
}

impl<B, I> RendererData<B, I> {
    pub open spec fn wf(&self) -> bool {
        &&& self.buffer_names@.len() == self.buffers@.len()
        &&& self.image_names@.len() == self.images@.len()
    }

    /// The index of the buffer set `name` refers to, or -1.
    pub open spec fn buffer_index(&self, name: Seq<char>) -> int {
        last_index_of(self.buffer_names@, name)
    }

    /// The index of the image set `name` refers to, or -1.
    pub open spec fn image_index(&self, name: Seq<char>) -> int {
        last_index_of(self.image_names@, name)
    }

    pub fn new(count: usize) -> (r: Self)
        ensures
            r.wf(),
            r.count == count,
            r.buffers@.len() == 0,
            r.images@.len() == 0,
    {
        RendererData { count, buffers: Vec::new(), images: Vec::new(), buffer_names: Vec::new(), image_names: Vec::new() }
    }

    /// Registers a set of buffers under `name`.
    pub fn insert_buffers(&mut self, name: &str, buffers: Vec<B>)
        requires
            old(self).wf(),
        ensures
            final(self).wf(),
            final(self).buffers@ == old(self).buffers@.push(buffers),
            final(self).buffer_names@.len() == old(self).buffer_names@.len() + 1,
            final(self).buffer_names@.drop_last() == old(self).buffer_names@,
            final(self).buffer_names@.last()@ == name@,
            final(self).images == old(self).images,
            final(self).image_names == old(self).image_names,
            final(self).count == old(self).count,
    {
        self.buffers.push(buffers);
        self.buffer_names.push(name.to_owned());
        assert(self.buffer_names@.drop_last() =~= old(self).buffer_names@);
    }

    /// Registers a set of images under `name`.
    pub fn insert_images(&mut self, name: &str, images: Vec<I>)
        requires
            old(self).wf(),
        ensures
            final(self).wf(),
            final(self).images@ == old(self).images@.push(images),
            final(self).image_names@.len() == old(self).image_names@.len() + 1,
            final(self).image_names@.drop_last() == old(self).image_names@,
            final(self).image_names@.last()@ == name@,
            final(self).buffers == old(self).buffers,
            final(self).buffer_names == old(self).buffer_names,
            final(self).count == old(self).count,
    {
        self.images.push(images);
        self.image_names.push(name.to_owned());
        assert(self.image_names@.drop_last() =~= old(self).image_names@);
    }

    /// Registers a set of already created images (one per frame in flight)
    /// under `name`.
    pub fn add_images_raw(&mut self, name: &str, images: Vec<I>)
        requires
            old(self).wf(),
            images@.len() == old(self).count,
        ensures
            final(self).wf(),
            final(self).images@ == old(self).images@.push(images),
            final(self).image_names@.len() == old(self).image_names@.len() + 1,
            final(self).image_names@.drop_last() == old(self).image_names@,
            final(self).image_names@.last()@ == name@,
            final(self).buffers == old(self).buffers,
            final(self).buffer_names == old(self).buffer_names,
            final(self).count == old(self).count,
    {
        self.insert_images(name, images);
    }

    /// The buffer set `name` refers to.
    pub fn get_buffers(&self, name: &str) -> (r: &Vec<B>)
        requires
            self.wf(),
            self.buffer_index(name@) >= 0,
        ensures
            *r == self.buffers@[self.buffer_index(name@)],
    {
        let i = self.get_buffer_refs(name);
        &self.buffers[i]
    }

    /// The image set `name` refers to.
    pub fn get_images(&self, name: &str) -> (r: &Vec<I>)
        requires
            self.wf(),
            self.image_index(name@) >= 0,
        ensures
            *r == self.images@[self.image_index(name@)],
    {
        let i = self.get_image_refs(name);
        &self.images[i]
    }

    /// The index of the buffer set `name` refers to.
    pub fn get_buffer_refs(&self, name: &str) -> (r: usize)
        requires
            self.wf(),
            self.buffer_index(name@) >= 0,
        ensures
            r == self.buffer_index(name@),
            r < self.buffers@.len(),
    {
        proof { lemma_last_index_bounds(self.buffer_names@, name@); }
        match find_last(&self.buffer_names, name) {
            Some(i) => i,
            None => 0,
        }
    }

    /// The index of the image set `name` refers to.
    pub fn get_image_refs(&self, name: &str) -> (r: usize)
        requires
            self.wf(),
            self.image_index(name@) >= 0,
        ensures
            r == self.image_index(name@),
            r < self.images@.len(),
    {
        proof { lemma_last_index_bounds(self.image_names@, name@); }
        match find_last(&self.image_names, name) {
            Some(i) => i,
            None => 0,
        }
    }

    /// Whether `name` refers to a buffer set.
    pub fn has_buffers(&self, name: &str) -> (b: bool)
        ensures
            b == (self.buffer_index(name@) >= 0),
    {
        find_last(&self.buffer_names, name).is_some()
    }

    /// Whether `name` refers to an image set.
    pub fn has_images(&self, name: &str) -> (b: bool)
        ensures
            b == (self.image_index(name@) >= 0),
    {
        find_last(&self.image_names, name).is_some()
    }

    pub fn get_buffers_from_ref(&self, index: usize) -> (r: &Vec<B>)
        requires
            index < self.buffers@.len(),
        ensures
            *r == self.buffers@[index as int],
    {
        &self.buffers[index]
    }

    pub fn get_images_from_ref(&self, index: usize) -> (r: &Vec<I>)
        requires
            index < self.images@.len(),
        ensures
            *r == self.images@[index as int],
    {
        &self.images[index]
    }
}

impl<B, I> RendererData<B, I> {
    /// Law: after a buffer set is registered under `name`, `name` refers to
    /// that set and every other name refers to the set it referred to before.
    pub proof fn insert_buffers_then_lookup(before: &Self, after: &Self, name: Seq<char>)
        requires
            before.wf(),
            after.wf(),
            after.buffers@.len() == before.buffers@.len() + 1,
            after.buffer_names@.drop_last() == before.buffer_names@,
            after.buffers@.drop_last() == before.buffers@,
        ensures
            after.buffer_names@.last()@ == name ==> after.buffer_index(name) == before.buffers@.len()
                && after.buffers@[after.buffer_index(name)] == after.buffers@.last(),
            after.buffer_names@.last()@ != name ==> after.buffer_index(name) == before.buffer_index(name),
            after.buffer_names@.last()@ != name && before.buffer_index(name) >= 0 ==> after.buffers@[after.buffer_index(
                name,
            )] == before.buffers@[before.buffer_index(name)],
    {
        let added = after.buffer_names@.last();
        assert(after.buffer_names@ =~= before.buffer_names@.push(added));
        last_index_after_push(before.buffer_names@, added, name);
        lemma_last_index_bounds(before.buffer_names@, name);
        if added@ != name && before.buffer_index(name) >= 0 {
            assert(after.buffers@[before.buffer_index(name)] == after.buffers@.drop_last()[before.buffer_index(name)]);
        }
    }

    /// Law: after an image set is registered under `name`, `name` refers to
    /// that set and every other name refers to the set it referred to before.
    pub proof fn insert_images_then_lookup(before: &Self, after: &Self, name: Seq<char>)
        requires
            before.wf(),
            after.wf(),
            after.images@.len() == before.images@.len() + 1,
            after.image_names@.drop_last() == before.image_names@,
            after.images@.drop_last() == before.images@,
        ensures
            after.image_names@.last()@ == name ==> after.image_index(name) == before.images@.len()
                && after.images@[after.image_index(name)] == after.images@.last(),
            after.image_names@.last()@ != name ==> after.image_index(name) == before.image_index(name),
            after.image_names@.last()@ != name && before.image_index(name) >= 0 ==> after.images@[after.image_index(
                name,
            )] == before.images@[before.image_index(name)],
    {
        let added = after.image_names@.last();
        assert(after.image_names@ =~= before.image_names@.push(added));
        last_index_after_push(before.image_names@, added, name);
        lemma_last_index_bounds(before.image_names@, name);
        if added@ != name && before.image_index(name) >= 0 {
            assert(after.images@[before.image_index(name)] == after.images@.drop_last()[before.image_index(name)]);
        }
    }
}

} // verus!
