use ash::vk;
use vstd::prelude::*;

verus! {

/// The largest push constant data, in bytes, that the renderer accepts.
pub const MAX_PUSH_CONSTANT_SIZE: usize = 128;

/// `old` resized to `len` bytes: cut, or padded with zeros.
pub open spec fn resized(old: Seq<u8>, len: nat) -> Seq<u8> {
    if len <= old.len() {
        old.take(len as int)
    } else {
        old + Seq::new((len - old.len()) as nat, |i: int| 0u8)
    }
}

/// Collects the size and stage of a push constant.
pub struct PushConstantBuilder {
    size: usize,
    stage: Option<vk::ShaderStageFlags>,
}

/// A push constant block: its bytes, its declared size and its stages.
pub struct PushConstant {
    pub data: Vec<u8>,
    pub size: usize,
    pub stage: vk::ShaderStageFlags,
}

impl PushConstantBuilder {
    /// The size set so far.
    pub closed spec fn pending_size(&self) -> usize {
        self.size
    }

    /// The stages set so far.
    pub closed spec fn pending_stage(&self) -> Option<vk::ShaderStageFlags> {
        self.stage
    }

    pub fn new() -> (r: PushConstantBuilder)
        ensures
            r.pending_size() == 0,
            r.pending_stage() is None,
    {
        PushConstantBuilder { size: 0, stage: None }
    }

    pub fn size(self, size: usize) -> (r: PushConstantBuilder)
        ensures
            r.pending_size() == size,
            r.pending_stage() == self.pending_stage(),
    {
        let mut s = self;
        s.size = size;
        s
    }

    pub fn stage(self, stage: vk::ShaderStageFlags) -> (r: PushConstantBuilder)
        ensures
            r.pending_size() == self.pending_size(),
            r.pending_stage() == Some(stage),
    {
        let mut s = self;
        s.stage = Some(stage);
        s
    }

    /// Whether the stages have been set.
    pub fn stage_is_set(&self) -> (b: bool)
        ensures
            b == self.pending_stage() is Some,
    {
        self.stage.is_some()
    }

    /// A zeroed push constant of the size and stages set.
    pub fn build(&self) -> (r: PushConstant)
        requires
            self.pending_stage() is Some,
        ensures
            r.size == self.pending_size(),
            r.stage == self.pending_stage()->0,
            r.data@ == Seq::new(self.pending_size() as nat, |i: int| 0u8),
    {
        PushConstant::new(self.size, self.stage.unwrap())
    }
}

impl PushConstant {
    /// A push constant of `size` zero bytes for `stage`.
    pub fn new(size: usize, stage: vk::ShaderStageFlags) -> (r: PushConstant)
        ensures
            r.size == size,
            r.stage == stage,
            r.data@ == Seq::new(size as nat, |i: int| 0u8),
    {
        let mut data: Vec<u8> = Vec::new();
        let mut i: usize = 0;
        while i < size
            invariant
                i <= size,
                data@ == Seq::new(i as nat, |k: int| 0u8),
            decreases size - i,
        {
            data.push(0u8);
            i = i + 1;
            assert(data@ =~= Seq::new(i as nat, |k: int| 0u8));
        }
        PushConstant { data, size, stage }
    }

    /// Stores the bytes of a value: the data takes the length of `bytes`
    /// (cut, or padded with zeros), and its first `size` bytes become the
    /// first `size` bytes of `bytes`.
    pub fn set_data_bytes(&mut self, bytes: &[u8])
        requires
            bytes@.len() <= MAX_PUSH_CONSTANT_SIZE,
            old(self).size <= bytes@.len(),
        ensures
            final(self).data@ == bytes@.take(old(self).size as int) + resized(old(self).data@, bytes@.len()).skip(
                old(self).size as int,
            ),
            final(self).size == old(self).size,
            final(self).stage == old(self).stage,
    {
        let len = bytes.len();
        let ghost target = resized(self.data@, len as nat);
        if len <= self.data.len() {
            self.data.truncate(len);
        } else {
            while self.data.len() < len
                invariant
                    self.data@.len() <= len,
                    old(self).data@.len() <= self.data@.len(),
                    self.data@ == old(self).data@ + Seq::new((self.data@.len() - old(self).data@.len()) as nat, |i: int| 0u8),
                    self.size == old(self).size,
                    self.stage == old(self).stage,
                decreases len - self.data@.len(),
            {
                self.data.push(0u8);
                assert(self.data@ =~= old(self).data@ + Seq::new((self.data@.len() - old(self).data@.len()) as nat, |i: int| 0u8));
            }
        }
        assert(self.data@ =~= target);
        let mut i: usize = 0;
        while i < self.size
            invariant
                self.size == old(self).size,
                self.stage == old(self).stage,
                self.size <= len,
                len == bytes@.len(),
                i <= self.size,
                target.len() == len,
                self.data@ == bytes@.take(i as int) + target.skip(i as int),
            decreases self.size - i,
        {
            self.data.set(i, bytes[i]);
            i = i + 1;
            assert(self.data@ =~= bytes@.take(i as int) + target.skip(i as int));
        }
    }
}

} // verus!
