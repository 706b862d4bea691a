use vstd::prelude::*;

use crate::pixel::Pixel;

verus! {

/// The number of slots of the color cache.
pub const CACHE_SLOTS: usize = 64;

/// The contents of a fresh cache: every slot transparent black.
pub open spec fn initial_cache() -> Seq<Pixel> {
    Seq::new(64, |i: int| Pixel { r: 0, g: 0, b: 0, a: 0 })
}

/// A fixed table of 64 previously seen pixels, addressed by `Pixel::hash`.
/// A collision is resolved by the last write.
pub struct ColorCache {
    slots: Vec<Pixel>,
}

impl View for ColorCache {
    type V = Seq<Pixel>;

    closed spec fn view(&self) -> Seq<Pixel> {
        self.slots@
    }
}

impl ColorCache {
    pub open spec fn wf(&self) -> bool {
        self@.len() == 64
    }

    pub fn new() -> (c: ColorCache)
        ensures
            c.wf(),
            c@ == initial_cache(),
    {
        let mut slots: Vec<Pixel> = Vec::new();
        while slots.len() < CACHE_SLOTS
            invariant
                slots@.len() <= 64,
                forall|i: int| 0 <= i < slots@.len() ==> slots@[i] == (Pixel { r: 0, g: 0, b: 0, a: 0 }),
            decreases 64 - slots@.len(),
        {
            slots.push(Pixel::new(0, 0, 0, 0));
        }
        let c = ColorCache { slots };
        assert(c@ =~= initial_cache());
        c
    }

    /// The pixel in slot `index`.
    pub fn get(&self, index: u8) -> (p: Pixel)
        requires
            self.wf(),
            index < 64,
        ensures
            p == self@[index as int],
    {
        self.slots[index as usize]
    }

    /// Stores `p` in its slot, overwriting what was there.
    pub fn put(&mut self, p: Pixel)
        requires
            old(self).wf(),
        ensures
            final(self).wf(),
            final(self)@ == old(self)@.update(p.spec_hash(), p),
    {
        let h = p.hash();
        self.slots.set(h, p);
    }
}

} // verus!
