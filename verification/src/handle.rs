use vstd::prelude::*;

verus! {

/// Bits of a handle that hold the slot index.
pub const INDEX_BITS: u32 = 21;

/// Bits of a handle that hold the slot generation.
pub const GENERATION_BITS: u32 = 11;

/// `(1 << INDEX_BITS) - 1`.
pub const INDEX_MASK: u32 = 0x1f_ffff;

/// `(1 << GENERATION_BITS) - 1`.
pub const GENERATION_MASK: u32 = 0x7ff;

/// A reference to an entity: a slot index in the low 21 bits and the slot's
/// generation in the 11 bits above it, so that a handle to a removed entity
/// no longer matches a new occupant of the same slot.
#[derive(Debug, Clone, Copy, PartialEq, Eq, Structural, Hash, Default)]
pub struct EntityHandle(pub u32);

/// The raw bits of the handle for slot `idx` at `generation`.
pub open spec fn handle_bits(idx: u32, generation: u16) -> u32 {
    (((generation as u32) & GENERATION_MASK) << INDEX_BITS) | (idx & INDEX_MASK)
}

/// The generation that follows `generation`, skipping 0 (which only the null
/// handle uses) and wrapping after `MAX_GENERATION`.
pub open spec fn spec_next_generation(generation: u16) -> u16 {
    let next = (((generation & 0x7ff) as int + 1) % 0x800) as u16;
    if next == 0 {
        1
    } else {
        next
    }
}

impl EntityHandle {
    /// The handle that refers to no entity.
    pub fn null() -> (h: Self)
        ensures
            h.0 == 0,
    {
        EntityHandle(0)
    }

    /// The number of slot indices a handle can express.
    pub const MAX_ENTITIES: usize = 0x20_0000;

    /// The largest generation a handle can express.
    pub const MAX_GENERATION: u16 = 0x7ff;

    pub open spec fn spec_index(self) -> u32 {
        self.0 & INDEX_MASK
    }

    pub open spec fn spec_generation(self) -> u16 {
        ((self.0 >> INDEX_BITS) & GENERATION_MASK) as u16
    }

    /// Packs a slot index and generation; bits beyond the fields are dropped.
    pub fn new(idx: u32, generation: u16) -> (h: Self)
        ensures
            h.0 == handle_bits(idx, generation),
    {
        EntityHandle((((generation as u32) & GENERATION_MASK) << INDEX_BITS) | (idx & INDEX_MASK))
    }

    pub fn index(self) -> (r: u32)
        ensures
            r == self.spec_index(),
    {
        self.0 & INDEX_MASK
    }

    pub fn generation(self) -> (r: u16)
        ensures
            r == self.spec_generation(),
    {
        ((self.0 >> INDEX_BITS) & GENERATION_MASK) as u16
    }

    pub fn is_null(self) -> (r: bool)
        ensures
            r == (self.0 == 0),
    {
        self.0 == 0
    }

    pub fn next_generation(generation: u16) -> (r: u16)
        ensures
            r == spec_next_generation(generation),
    {
        let low = generation & Self::MAX_GENERATION;
        assert(generation & 0x7ff <= 0x7ff) by (bit_vector);
        let next = (low + 1) & Self::MAX_GENERATION;
        proof {
            let g = generation;
            assert(((((g & 0x7ff) + 1) as u16) & 0x7ff) as int == ((g & 0x7ff) as int + 1) % 0x800) by (bit_vector);
        }
        match next {
            0 => 1,
            n => n,
        }
    }
}

/// A handle gives back the index and generation it was built from, each cut
/// to its field width.
pub proof fn lemma_handle_fields(idx: u32, generation: u16)
    ensures
        EntityHandle(handle_bits(idx, generation)).spec_index() == idx & INDEX_MASK,
        EntityHandle(handle_bits(idx, generation)).spec_generation() == generation & 0x7ff,
{
    assert(((((generation as u32) & 0x7ff) << 21) | (idx & 0x1f_ffff)) & 0x1f_ffff == idx & 0x1f_ffff)
        by (bit_vector);
    assert((((((((generation as u32) & 0x7ff) << 21) | (idx & 0x1f_ffff)) >> 21) & 0x7ff) as u16)
        == generation & 0x7ff) by (bit_vector);
}

/// Rebuilding a handle from its own index and generation gives the same handle.
pub proof fn lemma_handle_rebuild(h: EntityHandle)
    ensures
        handle_bits(h.spec_index(), h.spec_generation()) == h.0,
{
    let x = h.0;
    assert(((((((x >> 21) & 0x7ff) as u16) as u32) & 0x7ff) << 21) | ((x & 0x1f_ffff) & 0x1f_ffff) == x)
        by (bit_vector);
}

/// The next generation is never 0 and never above `MAX_GENERATION`; it is one
/// more than the current generation until that reaches `MAX_GENERATION`, then 1.
pub proof fn lemma_next_generation(generation: u16)
    ensures
        1 <= spec_next_generation(generation) <= 0x7ff,
        (generation & 0x7ff) < 0x7ff ==> spec_next_generation(generation) == (generation & 0x7ff) + 1,
        (generation & 0x7ff) == 0x7ff ==> spec_next_generation(generation) == 1,
{
    let g = generation;
    assert(g & 0x7ff <= 0x7ff) by (bit_vector);
}

} // verus!
