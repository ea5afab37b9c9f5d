//! Entity handles: a slot index paired with a generation counter.

use vstd::prelude::*;
use crate::archetype::ArchetypeId;

verus! {

/// Row sentinel of an entity slot that is free or permanently retired.
///
/// Unlike an archetype id, a row can stand for emptiness without colliding
/// with the empty archetype, which holds live entities.
pub const DEAD_ROW: u32 = 0xffff_ffff;

/// The generation that retires a slot for good instead of wrapping around.
pub const RETIRED_GENERATION: u32 = 0xffff_ffff;

/// A lightweight handle to an entity of a [`World`](crate::world::World).
///
/// The lower 32 bits are the slot index and the upper 32 bits the generation.
/// A despawn advances the generation of the slot before the slot enters the
/// free list; generation `u32::MAX` retires the slot instead of wrapping.
#[derive(Copy, Clone, Debug, PartialEq, Eq, Structural, Hash)]
pub struct Entity(pub u64);

impl Entity {
    /// Sentinel for a dead or null entity. No world ever holds it alive,
    /// because its generation is reserved for retired slots.
    pub open spec fn spec_dangling() -> Entity {
        Entity(u64::MAX)
    }

    #[verifier::when_used_as_spec(spec_dangling)]
    pub fn dangling() -> (e: Entity)
        ensures
            e == Entity::spec_dangling(),
    {
        Entity(u64::MAX)
    }

    /// The slot index, the low half of the packed bits.
    pub open spec fn spec_index(self) -> u32 {
        (self.0 % 0x1_0000_0000) as u32
    }

    /// The generation, the high half of the packed bits.
    pub open spec fn spec_generation(self) -> u32 {
        (self.0 / 0x1_0000_0000) as u32
    }

    /// The handle with the given slot index and generation.
    pub open spec fn spec_new(index: u32, generation: u32) -> Entity {
        Entity((generation * 0x1_0000_0000 + index) as u64)
    }

    #[verifier::when_used_as_spec(spec_new)]
    pub fn new(index: u32, generation: u32) -> (e: Entity)
        ensures
            e == Entity::spec_new(index, generation),
            e.spec_index() == index,
            e.spec_generation() == generation,
    {
        proof {
            let i = index as u64;
            let g = generation as u64;
            assert(((g << 32) | i) == g * 0x1_0000_0000 + i) by (bit_vector)
                requires
                    i <= 0xffff_ffff,
                    g <= 0xffff_ffff,
            ;
        }
        Entity(((generation as u64) << 32) | (index as u64))
    }

    /// The slot index of this handle.
    #[verifier::when_used_as_spec(spec_index)]
    pub fn index(self) -> (index: u32)
        ensures
            index == self.spec_index(),
    {
        let bits: u64 = self.0;
        assert(bits as u32 == (bits % 0x1_0000_0000) as u32) by (bit_vector);
        bits as u32
    }

    /// The generation of this handle, for detecting stale handles.
    #[verifier::when_used_as_spec(spec_generation)]
    pub fn generation(self) -> (generation: u32)
        ensures
            generation == self.spec_generation(),
    {
        let bits: u64 = self.0;
        assert((bits >> 32) as u32 == (bits / 0x1_0000_0000) as u32) by (bit_vector);
        (bits >> 32) as u32
    }

    /// The packed bits, for the wire.
    pub fn bits(self) -> (bits: u64)
        ensures
            bits == self.0,
    {
        self.0
    }

    /// The handle with the given packed bits.
    pub fn from_bits(bits: u64) -> (e: Entity)
        ensures
            e.0 == bits,
    {
        Entity(bits)
    }
}

/// A handle is determined by its index and its generation, and every pair of
/// them is the index and the generation of a handle.
pub proof fn lemma_entity_parts(e: Entity, index: u32, generation: u32)
    ensures
        Entity::spec_new(e.spec_index(), e.spec_generation()) == e,
        Entity::spec_new(index, generation).spec_index() == index,
        Entity::spec_new(index, generation).spec_generation() == generation,
        e == Entity::spec_new(index, generation) <==> (e.spec_index() == index
            && e.spec_generation() == generation),
{
}

/// The null handle carries the retired generation and the highest index.
pub proof fn lemma_dangling_is_retired()
    ensures
        Entity::dangling().spec_generation() == RETIRED_GENERATION,
        Entity::dangling().spec_index() == u32::MAX,
{
}

/// What a world knows of one slot index.
#[derive(Copy, Clone, Debug)]
pub struct EntitySlot {
    pub generation: u32,
    pub archetype: ArchetypeId,
    pub row: u32,
}

impl EntitySlot {
    /// A slot that holds no entity.
    pub fn empty(generation: u32) -> (slot: EntitySlot)
        ensures
            slot.generation == generation,
            slot.archetype == ArchetypeId::empty(),
            slot.row == DEAD_ROW,
    {
        EntitySlot { generation, archetype: ArchetypeId::empty(), row: DEAD_ROW }
    }
}

} // verus!
