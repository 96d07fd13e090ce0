//! The parts of a Gen 2 party, wild or egg structure that the helper reads.
use vstd::prelude::*;

verus! {

#[derive(Clone, Copy, Debug, PartialEq, Eq)]
pub struct Pk2 {
    pub spec_index: u8,
    pub atk: u8,
    pub def: u8,
    pub spe: u8,
    pub spc: u8,
    pub experience: u32,
}

impl Pk2 {
    /// Splits the two DV bytes into their nibbles: Attack and Defense from the
    /// first, Speed and Special from the second, the high nibble first.
    pub fn new(spec_index: u8, atkdef: u8, spespc: u8, experience: u32) -> (r: Self)
        ensures
            r.spec_index == spec_index,
            r.atk == atkdef / 16,
            r.def == atkdef % 16,
            r.spe == spespc / 16,
            r.spc == spespc % 16,
            r.experience == experience,
    {
        assert(atkdef >> 4 == atkdef / 16 && atkdef & 15 == atkdef % 16) by (bit_vector);
        assert(spespc >> 4 == spespc / 16 && spespc & 15 == spespc % 16) by (bit_vector);
        Pk2 {
            spec_index,
            atk: atkdef >> 4,
            def: atkdef & 15,
            spe: spespc >> 4,
            spc: spespc & 15,
            experience,
        }
    }
}

} // verus!
