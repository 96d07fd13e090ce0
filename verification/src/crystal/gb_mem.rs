//! A snapshot of the Game Boy's 16-bit address space, as the emulator holds it.
use vstd::prelude::*;

verus! {

/// The size of the Game Boy address space.
pub const GB_MEMORY_SIZE: usize = 0x10000;

/// The bytes of the Game Boy address space, `0x0000` to `0xffff`. Addresses are
/// taken modulo `0x10000`, the width of the Game Boy bus; values wider than a
/// byte are stored high byte first.
pub struct GbMemory {
    bytes: Vec<u8>,
}

impl View for GbMemory {
    type V = Seq<u8>;

    open spec fn view(&self) -> Seq<u8> {
        self.contents()
    }
}

/// The byte at `addr` of a memory image.
pub open spec fn byte_at(mem: Seq<u8>, addr: int) -> u8 {
    mem[addr % 0x10000]
}

/// The big-endian 16-bit value at `addr`.
pub open spec fn u16_at(mem: Seq<u8>, addr: int) -> u16 {
    (byte_at(mem, addr) * 256 + byte_at(mem, addr + 1)) as u16
}

/// The big-endian 32-bit value at `addr`.
pub open spec fn u32_at(mem: Seq<u8>, addr: int) -> u32 {
    (byte_at(mem, addr) * 0x1000000 + byte_at(mem, addr + 1) * 0x10000 + byte_at(mem, addr + 2)
        * 0x100 + byte_at(mem, addr + 3)) as u32
}

impl GbMemory {
    pub closed spec fn contents(&self) -> Seq<u8> {
        self.bytes@
    }

    #[verifier::type_invariant]
    spec fn covers_address_space(self) -> bool {
        self.bytes.len() == GB_MEMORY_SIZE
    }

    /// A snapshot of exactly the 0x10000 bytes of the address space; `None` for
    /// any other length.
    pub fn from_bytes(bytes: Vec<u8>) -> (r: Option<Self>)
        ensures
            r is Some <==> bytes@.len() == GB_MEMORY_SIZE,
            r matches Some(m) ==> m@ == bytes@,
    {
        if bytes.len() == GB_MEMORY_SIZE {
            Some(GbMemory { bytes })
        } else {
            None
        }
    }

    pub fn read_u8(&self, addr: u32) -> (r: u8)
        ensures
            r == byte_at(self@, addr as int),
    {
        proof {
            use_type_invariant(self);
        }
        let a = addr as u16;
        assert(a == addr % 0x10000) by (bit_vector)
            requires
                a == addr as u16,
        ;
        self.bytes[a as usize]
    }

    pub fn read_u16(&self, addr: u32) -> (r: u16)
        ensures
            r == u16_at(self@, addr as int),
    {
        let hi = self.read_u8(addr);
        let lo = self.read_u8(addr.wrapping_add(1));
        proof {
            lemma_wrapped_address(addr, 1);
        }
        (hi as u16) * 256 + lo as u16
    }

    pub fn read_u32(&self, addr: u32) -> (r: u32)
        ensures
            r == u32_at(self@, addr as int),
    {
        let b0 = self.read_u8(addr);
        let b1 = self.read_u8(addr.wrapping_add(1));
        let b2 = self.read_u8(addr.wrapping_add(2));
        let b3 = self.read_u8(addr.wrapping_add(3));
        proof {
            lemma_wrapped_address(addr, 1);
            lemma_wrapped_address(addr, 2);
            lemma_wrapped_address(addr, 3);
        }
        (b0 as u32) * 0x1000000 + (b1 as u32) * 0x10000 + (b2 as u32) * 0x100 + b3 as u32
    }
}

/// A 32-bit address that wraps still names the same byte of the bus.
proof fn lemma_wrapped_address(addr: u32, d: u32)
    requires
        d < 4,
    ensures
        (addr.wrapping_add(d) as int) % 0x10000 == (addr + d) % 0x10000,
{
    if addr + d > u32::MAX {
        assert((addr + d - 0x1_0000_0000) % 0x10000 == (addr + d) % 0x10000);
    }
}

} // verus!
