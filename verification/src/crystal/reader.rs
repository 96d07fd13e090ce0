//! Read-only accessors of English Crystal's game state.
use vstd::prelude::*;
use super::gb_mem::{byte_at, u16_at, u32_at, GbMemory};
use super::pk2::Pk2;

verus! {

/// Where the reader finds its values: `div_ptr` and `pc_reg_ptr` are addresses
/// of the emulator on the host, the others Game Boy addresses.
#[derive(Clone, Copy, Debug, PartialEq, Eq)]
pub struct Gen2Addresses {
    pub div_ptr: u32,
    pub pc_reg_ptr: u32,
    pub gb_rng_ptr: u32,
    pub dst_ptr: u32,
    pub time_ptr: u32,
    pub time_day_ptr: u32,
    pub play_time_ptr: u32,
    pub trainer_id_ptr: u32,
}

/// The addresses of English Crystal.
pub open spec fn crystal_addresses() -> Gen2Addresses {
    Gen2Addresses {
        div_ptr: 0x22f794,
        pc_reg_ptr: 0x22f5fc,
        gb_rng_ptr: 0xffe1,
        dst_ptr: 0xd4c2,
        time_ptr: 0xff94,
        time_day_ptr: 0xd4cb,
        play_time_ptr: 0xd4c5,
        trainer_id_ptr: 0xd47b,
    }
}

/// The Game Boy address of party slot `slot`.
pub open spec fn party_slot_address(slot: u8) -> int {
    0xdcdf + slot * 0x30
}

/// The Pk2 of the species byte at `species`, the DV bytes at `atkdef` and
/// `spespc`, and the given experience.
pub open spec fn pk2_at(
    mem: Seq<u8>,
    species: int,
    atkdef: int,
    spespc: int,
    experience: u32,
) -> Pk2 {
    Pk2 {
        spec_index: byte_at(mem, species),
        atk: byte_at(mem, atkdef) / 16,
        def: byte_at(mem, atkdef) % 16,
        spe: byte_at(mem, spespc) / 16,
        spc: byte_at(mem, spespc) % 16,
        experience,
    }
}

pub struct Gen2Reader {
    pub addrs: Gen2Addresses,
}

impl Gen2Reader {
    // English Crystal symbols; these accessors are used only after the CrystalEn gate.
    pub fn party_count(&self, mem: &GbMemory) -> (r: u8)
        ensures
            r == byte_at(mem@, 0xdcd7),
    {
        mem.read_u8(0xdcd7)
    }

    /// `EVENT_GOT_DRATINI`: bit 5 of its event byte.
    pub fn dratini_received(&self, mem: &GbMemory) -> (r: bool)
        ensures
            r == (byte_at(mem@, 0xda89) & 0x20 != 0),
    {
        mem.read_u8(0xda89) & 0x20 != 0
    }

    /// The map group and number of the Dragon Shrine, outside battle.
    pub open spec fn in_dragon_shrine_spec(mem: Seq<u8>) -> bool {
        &&& byte_at(mem, 0xdcb5) == 3
        &&& byte_at(mem, 0xdcb6) == 82
        &&& byte_at(mem, 0xd22d) == 0
    }

    pub fn in_dragon_shrine(&self, mem: &GbMemory) -> (r: bool)
        ensures
            r == Self::in_dragon_shrine_spec(mem@),
    {
        mem.read_u8(0xdcb5) == 3 && mem.read_u8(0xdcb6) == 82 && mem.read_u8(0xd22d) == 0
    }

    /// In the shrine with the script stopped at the elder's last text before the
    /// gift, and no text box input pending.
    pub open spec fn dratini_prompt_spec(mem: Seq<u8>) -> bool {
        &&& Self::in_dragon_shrine_spec(mem)
        &&& byte_at(mem, 0xd439) == 0x63
        &&& byte_at(mem, 0xd43a) == 0xc9
        &&& byte_at(mem, 0xd43b) == 0x51
        &&& byte_at(mem, 0xff9e) == 0
    }

    pub fn dratini_prompt(&self, mem: &GbMemory) -> (r: bool)
        ensures
            r == Self::dratini_prompt_spec(mem@),
    {
        // .GiveDratini: writetext (3 bytes), waitbutton (1 byte). ScriptPos is LE.
        self.in_dragon_shrine(mem) && mem.read_u8(0xd439) == 0x63 && mem.read_u8(0xd43a) == 0xc9
            && mem.read_u8(0xd43b) == 0x51 && mem.read_u8(0xff9e) == 0
    }

    /// The level and the fourth move of party slot `slot`.
    pub fn party_level_move4(&self, mem: &GbMemory, slot: u8) -> (r: (u8, u8))
        ensures
            r == (
                byte_at(mem@, party_slot_address(slot) + 0x1f),
                byte_at(mem@, party_slot_address(slot) + 5),
            ),
    {
        let addr: u32 = 0xdcdf + (slot as u32) * 0x30;
        (mem.read_u8(addr + 0x1f), mem.read_u8(addr + 5))
    }

    pub fn crystal() -> (r: Self)
        ensures
            r.addrs == crystal_addresses(),
    {
        Gen2Reader {
            addrs: Gen2Addresses {
                div_ptr: 0x22f794,
                pc_reg_ptr: 0x22f5fc,
                gb_rng_ptr: 0xffe1,
                dst_ptr: 0xd4c2,
                time_ptr: 0xff94,
                time_day_ptr: 0xd4cb,
                play_time_ptr: 0xd4c5,
                trainer_id_ptr: 0xd47b,
            },
        }
    }

    pub fn party(&self, mem: &GbMemory, slot: u8) -> (r: Pk2)
        ensures
            r == pk2_at(
                mem@,
                party_slot_address(slot),
                party_slot_address(slot) + 0x15,
                party_slot_address(slot) + 0x16,
                u32_at(mem@, party_slot_address(slot) + 0x8),
            ),
    {
        let poke_addr: u32 = 0xDCDF + (slot as u32 * 0x30);
        let experience = mem.read_u32(poke_addr + 0x8);
        let atkdef = mem.read_u8(poke_addr + 0x15);
        let spespc = mem.read_u8(poke_addr + 0x16);
        let spec_index = mem.read_u8(poke_addr);
        Pk2::new(spec_index, atkdef, spespc, experience)
    }

    pub fn wild(&self, mem: &GbMemory) -> (r: Pk2)
        ensures
            r == pk2_at(mem@, 0xD206, 0xD20C, 0xD20D, 0),
    {
        let spec_index = mem.read_u8(0xD206);
        let atkdef = mem.read_u8(0xD20C);
        let spespc = mem.read_u8(0xD20D);
        Pk2::new(spec_index, atkdef, spespc, 0)
    }

    pub fn egg(&self, mem: &GbMemory) -> (r: Pk2)
        ensures
            r == pk2_at(mem@, 0xDF7B, 0xDF90, 0xDF91, 0),
    {
        let spec_index = mem.read_u8(0xDF7B);
        let atkdef = mem.read_u8(0xDF90);
        let spespc = mem.read_u8(0xDF91);
        Pk2::new(spec_index, atkdef, spespc, 0)
    }

    /// The Random state: hRandomAdd high, hRandomSub low.
    pub fn rng_state(&self, mem: &GbMemory) -> (r: u16)
        ensures
            r == u16_at(mem@, self.addrs.gb_rng_ptr as int),
    {
        mem.read_u16(self.addrs.gb_rng_ptr)
    }

    pub fn time_seconds(&self, mem: &GbMemory) -> (r: u8)
        requires
            self.addrs.time_ptr <= u32::MAX - 4,
        ensures
            r == byte_at(mem@, self.addrs.time_ptr + 4),
    {
        mem.read_u8(self.addrs.time_ptr + 4)
    }

    pub fn time_minutes(&self, mem: &GbMemory) -> (r: u8)
        requires
            self.addrs.time_ptr <= u32::MAX - 2,
        ensures
            r == byte_at(mem@, self.addrs.time_ptr + 2),
    {
        mem.read_u8(self.addrs.time_ptr + 2)
    }

    pub fn time_hours(&self, mem: &GbMemory) -> (r: u8)
        ensures
            r == byte_at(mem@, self.addrs.time_ptr as int),
    {
        mem.read_u8(self.addrs.time_ptr)
    }

    /// The day of the week, 0 to 6.
    pub fn time_day(&self, mem: &GbMemory) -> (r: u8)
        ensures
            r == byte_at(mem@, self.addrs.time_day_ptr as int) % 7,
            r < 7,
    {
        mem.read_u8(self.addrs.time_day_ptr) % 7
    }

    pub fn play_seconds(&self, mem: &GbMemory) -> (r: u8)
        requires
            self.addrs.play_time_ptr <= u32::MAX - 2,
        ensures
            r == byte_at(mem@, self.addrs.play_time_ptr + 2),
    {
        mem.read_u8(self.addrs.play_time_ptr + 2)
    }

    pub fn play_minutes(&self, mem: &GbMemory) -> (r: u8)
        requires
            self.addrs.play_time_ptr <= u32::MAX - 1,
        ensures
            r == byte_at(mem@, self.addrs.play_time_ptr + 1),
    {
        mem.read_u8(self.addrs.play_time_ptr + 1)
    }

    pub fn play_hours(&self, mem: &GbMemory) -> (r: u8)
        ensures
            r == byte_at(mem@, self.addrs.play_time_ptr as int),
    {
        mem.read_u8(self.addrs.play_time_ptr)
    }

    /// Daylight saving time: the top bit of its byte.
    pub fn dst(&self, mem: &GbMemory) -> (r: bool)
        ensures
            r == (byte_at(mem@, self.addrs.dst_ptr as int) & 0x80 != 0),
    {
        (mem.read_u8(self.addrs.dst_ptr) & 0x80) != 0
    }

    pub fn trainer_id(&self, mem: &GbMemory) -> (r: u16)
        ensures
            r == u16_at(mem@, self.addrs.trainer_id_ptr as int),
    {
        mem.read_u16(self.addrs.trainer_id_ptr)
    }
}

} // verus!
