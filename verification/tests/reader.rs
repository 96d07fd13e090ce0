use reader_core::crystal::gb_mem::{GbMemory, GB_MEMORY_SIZE};
use reader_core::crystal::pk2::Pk2;
use reader_core::crystal::reader::Gen2Reader;

fn memory(writes: &[(usize, u8)]) -> GbMemory {
    let mut bytes = vec![0u8; GB_MEMORY_SIZE];
    for &(addr, value) in writes {
        bytes[addr] = value;
    }
    GbMemory::from_bytes(bytes).unwrap()
}

#[test]
fn memory_requires_the_whole_address_space() {
    assert!(GbMemory::from_bytes(vec![0; GB_MEMORY_SIZE - 1]).is_none());
    assert!(GbMemory::from_bytes(vec![0; GB_MEMORY_SIZE + 1]).is_none());
    assert!(GbMemory::from_bytes(vec![0; GB_MEMORY_SIZE]).is_some());
}

#[test]
fn memory_reads_big_endian_and_wraps_the_bus() {
    let mem = memory(&[(0x1234, 0xab), (0x1235, 0xcd), (0x1236, 0x01), (0x1237, 0x02), (0xffff, 0x77), (0, 0x88)]);
    assert_eq!(mem.read_u8(0x1234), 0xab);
    assert_eq!(mem.read_u8(0x1_1234), 0xab);
    assert_eq!(mem.read_u16(0x1234), 0xabcd);
    assert_eq!(mem.read_u32(0x1234), 0xabcd_0102);
    assert_eq!(mem.read_u16(0xffff), 0x7788);
}

#[test]
fn reader_flags_and_shrine() {
    let reader = Gen2Reader::crystal();
    let mut writes = vec![(0xdcd7, 3), (0xda89, 0x20), (0xdcb5, 3), (0xdcb6, 82), (0xd22d, 0)];
    let mem = memory(&writes);
    assert_eq!(reader.party_count(&mem), 3);
    assert!(reader.dratini_received(&mem));
    assert!(reader.in_dragon_shrine(&mem));
    assert!(!reader.dratini_prompt(&mem));
    writes.extend([(0xd439, 0x63), (0xd43a, 0xc9), (0xd43b, 0x51)]);
    let mem = memory(&writes);
    assert!(reader.dratini_prompt(&mem));
    writes.push((0xff9e, 1));
    assert!(!reader.dratini_prompt(&memory(&writes)));
    let mem = memory(&[(0xda89, 0xdf), (0xdcb5, 3), (0xdcb6, 81)]);
    assert!(!reader.dratini_received(&mem));
    assert!(!reader.in_dragon_shrine(&mem));
}

#[test]
fn reader_party_slot_and_level_move4() {
    let reader = Gen2Reader::crystal();
    let base = 0xdcdf + 2 * 0x30;
    let mem = memory(&[
        (base, 147),
        (base + 8, 0x00),
        (base + 9, 0x0d),
        (base + 10, 0x2f),
        (base + 11, 0x11),
        (base + 0x15, 0xfa),
        (base + 0x16, 0xaa),
        (base + 5, 0xf5),
        (base + 0x1f, 15),
    ]);
    let mon = reader.party(&mem, 2);
    assert_eq!(
        mon,
        Pk2 { spec_index: 147, atk: 15, def: 10, spe: 10, spc: 10, experience: 0x000d_2f11 }
    );
    assert_eq!(reader.party_level_move4(&mem, 2), (15, 0xf5));
}

#[test]
fn reader_wild_egg_clock_and_ids() {
    let reader = Gen2Reader::crystal();
    let mem = memory(&[
        (0xD206, 16),
        (0xD20C, 0x7a),
        (0xD20D, 0x35),
        (0xDF7B, 0xfd),
        (0xDF90, 0x12),
        (0xDF91, 0x34),
        (0xffe1, 0x9f),
        (0xffe2, 0xe3),
        (0xff94, 13),
        (0xff96, 45),
        (0xff98, 59),
        (0xd4cb, 10),
        (0xd4c5, 99),
        (0xd4c6, 58),
        (0xd4c7, 57),
        (0xd4c2, 0x80),
        (0xd47b, 0x30),
        (0xd47c, 0x39),
    ]);
    assert_eq!(reader.wild(&mem), Pk2 { spec_index: 16, atk: 7, def: 10, spe: 3, spc: 5, experience: 0 });
    assert_eq!(reader.egg(&mem), Pk2 { spec_index: 0xfd, atk: 1, def: 2, spe: 3, spc: 4, experience: 0 });
    assert_eq!(reader.rng_state(&mem), 0x9fe3);
    assert_eq!(reader.time_hours(&mem), 13);
    assert_eq!(reader.time_minutes(&mem), 45);
    assert_eq!(reader.time_seconds(&mem), 59);
    assert_eq!(reader.time_day(&mem), 3);
    assert_eq!(reader.play_hours(&mem), 99);
    assert_eq!(reader.play_minutes(&mem), 58);
    assert_eq!(reader.play_seconds(&mem), 57);
    assert!(reader.dst(&mem));
    assert!(!reader.dst(&memory(&[(0xd4c2, 0x7f)])));
    assert_eq!(reader.trainer_id(&mem), 0x3039);
    assert_eq!(reader.addrs.div_ptr, 0x22f794);
    assert_eq!(reader.addrs.pc_reg_ptr, 0x22f5fc);
}
