use neutopia::error::{FormatError, NeutopiaError};
use neutopia::game::{Chest, Neutopia};
use neutopia::interval::Interval;
use neutopia::rom::object::{ObjectInfo, TableEntry};
use neutopia::rom::NeutopiaRom;
use neutopia::util::{pointer_to_rom_offset, rom_offset_to_pointer};

const AREA_TABLE: usize = 0x40000;
const ROOM_ORDER_TABLE: usize = 0x40033;
const CHEST_TABLE: usize = 0x40066;
const CHEST_TABLES: usize = 0x40200;
const ROOM_ORDERS: usize = 0x40400;
const AREA_DATA: usize = 0x41000;

fn put(rom: &mut Vec<u8>, at: usize, bytes: &[u8]) {
    if rom.len() < at + bytes.len() {
        rom.resize(at + bytes.len(), 0);
    }
    rom[at..at + bytes.len()].copy_from_slice(bytes);
}

fn put_pointer(rom: &mut Vec<u8>, at: usize, offset: usize) {
    put(rom, at, &rom_offset_to_pointer(offset as u32));
}

fn chest_record(area: usize, slot: usize) -> [u8; 4] {
    [slot as u8, area as u8, (area * 8 + slot) as u8, 0x41]
}

fn object_table(area: usize, room: usize) -> Vec<u8> {
    match (area, room) {
        // A chest with a conditional behind it, then a dark room.
        (5, 3) => vec![0x00, 0x43, 0x4d, 0x0b, 0x46, 0x2a, 0x04, 0x00, 0x43, 0x20, 0x09],
        // Two chests.
        (5, 7) => vec![0x00, 0x12, 0x4c, 0x01, 0x02, 0x00, 0x34, 0x4e],
        // Two conditionals: the first is taken out, the second stays.
        (6, 0) => vec![
            0x00, 0x21, 0x4c, 0x0b, 0x01, 0x02, 0x03, 0x09, 0x00, 0x65, 0x4f, 0x0b, 0x04, 0x05,
            0x06, 0x81,
        ],
        (0xc, 0x9) => vec![0x00, 0x55, 0x4c],
        (0xc, 0x11) => vec![0x00, 0x11, 0x4d, 0x00, 0x22, 0x4e],
        _ => vec![0x01, room as u8],
    }
}

/// Lays out an image: the three pointer tables, the chest tables, the room
/// order tables, and the areas one after the other from `AREA_DATA` on.
fn build_rom() -> Vec<u8> {
    let mut rom = vec![0u8; 0x60000];
    let mut at = AREA_DATA;
    for area in 0..16 {
        put_pointer(&mut rom, AREA_TABLE + 3 * area, at);
        put_pointer(&mut rom, ROOM_ORDER_TABLE + 3 * area, ROOM_ORDERS + 0x40 * area);
        put_pointer(&mut rom, CHEST_TABLE + 3 * area, CHEST_TABLES + 0x20 * area);
        for slot in 0..8 {
            put(&mut rom, CHEST_TABLES + 0x20 * area + 4 * slot, &chest_record(area, slot));
        }
        for room in 0..0x40 {
            put(&mut rom, ROOM_ORDERS + 0x40 * area + room, &[(0x3f - room) as u8]);
        }
        let pointers = at;
        at += 3 * 0x40;
        for room in 0..0x40 {
            put_pointer(&mut rom, pointers + 3 * room, at);
            let warps = vec![area as u8; room % 3];
            let enemies = vec![room as u8; room % 2];
            let objects = object_table(area, room);
            let warp_at = at + 9;
            let enemy_at = warp_at + warps.len();
            let object_at = enemy_at + enemies.len() + 1;
            put_pointer(&mut rom, at, warp_at);
            put_pointer(&mut rom, at + 3, enemy_at);
            put_pointer(&mut rom, at + 6, object_at);
            put(&mut rom, warp_at, &warps);
            put(&mut rom, enemy_at, &enemies);
            put(&mut rom, enemy_at + enemies.len(), &[0xff]);
            put(&mut rom, object_at, &objects);
            put(&mut rom, object_at + objects.len(), &[0xff]);
            at = object_at + objects.len() + 1;
        }
    }
    // The end game area shares the place of area 0xc.
    let shared = pointer_to_rom_offset(&rom[AREA_TABLE + 3 * 0xc..]).unwrap();
    put_pointer(&mut rom, AREA_TABLE + 3 * 0x10, shared as usize);
    rom
}

fn rom_chest(area: usize, slot: usize) -> neutopia::rom::Chest {
    let r = chest_record(area, slot);
    neutopia::rom::Chest { item_id: r[0], arg: r[1], text: r[2], unknown: r[3] }
}

fn object(x: u8, y: u8, id: u8) -> TableEntry {
    TableEntry::Object(ObjectInfo { x, y, id })
}

#[test]
fn rom_model_reads_the_tables() {
    let rom = build_rom();
    let n = NeutopiaRom::new(&rom).unwrap();
    assert_eq!(n.area_pointers.len(), 16);
    assert_eq!(n.room_order_pointers.len(), 16);
    assert_eq!(n.chest_table_pointers.len(), 16);
    assert_eq!(n.area_pointers[0], AREA_DATA as u32);
    assert_eq!(n.room_order_pointers[3], (ROOM_ORDERS + 0xc0) as u32);
    assert_eq!(n.chest_table_pointers[15], (CHEST_TABLES + 0x1e0) as u32);
    assert_eq!(n.room_info_tables.len(), 16);
    assert_eq!(n.room_info_tables[5].len(), 0x40);
    assert_eq!(n.chest_tables.len(), 16);
    assert_eq!(n.chest_tables[7].len(), 8);
    assert_eq!(n.chest_tables[7][2], rom_chest(7, 2));
    assert_eq!(n.room_order_tables[2].len(), 0x40);
    assert_eq!(n.room_order_tables[2][0], 0x3f);
    assert_eq!(n.room_order_tables[2][0x3f], 0x00);
}

#[test]
fn rom_model_cuts_the_tables_of_a_room() {
    let rom = build_rom();
    let n = NeutopiaRom::new(&rom).unwrap();
    let first = &n.room_info_tables[0][0];
    assert_eq!(first.base_addr, (AREA_DATA + 0xc0) as u32);
    assert_eq!(first.warp_table_pointer, first.base_addr + 9);
    assert_eq!(first.enemy_table_pointer, first.base_addr + 9);
    assert_eq!(first.object_table_pointer, first.base_addr + 10);
    assert_eq!(first.warp_table, Vec::<u8>::new());
    assert_eq!(first.enemy_table, Vec::<u8>::new());
    assert_eq!(first.object_table, vec![0x01, 0x00]);
    let room = &n.room_info_tables[5][5];
    assert_eq!(room.warp_table, vec![5, 5]);
    assert_eq!(room.enemy_table, vec![5]);
    assert_eq!(room.object_table, vec![0x01, 0x05]);
    assert_eq!(
        n.room_info_tables[5][3].object_table,
        vec![0x00, 0x43, 0x4d, 0x0b, 0x46, 0x2a, 0x04, 0x00, 0x43, 0x20, 0x09]
    );
}

#[test]
fn rom_model_claims_each_area_as_one_range() {
    let rom = build_rom();
    let n = NeutopiaRom::new(&rom).unwrap();
    assert_eq!(n.room_info_intervals.len(), 16);
    for area in 0..16 {
        let start = n.area_pointers[area] as usize;
        let last = &n.room_info_tables[area][0x3f];
        let end = last.object_table_pointer as usize + last.object_table.len() + 1;
        assert_eq!(
            n.room_info_intervals[area].get_intervals(),
            vec![Interval { start, end }]
        );
        if area < 15 {
            assert_eq!(end, n.area_pointers[area + 1] as usize);
        }
    }
}

#[test]
fn image_without_tables_is_refused() {
    assert_eq!(
        NeutopiaRom::new(&[]).err(),
        Some(NeutopiaError::Format(FormatError::TruncatedRom))
    );
    assert_eq!(
        NeutopiaRom::new(&vec![0u8; AREA_TABLE + 10]).err(),
        Some(NeutopiaError::Format(FormatError::ShortRead))
    );
    assert_eq!(
        NeutopiaRom::new(&vec![0u8; 0x60000]).err(),
        Some(NeutopiaError::Format(FormatError::InvalidPointer))
    );
    assert_eq!(
        Neutopia::new(&vec![0u8; 0x60000]).err(),
        Some(NeutopiaError::Format(FormatError::InvalidPointer))
    );
}

#[test]
fn defect_in_a_room_comes_with_its_place() {
    let mut rom = build_rom();
    let n = NeutopiaRom::new(&rom).unwrap();
    let at = n.room_info_tables[2][5].object_table_pointer as usize;
    rom[at] = 0x04;
    assert_eq!(
        NeutopiaRom::new(&rom).err(),
        Some(NeutopiaError::FormatInRoom { area: 2, room: 5, cause: FormatError::TrailingBytes })
    );
    let mut rom = build_rom();
    let at = n.room_info_tables[9][0x3f].base_addr as usize;
    rom[at + 3] = 0;
    rom[at + 4] = 0;
    rom[at + 5] = 0;
    assert_eq!(
        NeutopiaRom::new(&rom).err(),
        Some(NeutopiaError::FormatInRoom {
            area: 9,
            room: 0x3f,
            cause: FormatError::InvalidPointer
        })
    );
    let mut rom = build_rom();
    put_pointer(&mut rom, at + 3, 0x70000);
    assert_eq!(
        NeutopiaRom::new(&rom).err(),
        Some(NeutopiaError::FormatInRoom { area: 9, room: 0x3f, cause: FormatError::TruncatedRom })
    );
}

#[test]
fn chest_table_cut_short_is_refused() {
    let mut rom = build_rom();
    put_pointer(&mut rom, CHEST_TABLE + 3 * 4, 0x60000 - 31);
    assert_eq!(
        NeutopiaRom::new(&rom).err(),
        Some(NeutopiaError::Format(FormatError::ShortTable))
    );
}

#[test]
fn game_takes_the_first_conditional_out_of_a_room() {
    let rom = build_rom();
    let n = Neutopia::new(&rom).unwrap();
    assert_eq!(n.areas.len(), 16);
    assert_eq!(n.areas[5].rooms.len(), 0x40);
    assert_eq!(n.areas[5].chest_table.len(), 8);
    assert_eq!(n.rom_data, rom);
    assert_eq!(
        n.areas[5].rooms[3].objects,
        vec![object(3, 4, 0x4d), TableEntry::DarkRoom]
    );
    let cond = n.conditionals.get(&rom_chest(5, 1)).unwrap();
    assert_eq!(
        cond.data,
        vec![TableEntry::Unknown0b([0x46, 0x2a, 0x04]), object(3, 4, 0x20)]
    );
    assert_eq!(
        n.areas[6].rooms[0].objects,
        vec![
            object(1, 2, 0x4c),
            object(5, 6, 0x4f),
            TableEntry::Unknown0b([0x04, 0x05, 0x06]),
            TableEntry::FalconBootsNeeded,
        ]
    );
    let cond = n.conditionals.get(&rom_chest(6, 0)).unwrap();
    assert_eq!(
        cond.data,
        vec![TableEntry::Unknown0b([0x01, 0x02, 0x03]), TableEntry::DarkRoom]
    );
    assert!(n.conditionals.get(&rom_chest(6, 3)).is_none());
    assert!(n.conditionals.get(&rom_chest(5, 0)).is_none());
    assert_eq!(n.areas[0].rooms[9].warps, Vec::<u8>::new());
    assert_eq!(n.areas[3].rooms[7].warps, vec![3]);
    assert_eq!(n.areas[3].rooms[7].enemies, vec![7]);
    assert_eq!(n.areas[3].rooms[7].objects, vec![TableEntry::OpenDoor(7)]);
}

#[test]
fn chests_are_listed_area_by_area_and_numbered_within_their_room() {
    let rom = build_rom();
    let n = Neutopia::new(&rom).unwrap();
    let all = n.filter_chests(|_| true);
    assert_eq!(
        all,
        vec![
            Chest { info: rom_chest(5, 1), area: 5, room: 3, index: 0 },
            Chest { info: rom_chest(5, 0), area: 5, room: 7, index: 0 },
            Chest { info: rom_chest(5, 2), area: 5, room: 7, index: 1 },
            Chest { info: rom_chest(6, 0), area: 6, room: 0, index: 0 },
            Chest { info: rom_chest(6, 3), area: 6, room: 0, index: 1 },
            Chest { info: rom_chest(0xc, 0), area: 0xc, room: 0x9, index: 0 },
            Chest { info: rom_chest(0xc, 1), area: 0xc, room: 0x11, index: 0 },
            Chest { info: rom_chest(0xc, 2), area: 0xc, room: 0x11, index: 1 },
        ]
    );
    let some = n.filter_chests(|chest| chest.area == 5 && chest.info.item_id != 0);
    assert_eq!(
        some,
        vec![
            Chest { info: rom_chest(5, 1), area: 5, room: 3, index: 0 },
            Chest { info: rom_chest(5, 2), area: 5, room: 7, index: 1 },
        ]
    );
    assert_eq!(n.filter_chests(|_| false), vec![]);
}

#[test]
fn update_writes_into_the_slot_that_the_object_selects() {
    let rom = build_rom();
    let mut n = Neutopia::new(&rom).unwrap();
    let new = neutopia::rom::Chest { item_id: 9, arg: 9, text: 9, unknown: 9 };
    let other = neutopia::rom::Chest { item_id: 8, arg: 8, text: 8, unknown: 8 };
    let refs = [
        Chest { info: new, area: 5, room: 7, index: 1 },
        Chest { info: other, area: 0xc, room: 0x9, index: 0 },
    ];
    assert_eq!(n.update_chests(&refs), Ok(()));
    assert_eq!(n.areas[5].chest_table[2], new);
    assert_eq!(n.areas[5].chest_table[0], rom_chest(5, 0));
    assert_eq!(n.areas[5].chest_table[1], rom_chest(5, 1));
    assert_eq!(n.areas[0xc].chest_table[0], other);
    let all = n.filter_chests(|chest| chest.area == 5);
    assert_eq!(all[2], Chest { info: new, area: 5, room: 7, index: 1 });
}

#[test]
fn update_stops_at_a_chest_that_the_game_does_not_have() {
    let rom = build_rom();
    let new = neutopia::rom::Chest { item_id: 9, arg: 9, text: 9, unknown: 9 };
    for bad in [
        Chest { info: new, area: 5, room: 7, index: 2 },
        Chest { info: new, area: 5, room: 8, index: 0 },
        Chest { info: new, area: 16, room: 0, index: 0 },
        Chest { info: new, area: 5, room: 0x40, index: 0 },
    ] {
        let mut n = Neutopia::new(&rom).unwrap();
        let refs = [
            Chest { info: new, area: 5, room: 7, index: 0 },
            bad,
            Chest { info: new, area: 5, room: 3, index: 0 },
        ];
        assert_eq!(n.update_chests(&refs), Err(NeutopiaError::IncoherentChest));
        assert_eq!(n.areas[5].chest_table[0], new);
        assert_eq!(n.areas[5].chest_table[1], rom_chest(5, 1));
    }
}

#[test]
fn area_names() {
    assert_eq!(neutopia::area_name(0x0), "Land Sphere");
    assert_eq!(neutopia::area_name(0x1), "Subterranean Sphere");
    assert_eq!(neutopia::area_name(0x4), "Crypt 1");
    assert_eq!(neutopia::area_name(0xb), "Crypt 8");
    assert_eq!(neutopia::area_name(0xc), "Land Sphere Rooms");
    assert_eq!(neutopia::area_name(0xf), "Sky Sphere Rooms");
    assert_eq!(neutopia::area_name(0x10), "Unknown");
    assert_eq!(neutopia::area_name(0xff), "Unknown");
}

#[test]
fn written_image_reads_back_as_the_same_game() {
    let rom = build_rom();
    let n = Neutopia::new(&rom).unwrap();
    let out = n.write().unwrap();
    assert_eq!(out.len(), rom.len());
    let back = Neutopia::new(&out).unwrap();
    for area in 0..16 {
        assert_eq!(back.areas[area].chest_table, n.areas[area].chest_table);
        for room in 0..0x40 {
            assert_eq!(back.areas[area].rooms[room].warps, n.areas[area].rooms[room].warps);
            assert_eq!(back.areas[area].rooms[room].enemies, n.areas[area].rooms[room].enemies);
            assert_eq!(back.areas[area].rooms[room].objects, n.areas[area].rooms[room].objects);
        }
    }
    assert_eq!(
        back.conditionals.get(&rom_chest(5, 1)).unwrap().data,
        n.conditionals.get(&rom_chest(5, 1)).unwrap().data
    );
}

#[test]
fn written_image_keeps_the_layout_and_moves_the_chest_tables() {
    let rom = build_rom();
    let n = Neutopia::new(&rom).unwrap();
    let out = n.write().unwrap();
    let mut want = rom.clone();
    for area in 4..16 {
        let at = 0x4fe00 + 0x20 * area;
        for slot in 0..8 {
            put(&mut want, at + 4 * slot, &chest_record(area, slot));
        }
        put_pointer(&mut want, CHEST_TABLE + 3 * area, at);
    }
    assert_eq!(out, want);
    for area in 0..4 {
        assert_eq!(
            pointer_to_rom_offset(&out[CHEST_TABLE + 3 * area..]),
            Ok((CHEST_TABLES + 0x20 * area) as u32)
        );
    }
    assert_eq!(&out[AREA_TABLE + 3 * 0x10..AREA_TABLE + 3 * 0x11], &out[AREA_TABLE + 3 * 0xc..AREA_TABLE + 3 * 0xd]);
}

#[test]
fn conditional_follows_the_content_of_its_chest() {
    let rom = build_rom();
    let mut n = Neutopia::new(&rom).unwrap();
    // The content with the conditional moves from room 3 to the second
    // chest of room 7, which stands at (4, 3).
    let refs = [
        Chest { info: rom_chest(5, 2), area: 5, room: 3, index: 0 },
        Chest { info: rom_chest(5, 1), area: 5, room: 7, index: 1 },
    ];
    assert_eq!(n.update_chests(&refs), Ok(()));
    let out = n.write().unwrap();
    assert_eq!(out.len(), rom.len());
    let rommed = NeutopiaRom::new(&out).unwrap();
    assert_eq!(
        rommed.room_info_tables[5][3].object_table,
        vec![0x00, 0x43, 0x4d, 0x09]
    );
    assert_eq!(
        rommed.room_info_tables[5][7].object_table,
        vec![
            0x00, 0x12, 0x4c, 0x01, 0x02, 0x00, 0x34, 0x4e, 0x0b, 0x46, 0x2a, 0x04, 0x00, 0x34,
            0x20
        ]
    );
    assert_eq!(rommed.chest_tables[5][1], rom_chest(5, 2));
    assert_eq!(rommed.chest_tables[5][2], rom_chest(5, 1));
    // Every area from the first relocated one on starts where the one
    // before it ends.
    for area in 4..15 {
        let last = &rommed.room_info_tables[area][0x3f];
        let end = last.object_table_pointer as usize + last.object_table.len() + 1;
        assert_eq!(rommed.area_pointers[area + 1] as usize, end);
    }
    assert_eq!(rommed.area_pointers[4], NeutopiaRom::new(&rom).unwrap().area_pointers[4]);
}

#[test]
fn conditional_is_put_back_in_every_room_that_holds_its_content() {
    let rom = build_rom();
    let mut n = Neutopia::new(&rom).unwrap();
    let refs = [Chest { info: rom_chest(5, 1), area: 5, room: 7, index: 0 }];
    assert_eq!(n.update_chests(&refs), Ok(()));
    let out = n.write().unwrap();
    assert_eq!(out.len(), rom.len());
    let rommed = NeutopiaRom::new(&out).unwrap();
    assert_eq!(
        rommed.room_info_tables[5][3].object_table,
        vec![0x00, 0x43, 0x4d, 0x0b, 0x46, 0x2a, 0x04, 0x00, 0x43, 0x20, 0x09]
    );
    assert_eq!(
        rommed.room_info_tables[5][7].object_table,
        vec![
            0x00, 0x12, 0x4c, 0x0b, 0x46, 0x2a, 0x04, 0x00, 0x12, 0x20, 0x01, 0x02, 0x00, 0x34,
            0x4e
        ]
    );
}

#[test]
fn relocating_a_range_of_areas_leaves_the_others() {
    let rom = build_rom();
    let n = Neutopia::new(&rom).unwrap();
    let out = n.write_areas(6, 8).unwrap();
    let mut want = rom.clone();
    for area in 6..9 {
        let at = 0x4fe00 + 0x20 * area;
        for slot in 0..8 {
            put(&mut want, at + 4 * slot, &chest_record(area, slot));
        }
        put_pointer(&mut want, CHEST_TABLE + 3 * area, at);
    }
    // The second conditional of room 0 of area 6 never left its table; the
    // first comes back behind its chest.
    assert_eq!(out, want);
}

#[test]
fn image_that_outgrows_the_pointers_is_refused() {
    // Area 15 is laid out so that it ends where the pointers end.
    let mut rom = build_rom();
    let n = NeutopiaRom::new(&rom).unwrap();
    let start = n.area_pointers[15] as usize;
    let last = &n.room_info_tables[15][0x3f];
    let end = last.object_table_pointer as usize + last.object_table.len() + 1;
    let size = end - start;
    let moved = 0x1c0000 - size;
    let area: Vec<u8> = rom[start..end].to_vec();
    put(&mut rom, moved, &area);
    put_pointer(&mut rom, AREA_TABLE + 3 * 15, moved);
    for room in 0..0x40 {
        let old = pointer_to_rom_offset(&rom[moved + 3 * room..]).unwrap() as usize;
        let at = old - start + moved;
        put_pointer(&mut rom, moved + 3 * room, at);
        for k in 0..3 {
            let p = pointer_to_rom_offset(&rom[at + 3 * k..]).unwrap() as usize;
            put_pointer(&mut rom, at + 3 * k, p - start + moved);
        }
    }
    // One room of the area holds a chest.
    let mut n = Neutopia::new(&rom).unwrap();
    assert_eq!(n.write_areas(15, 15).map(|out| out.len()), Ok(0x1c0000));
    n.areas[15].rooms[0].objects.push(TableEntry::DarkRoom);
    assert_eq!(n.write_areas(15, 15), Err(NeutopiaError::ImageTooLarge));
    // Packed behind area 14, the area fits again.
    assert_eq!(n.write().map(|out| out.len()), Ok(0x1c0000));
}
