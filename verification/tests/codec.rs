use neutopia::error::FormatError;
use neutopia::rom::chest::{parse_chest, parse_chest_table};
use neutopia::rom::object::{
    object_table_len, parse_object_table, parse_object_table_entry, write_object_table,
    ObjectInfo, TableEntry,
};
use neutopia::rom::Chest;
use neutopia::util::{
    decode_pointer_table, find_object_table, pointer_to_rom_offset, read_object_table,
    rom_offset_to_pointer,
};

fn run_parse_test(data: &[u8], entry: TableEntry) {
    let mut enc_data = Vec::new();
    entry.write(&mut enc_data);
    assert_eq!(&data[..], &enc_data[..]);

    assert_eq!(parse_object_table_entry(data), Ok((&[][..], entry)));
}

#[test]
fn object_test_parse_entries() {
    run_parse_test(
        &[0x00, 0x52, 0xa5],
        TableEntry::Object(ObjectInfo {
            x: 2,
            y: 5,
            id: 0xa5,
        }),
    );

    run_parse_test(&[0x01, 0x02], TableEntry::OpenDoor(0x02));

    run_parse_test(&[0x02, 0x01], TableEntry::PushBlockGatedDoor(0x01));

    run_parse_test(&[0x03, 0x08], TableEntry::EnemyGatedDoor(0x08));

    run_parse_test(&[0x05, 0x0a], TableEntry::BombableDoor(0x0a));

    run_parse_test(
        &[0x06, 0x25, 0x5a],
        TableEntry::PushBlockGatedObject(ObjectInfo {
            x: 5,
            y: 2,
            id: 0x5a,
        }),
    );

    run_parse_test(
        &[0x07, 0x25, 0x5a],
        TableEntry::EnemyGatedObject(ObjectInfo {
            x: 5,
            y: 2,
            id: 0x5a,
        }),
    );

    run_parse_test(
        &[0x08, 0x25, 0x5a],
        TableEntry::BellGatedObject(ObjectInfo {
            x: 5,
            y: 2,
            id: 0x5a,
        }),
    );

    run_parse_test(&[0x09], TableEntry::DarkRoom);

    run_parse_test(&[0x0a, 0x50], TableEntry::BossDoor(0x50));

    run_parse_test(
        &[0x0b, 0x46, 0x2a, 0x04],
        TableEntry::Unknown0b([0x46, 0x2a, 0x04]),
    );

    run_parse_test(
        &[0x0c, 0x52, 0xa5],
        TableEntry::Burnable(ObjectInfo {
            x: 2,
            y: 5,
            id: 0xa5,
        }),
    );

    run_parse_test(
        &[0x0d, 0x14, 0x14, 0x33],
        TableEntry::HiddenRoom([0x14, 0x14, 0x33]),
    );

    run_parse_test(&[0x81], TableEntry::FalconBootsNeeded);

    run_parse_test(
        &[0x9a, 0x48, 0x02, 0x03, 0x00, 0x40],
        TableEntry::Npc([0x48, 0x02, 0x03, 0x00, 0x40]),
    );

    run_parse_test(
        &[0xbd, 0x25, 0x5a],
        TableEntry::OuchRope(ObjectInfo {
            x: 5,
            y: 2,
            id: 0x5a,
        }),
    );

    run_parse_test(
        &[0xbf, 0x25, 0x5a],
        TableEntry::ArrowLauncher(ObjectInfo {
            x: 5,
            y: 2,
            id: 0x5a,
        }),
    );

    run_parse_test(
        &[0xc0, 0x25, 0x5a],
        TableEntry::Swords(ObjectInfo {
            x: 5,
            y: 2,
            id: 0x5a,
        }),
    );

    run_parse_test(
        &[0xc1, 0x25, 0x5a],
        TableEntry::GhostSpawner(ObjectInfo {
            x: 5,
            y: 2,
            id: 0x5a,
        }),
    );

    run_parse_test(
        &[0xc6, 0x25, 0x5a],
        TableEntry::FireballSpawner(ObjectInfo {
            x: 5,
            y: 2,
            id: 0x5a,
        }),
    );

    run_parse_test(
        &[0xda, 0x46, 0x00, 0x00, 0x02, 0x00, 0x01, 0x01],
        TableEntry::ShopItem([0x46, 0x00, 0x00, 0x02, 0x00, 0x01, 0x01]),
    );

    run_parse_test(
        &[0xe1, 0x48, 0x02, 0x00, 0x7d, 0x41, 0x56, 0x2e, 0x81, 0x01],
        TableEntry::UnknownE1([0x48, 0x02, 0x00, 0x7d, 0x41, 0x56, 0x2e, 0x81, 0x01]),
    );

    run_parse_test(
        &[0xf4, 0xa7, 0x02, 0x03, 0x40, 0x43],
        TableEntry::UnknownF4([0xa7, 0x02, 0x03, 0x40, 0x43]),
    );

    assert_eq!(
        parse_object_table(&[0x01, 0x02, 0x02, 0x01]).unwrap(),
        vec![
            TableEntry::OpenDoor(0x02),
            TableEntry::PushBlockGatedDoor(0x01)
        ]
    );
}

#[test]
fn chest_test_parse_chest() {
    assert_eq!(
        parse_chest(&[0x11, 0x01, 0x85, 0x41]),
        Ok((
            &[][..],
            Chest {
                item_id: 0x11,
                arg: 0x01,
                text: 0x85,
                unknown: 0x41,
            }
        ))
    );
}

#[test]
fn test_pointer_to_rom_offset() {
    assert_eq!(pointer_to_rom_offset(&[0x48, 0x4e, 0x45]).unwrap(), 0x5054e);
    assert_eq!(pointer_to_rom_offset(&[0x49, 0x44, 0x51]).unwrap(), 0x53144);
}

#[test]
fn sample_pointers_encode_back() {
    assert_eq!(rom_offset_to_pointer(0x5054e), [0x48, 0x4e, 0x45]);
    assert_eq!(rom_offset_to_pointer(0x53144), [0x49, 0x44, 0x51]);
}

#[test]
fn every_offset_round_trips_through_its_pointer() {
    let mut offset: u32 = 0;
    while offset <= 0x1bffff {
        let p = rom_offset_to_pointer(offset);
        assert_eq!(pointer_to_rom_offset(&p), Ok(offset));
        offset += 0x3d;
    }
    assert_eq!(pointer_to_rom_offset(&rom_offset_to_pointer(0x1bffff)), Ok(0x1bffff));
    assert_eq!(rom_offset_to_pointer(0), [0x20, 0x00, 0x40]);
}

#[test]
fn pointer_below_the_bank_window_is_invalid() {
    assert_eq!(
        pointer_to_rom_offset(&[0x00, 0x00, 0x00]),
        Err(FormatError::InvalidPointer)
    );
    assert_eq!(
        pointer_to_rom_offset(&[0x1f, 0xff, 0x1f]),
        Err(FormatError::InvalidPointer)
    );
    assert_eq!(pointer_to_rom_offset(&[0x20, 0x00, 0x00]), Ok(0));
}

#[test]
fn pointer_table_decodes_in_order() {
    let data = [0x48, 0x4e, 0x45, 0x49, 0x44, 0x51, 0xaa];
    assert_eq!(decode_pointer_table(&data, 2), Ok(vec![0x5054e, 0x53144]));
    assert_eq!(decode_pointer_table(&data, 0), Ok(vec![]));
}

#[test]
fn pointer_table_needs_three_bytes_per_entry() {
    let data = [0x48, 0x4e, 0x45, 0x49, 0x44];
    assert_eq!(decode_pointer_table(&data, 2), Err(FormatError::ShortRead));
    assert_eq!(decode_pointer_table(&data, usize::MAX), Err(FormatError::ShortRead));
}

#[test]
fn pointer_table_rejects_an_unmapped_pointer() {
    let data = [0x48, 0x4e, 0x45, 0x00, 0x00, 0x00];
    assert_eq!(decode_pointer_table(&data, 2), Err(FormatError::InvalidPointer));
}

#[test]
fn terminated_table_stops_before_the_terminator() {
    assert_eq!(read_object_table(&[1, 2, 3, 0xff, 4, 0xff]), vec![1, 2, 3]);
    assert_eq!(read_object_table(&[0xff]), Vec::<u8>::new());
    assert_eq!(find_object_table(&[1, 2, 0xff]), Some(vec![1, 2]));
    assert_eq!(find_object_table(&[1, 2, 3]), None);
}

#[test]
fn unknown_tag_is_refused() {
    assert_eq!(parse_object_table_entry(&[0x04, 0x00]), Err(FormatError::UnknownTag));
    assert_eq!(parse_object_table_entry(&[0xff]), Err(FormatError::UnknownTag));
    assert_eq!(parse_object_table_entry(&[]), Err(FormatError::UnknownTag));
}

#[test]
fn record_cut_short_is_refused() {
    assert_eq!(parse_object_table_entry(&[0x00, 0x52]), Err(FormatError::UnknownTag));
    assert_eq!(parse_object_table_entry(&[0xe1, 1, 2, 3]), Err(FormatError::UnknownTag));
}

#[test]
fn parsing_leaves_what_follows_the_record() {
    let data = [0x01, 0x02, 0x09, 0xff];
    assert_eq!(
        parse_object_table_entry(&data),
        Ok((&data[2..], TableEntry::OpenDoor(0x02)))
    );
}

#[test]
fn table_with_trailing_bytes_is_refused() {
    assert_eq!(
        parse_object_table(&[0x01, 0x02, 0xff]),
        Err(FormatError::TrailingBytes)
    );
    assert_eq!(parse_object_table(&[0x01, 0x02, 0x04]), Err(FormatError::TrailingBytes));
    assert_eq!(parse_object_table(&[]), Ok(vec![]));
}

#[test]
fn table_length_stops_at_the_terminator() {
    assert_eq!(object_table_len(&[0x01, 0x02, 0x09, 0xff, 0x33]), Ok(3));
    assert_eq!(object_table_len(&[0xff]), Ok(0));
    assert_eq!(object_table_len(&[0x01, 0x02]), Ok(2));
    assert_eq!(object_table_len(&[]), Ok(0));
    assert_eq!(object_table_len(&[0x01, 0x02, 0x04]), Err(FormatError::TrailingBytes));
    assert_eq!(object_table_len(&[0x01, 0x02, 0x00, 0x11]), Err(FormatError::TrailingBytes));
}

#[test]
fn written_table_is_the_bytes_that_were_parsed() {
    let bytes: Vec<u8> = vec![
        0x00, 0x52, 0x4c, 0x0b, 0x46, 0x2a, 0x04, 0x00, 0x11, 0x20, 0x09, 0x81, 0x9a, 0x48, 0x02,
        0x03, 0x00, 0x40, 0xda, 0x46, 0x00, 0x00, 0x02, 0x00, 0x01, 0x01,
    ];
    let table = parse_object_table(&bytes).unwrap();
    assert_eq!(table.len(), 7);
    let mut out = Vec::new();
    write_object_table(&table, &mut out);
    assert_eq!(out, bytes);
}

#[test]
fn writing_keeps_four_bits_of_each_coordinate() {
    let mut out = Vec::new();
    TableEntry::Object(ObjectInfo { x: 0x12, y: 0x25, id: 7 }).write(&mut out);
    assert_eq!(out, vec![0x00, 0x52, 0x07]);
}

#[test]
fn chest_ids_are_the_eight_from_the_base() {
    let object = |id: u8| TableEntry::Object(ObjectInfo { x: 0, y: 0, id });
    assert_eq!(object(0x4b).chest_id(), None);
    assert_eq!(object(0x4c).chest_id(), Some(0));
    assert_eq!(object(0x53).chest_id(), Some(7));
    assert_eq!(object(0x54).chest_id(), None);
    assert_eq!(TableEntry::Burnable(ObjectInfo { x: 0, y: 0, id: 0x4c }).chest_id(), None);
}

#[test]
fn only_unknown_0b_opens_a_conditional() {
    assert!(TableEntry::Unknown0b([1, 2, 3]).is_conditional());
    assert!(!TableEntry::HiddenRoom([1, 2, 3]).is_conditional());
    assert!(!TableEntry::DarkRoom.is_conditional());
}

#[test]
fn only_an_object_has_a_place() {
    assert_eq!(
        TableEntry::Object(ObjectInfo { x: 3, y: 4, id: 1 }).loc(),
        Some((3, 4))
    );
    assert_eq!(TableEntry::Swords(ObjectInfo { x: 3, y: 4, id: 1 }).loc(), None);
}

#[test]
fn chest_table_has_eight_records() {
    let mut data = Vec::new();
    for i in 0..9u8 {
        data.extend_from_slice(&[i, i + 1, i + 2, i + 3]);
    }
    let table = parse_chest_table(&data).unwrap();
    assert_eq!(table.len(), 8);
    assert_eq!(table[0], Chest { item_id: 0, arg: 1, text: 2, unknown: 3 });
    assert_eq!(table[7], Chest { item_id: 7, arg: 8, text: 9, unknown: 10 });
    assert_eq!(parse_chest_table(&data[..31]), Err(FormatError::ShortTable));
    assert_eq!(parse_chest(&[1, 2, 3]), Err(FormatError::ShortTable));
}

#[test]
fn chest_writes_its_four_bytes() {
    let mut out = vec![9];
    Chest { item_id: 0x11, arg: 0x01, text: 0x85, unknown: 0x41 }.write(&mut out);
    assert_eq!(out, vec![9, 0x11, 0x01, 0x85, 0x41]);
}

#[test]
fn item_names() {
    let chest = |item_id: u8, arg: u8| Chest { item_id, arg, text: 0, unknown: 0 };
    assert_eq!(chest(0x00, 5).get_item_name(), "Bombs x5");
    assert_eq!(chest(0x00, 0).get_item_name(), "Bombs x0");
    assert_eq!(chest(0x00, 42).get_item_name(), "Bombs x42");
    assert_eq!(chest(0x00, 255).get_item_name(), "Bombs x255");
    assert_eq!(chest(0x00, 100).get_item_name(), "Bombs x100");
    assert_eq!(chest(0x01, 0).get_item_name(), "Medicine");
    assert_eq!(chest(0x02, 0).get_item_name(), "Fire Wand");
    assert_eq!(chest(0x05, 3).get_item_name(), "Moonbeam Moss");
    assert_eq!(chest(0x07, 0).get_item_name(), "Placeholder");
    assert_eq!(chest(0x08, 1).get_item_name(), "Starter Sword");
    assert_eq!(chest(0x08, 4).get_item_name(), "Strongest Sword");
    assert_eq!(chest(0x08, 5).get_item_name(), "Unknown Sword");
    assert_eq!(chest(0x09, 2).get_item_name(), "Bronze Armor");
    assert_eq!(chest(0x0a, 3).get_item_name(), "Steel Shield");
    assert_eq!(chest(0x0a, 0).get_item_name(), "Unknown Shield");
    assert_eq!(chest(0x0d, 0).get_item_name(), "Book of Revival");
    assert_eq!(chest(0x11, 0).get_item_name(), "Crypt Key");
    assert_eq!(chest(0x12, 0).get_item_name(), "Crypt 1 Medallion");
    assert_eq!(chest(0x19, 0).get_item_name(), "Crypt 8 Medallion");
    assert_eq!(chest(0x1a, 0).get_item_name(), "Unknown");
    assert_eq!(chest(0x20, 0).get_item_name(), "Placeholder");
}

#[test]
fn records_as_text() {
    let info = ObjectInfo { x: 2, y: 15, id: 0xa5 };
    assert_eq!(info.to_text(), "0xa5 @ (2,15)");
    assert_eq!(
        ObjectInfo { x: 0, y: 0, id: 0x07 }.to_text(),
        format!("0x{:02x} @ ({},{})", 7, 0, 0)
    );
    assert_eq!(TableEntry::Object(info).to_text(), "object 0xa5 @ (2,15)");
    assert_eq!(TableEntry::OpenDoor(0x02).to_text(), "open door 0x02");
    assert_eq!(
        TableEntry::PushBlockGatedDoor(0xf0).to_text(),
        "push block gated door 0xf0"
    );
    assert_eq!(TableEntry::EnemyGatedDoor(0x08).to_text(), "enemy gated door 0x08");
    assert_eq!(TableEntry::BombableDoor(0x0a).to_text(), "bombable door 0x0a");
    assert_eq!(
        TableEntry::PushBlockGatedObject(info).to_text(),
        "push block gated object 0xa5 @ (2,15)"
    );
    assert_eq!(
        TableEntry::EnemyGatedObject(info).to_text(),
        "enemy gated object 0xa5 @ (2,15)"
    );
    assert_eq!(
        TableEntry::BellGatedObject(info).to_text(),
        "bell gated object 0xa5 @ (2,15)"
    );
    assert_eq!(TableEntry::DarkRoom.to_text(), "dark room");
    assert_eq!(TableEntry::BossDoor(0x50).to_text(), "boss door 0x50");
    assert_eq!(
        TableEntry::Unknown0b([0x46, 0x2a, 0x04]).to_text(),
        "unknown object 0x0b [46, 2a, 4]"
    );
    assert_eq!(TableEntry::Burnable(info).to_text(), "burnable 0xa5 @ (2,15)");
    assert_eq!(
        TableEntry::HiddenRoom([0x14, 0x00, 0xff]).to_text(),
        format!("hidden room {:x?}", [0x14, 0x00, 0xff])
    );
    assert_eq!(TableEntry::FalconBootsNeeded.to_text(), "falcon boots needed");
    assert_eq!(
        TableEntry::Npc([0x48, 0x02, 0x03, 0x00, 0x40]).to_text(),
        "npc [48, 2, 3, 0, 40]"
    );
    assert_eq!(TableEntry::OuchRope(info).to_text(), "ouch rope segment 0xa5 @ (2,15)");
    assert_eq!(TableEntry::ArrowLauncher(info).to_text(), "arrow launcher 0xa5 @ (2,15)");
    assert_eq!(TableEntry::Swords(info).to_text(), "swords 0xa5 @ (2,15)");
    assert_eq!(TableEntry::GhostSpawner(info).to_text(), "ghost spawner 0xa5 @ (2,15)");
    assert_eq!(
        TableEntry::FireballSpawner(info).to_text(),
        "fireball spawner 0xa5 @ (2,15)"
    );
    let shop = [0x46, 0x00, 0x00, 0x02, 0x00, 0x01, 0x10];
    assert_eq!(
        TableEntry::ShopItem(shop).to_text(),
        format!("shop item {:x?}", shop)
    );
    let e1 = [0x48, 0x02, 0x00, 0x7d, 0x41, 0x56, 0x2e, 0x81, 0x01];
    assert_eq!(
        TableEntry::UnknownE1(e1).to_text(),
        format!("unknown object 0xe1 {:x?}", e1)
    );
    let f4 = [0xa7, 0x02, 0x03, 0x40, 0x43];
    assert_eq!(
        TableEntry::UnknownF4(f4).to_text(),
        format!("unknown object 0xf4 {:x?}", f4)
    );
}
