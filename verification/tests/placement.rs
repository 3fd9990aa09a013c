use neutopia::error::NeutopiaError;
use neutopia::game::{Chest, Neutopia};
use neutopia::rando::{
    assign_chests, crypt_rando, global_rando, name_of_seed, randomize, randomize_seeded,
    seed_from_name, verify_rom, Config, RandoType, RandomizedGame,
};
use neutopia::state::{checks_of_game, get_checks, Check, Gate, Item, LocationId, State};
use neutopia::util::rom_offset_to_pointer;
use neutopia::draw::Generator;

const AREA_TABLE: usize = 0x40000;
const ROOM_ORDER_TABLE: usize = 0x40033;
const CHEST_TABLE: usize = 0x40066;
const CHEST_TABLES: usize = 0x40200;
const ROOM_ORDERS: usize = 0x40400;
const AREA_DATA: usize = 0x41000;

const BOOK: neutopia::rom::Chest =
    neutopia::rom::Chest { item_id: 0x0d, arg: 0, text: 1, unknown: 0 };
const MOSS: neutopia::rom::Chest =
    neutopia::rom::Chest { item_id: 0x05, arg: 0, text: 2, unknown: 0 };
const WAND: neutopia::rom::Chest =
    neutopia::rom::Chest { item_id: 0x02, arg: 0, text: 3, unknown: 0 };
const BALL: neutopia::rom::Chest =
    neutopia::rom::Chest { item_id: 0x10, arg: 0, text: 4, unknown: 0 };
const BOMBS: neutopia::rom::Chest =
    neutopia::rom::Chest { item_id: 0x00, arg: 5, text: 5, unknown: 0 };
const MEDALLION: neutopia::rom::Chest =
    neutopia::rom::Chest { item_id: 0x12, arg: 0, text: 6, unknown: 0 };

fn put(rom: &mut Vec<u8>, at: usize, bytes: &[u8]) {
    rom[at..at + bytes.len()].copy_from_slice(bytes);
}

fn put_pointer(rom: &mut Vec<u8>, at: usize, offset: usize) {
    put(rom, at, &rom_offset_to_pointer(offset as u32));
}

fn chest_objects(ids: &[u8]) -> Vec<u8> {
    let mut table = Vec::new();
    for (k, id) in ids.iter().enumerate() {
        table.extend_from_slice(&[0x00, k as u8, 0x4c + id]);
    }
    table
}

/// An image whose rooms hold the chest objects that `objects` gives and
/// whose chest tables hold what `chests` gives.
fn build_rom(
    objects: &dyn Fn(usize, usize) -> Vec<u8>,
    chests: &dyn Fn(usize, usize) -> neutopia::rom::Chest,
) -> Vec<u8> {
    let mut rom = vec![0u8; 0x60000];
    let mut at = AREA_DATA;
    for area in 0..16 {
        put_pointer(&mut rom, AREA_TABLE + 3 * area, at);
        put_pointer(&mut rom, ROOM_ORDER_TABLE + 3 * area, ROOM_ORDERS + 0x40 * area);
        put_pointer(&mut rom, CHEST_TABLE + 3 * area, CHEST_TABLES + 0x20 * area);
        for slot in 0..8 {
            let c = chests(area, slot);
            put(
                &mut rom,
                CHEST_TABLES + 0x20 * area + 4 * slot,
                &[c.item_id, c.arg, c.text, c.unknown],
            );
        }
        let pointers = at;
        at += 3 * 0x40;
        for room in 0..0x40 {
            put_pointer(&mut rom, pointers + 3 * room, at);
            let table = chest_objects(&objects(area, room));
            put_pointer(&mut rom, at, at + 9);
            put_pointer(&mut rom, at + 3, at + 9);
            put_pointer(&mut rom, at + 6, at + 10);
            put(&mut rom, at + 9, &[0xff]);
            put(&mut rom, at + 10, &table);
            put(&mut rom, at + 10 + table.len(), &[0xff]);
            at += 11 + table.len();
        }
    }
    rom
}

fn small_objects(area: usize, room: usize) -> Vec<u8> {
    match (area, room) {
        (4, 0) => vec![0, 1],
        (0xc, 0x9) => vec![0],
        (0xc, 0x11) => vec![1, 2],
        // A medallion, which is not placed.
        (4, 1) => vec![7],
        _ => vec![],
    }
}

fn small_chests(area: usize, slot: usize) -> neutopia::rom::Chest {
    match (area, slot) {
        (4, 0) => BALL,
        (4, 1) => BOMBS,
        (0xc, 0) => BOOK,
        (0xc, 1) => MOSS,
        (0xc, 2) => WAND,
        _ => MEDALLION,
    }
}

fn small_rom() -> Vec<u8> {
    build_rom(&small_objects, &small_chests)
}

fn check(name: &str, area: u8, room: u8, index: u8, gates: Vec<Gate>) -> Check {
    Check { name: name.to_string(), area, room, index, gates }
}

fn small_catalog() -> Vec<Check> {
    vec![
        check("rooms b", 0xc, 0x11, 0, vec![]),
        check("crypt b", 4, 0, 1, vec![Gate::FireWand]),
        check("rooms a", 0xc, 0x9, 0, vec![]),
        check("crypt a", 4, 0, 0, vec![]),
        check("rooms c", 0xc, 0x11, 1, vec![]),
    ]
}

fn small_state() -> State {
    State::new(Neutopia::new(&small_rom()).unwrap(), small_catalog()).unwrap()
}

fn free(info: neutopia::rom::Chest) -> Item {
    Item { info, area_lock: None }
}

fn names(checks: &[Check]) -> Vec<String> {
    checks.iter().map(|c| c.name.clone()).collect()
}

#[test]
fn items_wait_in_the_order_of_their_keys() {
    let state = small_state();
    assert_eq!(
        state.filter_items(|_| true),
        vec![
            free(BOMBS),
            free(WAND),
            free(MOSS),
            free(BOOK),
            Item { info: BALL, area_lock: Some(4) },
        ]
    );
    assert_eq!(
        state.filter_items(|item| item.area_lock.is_some()),
        vec![Item { info: BALL, area_lock: Some(4) }]
    );
    assert!(state.is_balanced());
    assert!(!state.is_complete());
}

#[test]
fn equal_contents_give_one_item() {
    let chests = |area: usize, slot: usize| match (area, slot) {
        (4, 1) => WAND,
        _ => small_chests(area, slot),
    };
    let rom = build_rom(&small_objects, &chests);
    let state = State::new(Neutopia::new(&rom).unwrap(), small_catalog()).unwrap();
    assert_eq!(
        state.filter_items(|_| true),
        vec![free(WAND), free(MOSS), free(BOOK), Item { info: BALL, area_lock: Some(4) }]
    );
    assert!(!state.is_balanced());
}

#[test]
fn a_key_is_locked_to_the_area_of_its_chest() {
    let key = neutopia::rom::Chest { item_id: 0x11, arg: 0, text: 9, unknown: 0 };
    let chests = |area: usize, slot: usize| match (area, slot) {
        (0xc, 2) => key,
        _ => small_chests(area, slot),
    };
    let rom = build_rom(&small_objects, &chests);
    let state = State::new(Neutopia::new(&rom).unwrap(), small_catalog()).unwrap();
    assert_eq!(
        state.filter_items(|item| item.info.item_id == 0x11),
        vec![Item { info: key, area_lock: Some(0xc) }]
    );
}

#[test]
fn checks_wait_in_the_order_of_their_locations() {
    let state = small_state();
    assert_eq!(
        names(&state.filter_checks_gateless(|_| true)),
        vec!["crypt a", "crypt b", "rooms a", "rooms b", "rooms c"]
    );
    assert_eq!(
        names(&state.filter_checks_gateless(|check| check.area == 4)),
        vec!["crypt a", "crypt b"]
    );
    let sorted = get_checks(small_catalog()).unwrap();
    assert_eq!(
        names(&sorted),
        vec!["crypt a", "crypt b", "rooms a", "rooms b", "rooms c"]
    );
    assert_eq!(sorted[1].gates, vec![Gate::FireWand]);
    assert_eq!(sorted[1].loc(), LocationId { area: 4, room: 0, index: 1 });
}

#[test]
fn a_gated_check_opens_when_its_gate_is_cleared() {
    let mut state = small_state();
    assert_eq!(
        names(&state.filter_checks(|_| true)),
        vec!["crypt a", "rooms a", "rooms b", "rooms c"]
    );
    assert_eq!(names(&state.filter_checks(|check| check.area == 4)), vec!["crypt a"]);
    assert_eq!(state.place_item(free(BOMBS), 0xc, 0x11, 0), Ok(()));
    assert_eq!(
        names(&state.filter_checks(|_| true)),
        vec!["crypt a", "rooms a", "rooms c"]
    );
    assert_eq!(state.place_item(free(WAND), 0xc, 0x9, 0), Ok(()));
    assert_eq!(
        names(&state.filter_checks(|_| true)),
        vec!["crypt a", "crypt b", "rooms c"]
    );
    assert_eq!(
        names(&state.filter_checks_gateless(|_| true)),
        vec!["crypt a", "crypt b", "rooms c"]
    );
}

#[test]
fn gates_of_the_key_items() {
    let item = |item_id: u8| free(neutopia::rom::Chest { item_id, arg: 0, text: 0, unknown: 0 });
    assert_eq!(State::gate_for_item(&item(0x02)), Some(Gate::FireWand));
    assert_eq!(State::gate_for_item(&item(0x03)), Some(Gate::Bell));
    assert_eq!(State::gate_for_item(&item(0x0b)), Some(Gate::FalconShoes));
    assert_eq!(State::gate_for_item(&item(0x0c)), Some(Gate::RainbowDrop));
    assert_eq!(State::gate_for_item(&item(0x0d)), None);
    assert_eq!(State::gate_for_item(&item(0x00)), None);
}

#[test]
fn an_item_locked_to_another_area_is_refused() {
    let mut state = small_state();
    let locked = Item { info: BALL, area_lock: Some(5) };
    assert_eq!(
        state.place_item_by_loc(locked, &LocationId { area: 6, room: 0, index: 0 }),
        Err(NeutopiaError::AreaLockViolation)
    );
    let ball = Item { info: BALL, area_lock: Some(4) };
    assert_eq!(state.place_item(ball, 0xc, 0x9, 0), Err(NeutopiaError::AreaLockViolation));
    assert_eq!(state.place_item(ball, 4, 0, 0), Ok(()));
}

#[test]
fn a_location_without_check_is_refused() {
    let mut state = small_state();
    assert_eq!(state.place_item(free(BOMBS), 4, 0, 2), Err(NeutopiaError::UnknownLocation));
    assert_eq!(state.place_item(free(BOMBS), 4, 0, 0), Ok(()));
    assert_eq!(state.place_item(free(WAND), 4, 0, 0), Err(NeutopiaError::UnknownLocation));
}

#[test]
fn the_same_item_cannot_be_placed_twice() {
    let mut state = small_state();
    assert_eq!(state.place_item(free(BOMBS), 0xc, 0x11, 0), Ok(()));
    assert_eq!(state.place_item(free(BOMBS), 0xc, 0x11, 1), Err(NeutopiaError::UnknownItem));
    let stranger = Item { info: BOMBS, area_lock: Some(0xc) };
    assert_eq!(state.place_item(stranger, 0xc, 0x11, 1), Err(NeutopiaError::UnknownItem));
}

#[test]
fn a_failed_placement_changes_nothing() {
    let mut state = small_state();
    assert_eq!(state.place_item(free(MEDALLION), 4, 0, 0), Err(NeutopiaError::UnknownItem));
    assert_eq!(state.place_item(free(BOMBS), 9, 9, 9), Err(NeutopiaError::UnknownLocation));
    assert_eq!(state.filter_items(|_| true).len(), 5);
    assert_eq!(
        names(&state.filter_checks_gateless(|_| true)),
        vec!["crypt a", "crypt b", "rooms a", "rooms b", "rooms c"]
    );
    assert!(state.is_balanced());
}

#[test]
fn as_many_checks_as_items_wait_after_every_placement() {
    let mut state = small_state();
    let steps = [
        (free(BOOK), (0xc, 0x9, 0)),
        (free(MOSS), (0xc, 0x11, 1)),
        (Item { info: BALL, area_lock: Some(4) }, (4, 0, 0)),
        (free(WAND), (0xc, 0x11, 0)),
        (free(BOMBS), (4, 0, 1)),
    ];
    let mut left = 5;
    for (item, (area, room, index)) in steps {
        assert!(!state.is_complete());
        assert_eq!(state.place_item(item, area, room, index), Ok(()));
        left -= 1;
        assert!(state.is_balanced());
        assert_eq!(state.filter_items(|_| true).len(), left);
        assert_eq!(state.filter_checks_gateless(|_| true).len(), left);
    }
    assert!(state.is_complete());
}

#[test]
fn the_item_with_an_id_is_found_when_it_is_the_only_one() {
    let state = small_state();
    assert_eq!(state.get_item_by_id(0x0d), Ok(free(BOOK)));
    assert_eq!(state.get_item_by_id(0x10), Ok(Item { info: BALL, area_lock: Some(4) }));
    assert_eq!(state.get_item_by_id(0x01), Err(NeutopiaError::UnknownItem));
    let more = neutopia::rom::Chest { item_id: 0x00, arg: 9, text: 7, unknown: 0 };
    let chests = |area: usize, slot: usize| match (area, slot) {
        (0xc, 2) => more,
        _ => small_chests(area, slot),
    };
    let rom = build_rom(&small_objects, &chests);
    let state = State::new(Neutopia::new(&rom).unwrap(), small_catalog()).unwrap();
    assert_eq!(state.get_item_by_id(0x00), Err(NeutopiaError::AmbiguousItem));
}

#[test]
fn two_checks_at_one_location_are_refused() {
    let mut catalog = small_catalog();
    catalog.push(check("again", 0xc, 0x9, 0, vec![Gate::Bell]));
    assert_eq!(get_checks(catalog.clone()).err(), Some(NeutopiaError::DuplicateLocation));
    let n = Neutopia::new(&small_rom()).unwrap();
    assert_eq!(State::new(n, catalog).err(), Some(NeutopiaError::DuplicateLocation));
    assert!(get_checks(small_catalog()).is_ok());
    assert_eq!(get_checks(vec![]).map(|c| c.len()), Ok(0));
}

#[test]
fn finalize_writes_the_placed_items_into_the_chests() {
    let mut state = small_state();
    assert_eq!(state.place_item(free(BOMBS), 0xc, 0x11, 1), Ok(()));
    assert_eq!(state.place_item(free(BOOK), 4, 0, 0), Ok(()));
    let n = state.finalize().unwrap();
    assert_eq!(n.areas[0xc].chest_table[2], BOMBS);
    assert_eq!(n.areas[4].chest_table[0], BOOK);
    assert_eq!(n.areas[4].chest_table[1], BOMBS);
    assert_eq!(n.areas[0xc].chest_table[0], BOOK);
}

#[test]
fn finalize_refuses_a_check_without_chest() {
    let mut catalog = small_catalog();
    catalog.push(check("nowhere", 9, 9, 9, vec![]));
    let mut state = State::new(Neutopia::new(&small_rom()).unwrap(), catalog).unwrap();
    assert_eq!(state.place_item(free(BOMBS), 9, 9, 9), Ok(()));
    assert_eq!(state.finalize().err(), Some(NeutopiaError::IncoherentChest));
}

#[test]
fn a_game_lists_its_checks_by_area_and_item() {
    let n = Neutopia::new(&small_rom()).unwrap();
    let checks = checks_of_game(&n);
    assert_eq!(
        names(&checks),
        vec![
            "Crypt 1 - Crystal Ball",
            "Crypt 1 - Bombs x5",
            "Land Sphere Rooms - Book of Revival",
            "Land Sphere Rooms - Moonbeam Moss",
            "Land Sphere Rooms - Fire Wand",
        ]
    );
    assert_eq!(checks[1].loc(), LocationId { area: 4, room: 0, index: 1 });
    assert_eq!(checks[4].loc(), LocationId { area: 0xc, room: 0x11, index: 1 });
    assert!(checks.iter().all(|c| c.gates.is_empty()));
}

fn placed_contents(rom: &[u8]) -> Vec<Chest> {
    Neutopia::new(rom).unwrap().filter_chests(|chest| chest.info.item_id < 0x12)
}

#[test]
fn placement_puts_every_item_where_the_policy_allows() {
    for seed in 0..40u64 {
        let mut rng = Generator::new(seed);
        let out = global_rando(&mut rng, &small_rom(), small_catalog()).unwrap();
        let chests = placed_contents(&out);
        assert_eq!(chests.len(), 5);
        let at = |area: u8, room: u8, index: u8| {
            chests
                .iter()
                .find(|c| c.area == area && c.room == room && c.index == index)
                .unwrap()
                .info
        };
        assert_eq!(at(0xc, 0x9, 0), BOOK);
        assert_eq!(at(0xc, 0x11, 1), MOSS);
        let mut rest = vec![at(4, 0, 0), at(4, 0, 1), at(0xc, 0x11, 0)];
        rest.sort_by_key(|c| c.item_id);
        assert_eq!(rest, vec![BOMBS, WAND, BALL]);
        // The ball stays in its crypt, and the wand cannot lie behind the
        // check that it opens.
        assert!(at(4, 0, 0) == BALL || at(4, 0, 1) == BALL);
        assert!(at(4, 0, 1) != WAND);
    }
}

#[test]
fn placement_depends_on_the_seed_alone() {
    let mut outcomes = Vec::new();
    for seed in 0..40u64 {
        let mut a = Generator::new(seed);
        let mut b = Generator::new(seed);
        let first = global_rando(&mut a, &small_rom(), small_catalog()).unwrap();
        let second = global_rando(&mut b, &small_rom(), small_catalog()).unwrap();
        assert_eq!(first, second);
        if !outcomes.contains(&first) {
            outcomes.push(first);
        }
    }
    // Both places of the ball and of the bombs come up.
    assert!(outcomes.len() >= 2);
}

#[test]
fn placement_fails_on_a_catalog_that_does_not_fit() {
    let rom = small_rom();
    let run = |catalog: Vec<Check>| {
        let mut rng = Generator::new(1);
        global_rando(&mut rng, &rom, catalog)
    };
    assert_eq!(run(vec![]), Err(NeutopiaError::UnbalancedCatalog));
    let mut twice = small_catalog();
    twice[0] = check("again", 4, 0, 0, vec![]);
    assert_eq!(run(twice), Err(NeutopiaError::DuplicateLocation));
    let mut elsewhere = small_catalog();
    elsewhere[2] = check("not the place of the book", 0xc, 0x8, 0, vec![]);
    assert_eq!(run(elsewhere), Err(NeutopiaError::UnknownLocation));
    let mut shut = small_catalog();
    shut[0] = check("shut", 0xc, 0x11, 0, vec![Gate::Bell]);
    shut[3] = check("shut too", 4, 0, 0, vec![Gate::Bell]);
    // The ball takes one check of its crypt whatever the gates; then no
    // open check is left for the wand, or none for the bombs.
    assert_eq!(run(shut), Err(NeutopiaError::NoOpenCheck));
    let mut nowhere = small_catalog();
    nowhere[3] = check("no chest", 4, 1, 5, vec![]);
    assert_eq!(run(nowhere), Err(NeutopiaError::IncoherentChest));
}

#[test]
fn placement_needs_the_book_and_the_moss() {
    let chests = |area: usize, slot: usize| match (area, slot) {
        (0xc, 0) => BOMBS,
        _ => small_chests(area, slot),
    };
    let rom = build_rom(&small_objects, &chests);
    let mut catalog = small_catalog();
    catalog.pop();
    let mut rng = Generator::new(1);
    assert_eq!(global_rando(&mut rng, &rom, catalog), Err(NeutopiaError::UnknownItem));
}

#[test]
fn placement_fails_as_the_reading_of_the_game_fails() {
    let mut rng = Generator::new(1);
    assert_eq!(
        global_rando(&mut rng, &vec![0u8; 0x60000], small_catalog()),
        Err(NeutopiaError::Format(neutopia::error::FormatError::InvalidPointer))
    );
    assert_eq!(
        crypt_rando(&mut rng, &vec![0u8; 0x100]),
        Err(NeutopiaError::Format(neutopia::error::FormatError::TruncatedRom))
    );
}

fn crypt_objects(area: usize, room: usize) -> Vec<u8> {
    match (area, room) {
        (4, 0) => vec![0, 1],
        (5, 2) => vec![0, 1, 2],
        (5, 9) => vec![3, 4, 5, 6],
        (0xc, 0x9) => vec![0, 1],
        _ => vec![],
    }
}

fn crypt_chests(area: usize, slot: usize) -> neutopia::rom::Chest {
    match (area, slot) {
        // The medallion of the crypt stays where it is.
        (5, 6) => MEDALLION,
        _ => neutopia::rom::Chest {
            item_id: slot as u8,
            arg: area as u8,
            text: (8 * area + slot) as u8,
            unknown: 0,
        },
    }
}

#[test]
fn crypt_shuffle_permutes_the_chests_of_each_crypt() {
    let rom = build_rom(&crypt_objects, &crypt_chests);
    let before = Neutopia::new(&rom).unwrap();
    let mut moved = false;
    for seed in 0..20u64 {
        let mut rng = Generator::new(seed);
        let out = crypt_rando(&mut rng, &rom).unwrap();
        let mut again = Generator::new(seed);
        assert_eq!(crypt_rando(&mut again, &rom).unwrap(), out);
        let after = Neutopia::new(&out).unwrap();
        for area in 0..16 {
            let mut was = before.areas[area].chest_table.clone();
            let mut is = after.areas[area].chest_table.clone();
            if (4..=0xb).contains(&area) {
                moved = moved || was != is;
                was.sort_by_key(|c| c.text);
                is.sort_by_key(|c| c.text);
            }
            assert_eq!(was, is);
            for room in 0..0x40 {
                assert_eq!(
                    after.areas[area].rooms[room].objects,
                    before.areas[area].rooms[room].objects
                );
            }
        }
        assert_eq!(after.areas[5].chest_table[6], MEDALLION);
        assert_eq!(after.areas[5].chest_table[7], crypt_chests(5, 7));
    }
    assert!(moved);
}

#[test]
fn contents_are_assigned_in_order() {
    let rom = build_rom(&crypt_objects, &crypt_chests);
    let mut n = Neutopia::new(&rom).unwrap();
    let chests = n.filter_chests(|chest| chest.area == 5 && chest.room == 2);
    assert_eq!(chests.len(), 3);
    let infos = vec![crypt_chests(5, 2), crypt_chests(5, 0), crypt_chests(5, 1)];
    assert_eq!(assign_chests(&mut n, &chests, &infos), Ok(()));
    assert_eq!(n.areas[5].chest_table[0], crypt_chests(5, 2));
    assert_eq!(n.areas[5].chest_table[1], crypt_chests(5, 0));
    assert_eq!(n.areas[5].chest_table[2], crypt_chests(5, 1));
    assert_eq!(n.areas[5].chest_table[3], crypt_chests(5, 3));
}

#[test]
fn seed_names_are_numbers_in_base_36() {
    assert_eq!(name_of_seed(0), "0");
    assert_eq!(name_of_seed(9), "9");
    assert_eq!(name_of_seed(10), "A");
    assert_eq!(name_of_seed(35), "Z");
    assert_eq!(name_of_seed(36), "10");
    assert_eq!(name_of_seed(36 * 36 * 11 + 36 * 35 + 7), "BZ7");
    assert_eq!(name_of_seed(u64::MAX), "3W5E11264SGSF");
    assert_eq!(seed_from_name("0"), Ok(0));
    assert_eq!(seed_from_name("z"), Ok(35));
    assert_eq!(seed_from_name("Z"), Ok(35));
    assert_eq!(seed_from_name("10"), Ok(36));
    assert_eq!(seed_from_name("bz7"), Ok(36 * 36 * 11 + 36 * 35 + 7));
    assert_eq!(seed_from_name("3W5E11264SGSF"), Ok(u64::MAX));
    assert_eq!(seed_from_name("3W5E11264SGSG"), Err(NeutopiaError::InvalidSeed));
    assert_eq!(seed_from_name(""), Err(NeutopiaError::InvalidSeed));
    assert_eq!(seed_from_name("a seed"), Err(NeutopiaError::InvalidSeed));
    assert_eq!(seed_from_name("-1"), Err(NeutopiaError::InvalidSeed));
    for seed in [1u64, 37, 1295, 1296, 0xdead_beef, 1 << 63] {
        assert_eq!(seed_from_name(&name_of_seed(seed)), Ok(seed));
    }
}

#[test]
fn randomizer_refuses_a_bad_seed_before_it_looks_at_the_image() {
    let config = Config { ty: RandoType::Global, seed: Some("not a seed".to_string()) };
    assert_eq!(
        randomize(&config, &[], &vec![], small_catalog()).err(),
        Some(NeutopiaError::InvalidSeed)
    );
}

#[test]
fn randomizer_refuses_an_image_of_another_size() {
    for seed in [Some("1A".to_string()), None] {
        let config = Config { ty: RandoType::Local, seed };
        assert_eq!(
            randomize(&config, &small_rom()[1..], &vec![], small_catalog()).err(),
            Some(NeutopiaError::InvalidRomSize)
        );
    }
    assert_eq!(
        randomize_seeded(RandoType::Off, 7, &[1, 2, 3], &vec![], vec![]).err(),
        Some(NeutopiaError::InvalidRomSize)
    );
}

#[test]
fn randomizer_refuses_an_image_that_it_does_not_know() {
    let config = Config { ty: RandoType::Off, seed: Some("1A".to_string()) };
    assert_eq!(
        randomize(&config, &small_rom(), &vec![], small_catalog()).err(),
        Some(NeutopiaError::Unrecognized)
    );
    assert_eq!(verify_rom(small_rom()), Err(NeutopiaError::Unrecognized));
    assert_eq!(verify_rom(vec![0u8; 0x60200]), Err(NeutopiaError::Unrecognized));
    assert_eq!(verify_rom(vec![0u8; 0x60001]), Err(NeutopiaError::InvalidRomSize));
}

#[test]
fn kinds_of_placement_are_read_from_their_names() {
    assert_eq!(RandoType::parse("local"), Ok(RandoType::Local));
    assert_eq!(RandoType::parse("global"), Ok(RandoType::Global));
    assert_eq!(RandoType::parse("none"), Ok(RandoType::Off));
    assert_eq!(RandoType::parse("Local"), Err(NeutopiaError::InvalidRandoType));
    assert_eq!(RandoType::parse("locals"), Err(NeutopiaError::InvalidRandoType));
    assert_eq!(RandoType::parse(""), Err(NeutopiaError::InvalidRandoType));
    assert_eq!("global".parse::<RandoType>(), Ok(RandoType::Global));
    assert_eq!("day".parse::<RandoType>(), Err(NeutopiaError::InvalidRandoType));
}

#[test]
fn the_file_of_an_image_is_named_after_its_seed() {
    let game = RandomizedGame { seed: name_of_seed(36 * 35 + 1), data: vec![] };
    assert_eq!(game.file_name(), "neutopia-randomizer-Z1.pce");
    let game = RandomizedGame { seed: String::new(), data: vec![1] };
    assert_eq!(game.file_name(), "neutopia-randomizer-.pce");
}

#[test]
fn setup_fails_by_the_game_and_the_catalog_alone() {
    // The failures come in a fixed order, whatever the seed: the sizes of
    // the pools, the book, the moss, the place of the book, that of the moss.
    let with = |chests: &dyn Fn(usize, usize) -> neutopia::rom::Chest, catalog: Vec<Check>| {
        let rom = build_rom(&small_objects, chests);
        let mut outcomes = Vec::new();
        for seed in 0..8u64 {
            let mut rng = Generator::new(seed);
            outcomes.push(global_rando(&mut rng, &rom, catalog.clone()));
        }
        outcomes.dedup();
        assert_eq!(outcomes.len(), 1);
        outcomes.pop().unwrap()
    };
    let mut short = small_catalog();
    short.pop();
    assert_eq!(with(&small_chests, short), Err(NeutopiaError::UnbalancedCatalog));
    // Two books and no moss: the book is asked for first.
    let other_book = neutopia::rom::Chest { item_id: 0x0d, arg: 1, text: 9, unknown: 0 };
    let two_books = |area: usize, slot: usize| match (area, slot) {
        (0xc, 1) => other_book,
        _ => small_chests(area, slot),
    };
    assert_eq!(with(&two_books, small_catalog()), Err(NeutopiaError::AmbiguousItem));
    let other_moss = neutopia::rom::Chest { item_id: 0x05, arg: 1, text: 9, unknown: 0 };
    let two_mosses = |area: usize, slot: usize| match (area, slot) {
        (4, 1) => other_moss,
        _ => small_chests(area, slot),
    };
    assert_eq!(with(&two_mosses, small_catalog()), Err(NeutopiaError::AmbiguousItem));
    let no_moss = |area: usize, slot: usize| match (area, slot) {
        (0xc, 1) => BOMBS,
        _ => small_chests(area, slot),
    };
    let mut four = small_catalog();
    four.pop();
    assert_eq!(with(&no_moss, four), Err(NeutopiaError::UnknownItem));
    // No check at the place of the book, and none at that of the moss.
    let mut neither = small_catalog();
    neither[2] = check("not the place of the book", 0xc, 0x8, 0, vec![]);
    neither[4] = check("not the place of the moss", 0xc, 0x11, 2, vec![]);
    assert_eq!(with(&small_chests, neither), Err(NeutopiaError::UnknownLocation));
    let mut no_moss_place = small_catalog();
    no_moss_place[4] = check("not the place of the moss", 0xc, 0x11, 2, vec![]);
    assert_eq!(with(&small_chests, no_moss_place), Err(NeutopiaError::UnknownLocation));
}

#[test]
fn a_locked_item_without_check_in_its_area_stops_the_placement() {
    let mut catalog = small_catalog();
    catalog[1] = check("elsewhere", 5, 0, 0, vec![]);
    catalog[3] = check("elsewhere too", 5, 0, 1, vec![]);
    let mut rng = Generator::new(3);
    assert_eq!(
        global_rando(&mut rng, &small_rom(), catalog),
        Err(NeutopiaError::NoOpenCheck)
    );
}

#[test]
fn a_locked_item_of_a_sphere_may_draw_a_check_of_another_area() {
    // A key found in a sphere is locked to it, but is placed with the
    // other items: where it draws a check elsewhere, the placement fails.
    let key = neutopia::rom::Chest { item_id: 0x11, arg: 0, text: 9, unknown: 0 };
    let objects = |area: usize, room: usize| match (area, room) {
        (1, 0) => vec![0],
        _ => small_objects(area, room),
    };
    let chests = |area: usize, slot: usize| match (area, slot) {
        (1, 0) => key,
        _ => small_chests(area, slot),
    };
    let rom = build_rom(&objects, &chests);
    let mut catalog = small_catalog();
    catalog.push(check("sphere", 1, 0, 0, vec![]));
    let mut seen = Vec::new();
    for seed in 0..40u64 {
        let mut rng = Generator::new(seed);
        match global_rando(&mut rng, &rom, catalog.clone()) {
            Ok(out) => {
                let placed = placed_contents(&out);
                let at_sphere =
                    placed.iter().find(|c| c.area == 1 && c.room == 0 && c.index == 0).unwrap();
                assert_eq!(at_sphere.info, key);
                if !seen.contains(&true) {
                    seen.push(true);
                }
            }
            Err(e) => {
                assert_eq!(e, NeutopiaError::AreaLockViolation);
                if !seen.contains(&false) {
                    seen.push(false);
                }
            }
        }
    }
    assert_eq!(seen.len(), 2);
}

#[test]
fn seed_names_take_a_sign_and_leading_zeros() {
    assert_eq!(seed_from_name("+z"), Ok(35));
    assert_eq!(seed_from_name("+10"), Ok(36));
    assert_eq!(seed_from_name("007"), Ok(7));
    assert_eq!(seed_from_name("0000000000000000000000003w5e11264sgsf"), Ok(u64::MAX));
    assert_eq!(seed_from_name("+"), Err(NeutopiaError::InvalidSeed));
    assert_eq!(seed_from_name("++1"), Err(NeutopiaError::InvalidSeed));
    assert_eq!(seed_from_name("1+"), Err(NeutopiaError::InvalidSeed));
    assert_eq!(seed_from_name(" 1"), Err(NeutopiaError::InvalidSeed));
    assert_eq!(seed_from_name("1 "), Err(NeutopiaError::InvalidSeed));
    assert_eq!(seed_from_name("1_0"), Err(NeutopiaError::InvalidSeed));
    assert_eq!(seed_from_name("-0"), Err(NeutopiaError::InvalidSeed));
    assert_eq!(seed_from_name("é"), Err(NeutopiaError::InvalidSeed));
    assert_eq!(seed_from_name("100000000000000"), Err(NeutopiaError::InvalidSeed));
}
