//! The game as a set of areas with parsed rooms and chest tables.
//!
//! Some rooms hold, right after a chest object, a pair of records that
//! belongs to what the chest contains. The pair is taken out of the room when
//! the game is read and kept under the chest's value, so that it can follow
//! the chest's content to wherever that content is placed.

use std::collections::HashMap;
use vstd::prelude::*;

use crate::error::{FormatError, NeutopiaError};
use crate::game::chests::{
    applied,
    area_chests,
    chest_objects,
    game_chests,
    lemma_chest_objects_prefix,
    lemma_room_chests_push,
    lemma_with_chest_wf,
    room_chests,
    slot_of,
    with_chest,
};
use crate::game::import::{
    areas_conditionals,
    count_chests,
    extract_conditional,
    import_areas,
    import_rooms,
    lemma_import_areas_error,
    lemma_import_rooms_error,
    rooms_conditionals,
};
use crate::game::layout::{
    area_base,
    area_image,
    area_size,
    areas_relocated,
    build_area,
    chests_relocated,
    fits,
    lemma_area_base_monotone,
    lemma_written_len,
    written,
    CHEST_RELOCATION,
    CHEST_RELOCATION_STRIDE,
    FIRST_RELOCATED_AREA,
    LAST_RELOCATED_AREA,
    MIRRORED_AREA,
    POINTER_SPAN,
};
use crate::rom::chest::{
    chest_table_bytes,
    lemma_chest_table_bytes_len,
    write_chest_table,
    CHESTS_PER_AREA,
};
use crate::rom::object::{parse_object_table, TableEntry};
use crate::rom::{NeutopiaRom, RomView};
use crate::rommap::{AREA_COUNT, AREA_TABLE, CHEST_TABLE, END_GAME_AREA, ROOMS_PER_AREA};
use crate::select::{lemma_masked_push, marks, masked};
use crate::util::{offset_pointer, rom_offset_to_pointer};
use crate::writer::{write_at, write_bytes};

pub mod chests;
pub mod import;
pub mod layout;

verus! {

/// The largest number of chests that a room may hold: their one byte
/// indices count from zero.
pub const MAX_ROOM_CHESTS: usize = 255;

/// A room of the game.
#[derive(Clone, Debug)]
pub struct Room {
    pub warps: Vec<u8>,
    pub enemies: Vec<u8>,
    pub objects: Vec<TableEntry>,
}

/// The mathematical content of a [`Room`].
pub struct RoomModel {
    pub warps: Seq<u8>,
    pub enemies: Seq<u8>,
    pub objects: Seq<TableEntry>,
}

impl View for Room {
    type V = RoomModel;

    open spec fn view(&self) -> RoomModel {
        RoomModel { warps: self.warps@, enemies: self.enemies@, objects: self.objects@ }
    }
}

/// An area of the game: its rooms and its chest table.
#[derive(Clone, Debug)]
pub struct Area {
    pub rooms: Vec<Room>,
    pub chest_table: Vec<crate::rom::Chest>,
}

/// The mathematical content of an [`Area`].
pub struct AreaModel {
    pub rooms: Seq<RoomModel>,
    pub chest_table: Seq<crate::rom::Chest>,
}

impl View for Area {
    type V = AreaModel;

    open spec fn view(&self) -> AreaModel {
        AreaModel { rooms: self.rooms@.map_values(|r: Room| r@), chest_table: self.chest_table@ }
    }
}

/// A chest with the place where it stands: `index` counts the chest
/// objects of its room.
#[derive(Clone, Copy, Debug, PartialEq, Eq, Structural)]
pub struct Chest {
    pub info: crate::rom::Chest,
    pub area: u8,
    pub room: u8,
    pub index: u8,
}

/// The pair of records that follows a chest object in some rooms.
#[derive(Clone, Debug)]
pub struct Conditional {
    pub data: Vec<TableEntry>,
}

/// The number under which a chest value is kept: its four bytes, lowest
/// first.
pub open spec fn chest_key(c: crate::rom::Chest) -> u32 {
    (c.item_id as u32) | ((c.arg as u32) << 8) | ((c.text as u32) << 16) | ((c.unknown as u32)
        << 24)
}

/// Different chest values have different keys.
pub proof fn lemma_chest_key_injective(a: crate::rom::Chest, b: crate::rom::Chest)
    requires
        chest_key(a) == chest_key(b),
    ensures
        a == b,
{
    let (a0, a1, a2, a3) = (a.item_id, a.arg, a.text, a.unknown);
    let (b0, b1, b2, b3) = (b.item_id, b.arg, b.text, b.unknown);
    assert((a0 as u32) | ((a1 as u32) << 8) | ((a2 as u32) << 16) | ((a3 as u32) << 24) == (
    b0 as u32) | ((b1 as u32) << 8) | ((b2 as u32) << 16) | ((b3 as u32) << 24) ==> a0 == b0 && a1
        == b1 && a2 == b2 && a3 == b3) by (bit_vector);
}

/// The conditionals of a game, each under the chest value that it was
/// found behind.
pub struct ConditionalTable {
    map: HashMap<u32, Conditional>,
}

impl View for ConditionalTable {
    type V = Map<crate::rom::Chest, Seq<TableEntry>>;

    closed spec fn view(&self) -> Map<crate::rom::Chest, Seq<TableEntry>> {
        Map::new(
            |c: crate::rom::Chest| self.map@.contains_key(chest_key(c)),
            |c: crate::rom::Chest| self.map@[chest_key(c)].data@,
        )
    }
}

fn key_of(c: &crate::rom::Chest) -> (k: u32)
    ensures
        k == chest_key(*c),
{
    (c.item_id as u32) | ((c.arg as u32) << 8) | ((c.text as u32) << 16) | ((c.unknown as u32)
        << 24)
}

impl ConditionalTable {
    /// An empty table.
    pub fn new() -> (t: ConditionalTable)
        ensures
            t@ == Map::<crate::rom::Chest, Seq<TableEntry>>::empty(),
    {
        let t = ConditionalTable { map: HashMap::new() };
        assert(t@ =~= Map::<crate::rom::Chest, Seq<TableEntry>>::empty());
        t
    }

    /// Keeps `cond` under `chest`, in place of what was kept there.
    pub fn insert(&mut self, chest: crate::rom::Chest, cond: Conditional)
        ensures
            final(self)@ == old(self)@.insert(chest, cond.data@),
    {
        let k = key_of(&chest);
        self.map.insert(k, cond);
        proof {
            assert forall|c: crate::rom::Chest| chest_key(c) == k implies c == chest by {
                lemma_chest_key_injective(c, chest);
            }
            assert(self@ =~= old(self)@.insert(chest, cond.data@));
        }
    }

    /// The conditional kept under `chest`, if there is one.
    pub fn get(&self, chest: &crate::rom::Chest) -> (r: Option<&Conditional>)
        ensures
            match r {
                Some(cond) => self@.contains_key(*chest) && cond.data@ == self@[*chest],
                None => !self@.contains_key(*chest),
            },
    {
        let k = key_of(chest);
        self.map.get(&k)
    }
}

/// The views of a list of areas.
pub open spec fn area_models(areas: Seq<Area>) -> Seq<AreaModel> {
    areas.map_values(|a: Area| a@)
}

/// Whether a room holds no more chests than a one byte index can number.
pub open spec fn room_wf(room: RoomModel) -> bool {
    chest_objects(room.objects).len() <= MAX_ROOM_CHESTS
}

/// Whether an area has all its rooms, each well formed, and a full chest
/// table.
pub open spec fn area_wf(area: AreaModel) -> bool {
    &&& area.rooms.len() == ROOMS_PER_AREA
    &&& area.chest_table.len() == CHESTS_PER_AREA
    &&& forall|r: int| 0 <= r < area.rooms.len() ==> room_wf(#[trigger] area.rooms[r])
}

/// Whether a list of areas is a whole game.
pub open spec fn areas_wf(areas: Seq<AreaModel>) -> bool {
    &&& areas.len() == AREA_COUNT
    &&& forall|a: int| 0 <= a < areas.len() ==> area_wf(#[trigger] areas[a])
}

/// The game: its areas, the conditionals taken out of their rooms, and the
/// image that it was read from.
pub struct Neutopia {
    pub areas: Vec<Area>,
    pub conditionals: ConditionalTable,
    pub rom_data: Vec<u8>,
    n: NeutopiaRom,
}

/// The mathematical content of a [`Neutopia`].
pub struct GameModel {
    pub areas: Seq<AreaModel>,
    pub conditionals: Map<crate::rom::Chest, Seq<TableEntry>>,
    pub rom_data: Seq<u8>,
    pub rom: RomView,
}

impl GameModel {
    /// Whether the game holds all its areas, each with all its rooms and a
    /// full chest table, and no room with more chests than can be numbered.
    pub open spec fn wf(self) -> bool {
        areas_wf(self.areas) && self.rom.wf()
    }
}

/// The game that an image holds, or why it holds none: the image has no
/// model, or a room's object table does not parse to its end or holds too
/// many chests.
pub open spec fn game_of(data: Seq<u8>) -> Result<GameModel, NeutopiaError> {
    match crate::rom::rom_at(data) {
        Err(e) => Err(e),
        Ok(rom) => match import_areas(rom, AREA_COUNT as nat) {
            Err(e) => Err(e),
            Ok(areas) => Ok(
                GameModel {
                    areas,
                    conditionals: areas_conditionals(rom, AREA_COUNT as nat),
                    rom_data: data,
                    rom,
                },
            ),
        },
    }
}

impl View for Neutopia {
    type V = GameModel;

    closed spec fn view(&self) -> GameModel {
        GameModel {
            areas: area_models(self.areas@),
            conditionals: self.conditionals@,
            rom_data: self.rom_data@,
            rom: self.n@,
        }
    }
}

impl Neutopia {

    /// Reads the game from an image.
    ///
    /// Fails where the image has no model, and where a room's object table
    /// does not parse to its end or holds too many chests.
    pub fn new(data: &[u8]) -> (r: Result<Neutopia, NeutopiaError>)
        requires
            data@.len() < usize::MAX,
        ensures
            match r {
                Ok(game) => game_of(data@) == Ok::<GameModel, NeutopiaError>(game@) && game@.wf(),
                Err(e) => game_of(data@) == Err::<GameModel, NeutopiaError>(e),
            },
    {
        let n = match NeutopiaRom::new(data) {
            Ok(n) => n,
            Err(e) => {
                return Err(e);
            },
        };
        let mut areas: Vec<Area> = Vec::new();
        let mut conditionals = ConditionalTable::new();
        let mut area_idx: usize = 0;
        assert(area_models(areas@) =~= Seq::<AreaModel>::empty());
        while area_idx < AREA_COUNT
            invariant
                area_idx <= AREA_COUNT,
                n@.wf(),
                crate::rom::rom_at(data@) == Ok::<RomView, NeutopiaError>(n@),
                areas@.len() == area_idx,
                import_areas(n@, area_idx as nat) == Ok::<Seq<AreaModel>, NeutopiaError>(
                    area_models(areas@),
                ),
                conditionals@ == areas_conditionals(n@, area_idx as nat),
                forall|a: int| 0 <= a < area_idx ==> area_wf(#[trigger] area_models(areas@)[a]),
            decreases AREA_COUNT - area_idx,
        {
            match Self::import_area(&n, &mut conditionals, area_idx) {
                Ok(area) => {
                    proof {
                        let before = area_models(areas@);
                        let after = area_models(areas@.push(area));
                        assert(after =~= before.push(area@));
                        assert forall|a: int| 0 <= a < area_idx + 1 implies area_wf(
                            #[trigger] after[a],
                        ) by {
                            if a < area_idx {
                                assert(after[a] == before[a]);
                            }
                        }
                    }
                    areas.push(area);
                },
                Err(e) => {
                    proof {
                        lemma_import_areas_error(n@, area_idx as nat, AREA_COUNT as nat);
                        assert(import_areas(n@, (area_idx + 1) as nat) == Err::<
                            Seq<AreaModel>,
                            NeutopiaError,
                        >(e));
                    }
                    return Err(e);
                },
            }
            area_idx = area_idx + 1;
        }
        let rom_data = vstd::slice::slice_to_vec(data);
        Ok(Neutopia { areas, conditionals, rom_data, n })
    }

    /// The chests of the game that `filter` accepts, in the order of
    /// `game_chests`.
    ///
    /// `index` is the position of a chest among the chest objects of its
    /// room, not its slot in the chest table of the area.
    pub fn filter_chests(&self, filter: impl Fn(&Chest) -> bool) -> (chests: Vec<Chest>)
        requires
            self@.wf(),
            forall|c: Chest| call_requires(filter, (&c,)),
        ensures
            exists|keep: Seq<bool>|
                #[trigger] marks(filter, game_chests(self@.areas, AREA_COUNT as nat), keep)
                    && chests@ == masked(game_chests(self@.areas, AREA_COUNT as nat), keep),
    {
        let mut chests: Vec<Chest> = Vec::new();
        let ghost mut seen: Seq<Chest> = Seq::empty();
        let ghost mut keep: Seq<bool> = Seq::empty();
        let mut a: usize = 0;
        while a < AREA_COUNT
            invariant
                a <= AREA_COUNT,
                self@.wf(),
                forall|c: Chest| call_requires(filter, (&c,)),
                seen == game_chests(self@.areas, a as nat),
                keep.len() == seen.len(),
                forall|j: int|
                    0 <= j < seen.len() ==> call_ensures(filter, (&seen[j],), #[trigger] keep[j]),
                chests@ == masked(seen, keep),
            decreases AREA_COUNT - a,
        {
            let area = &self.areas[a];
            assert(self@.areas[a as int] == area@);
            assert(area_wf(area@));
            let ghost seen_before = seen;
            let mut r: usize = 0;
            while r < ROOMS_PER_AREA
                invariant
                    r <= ROOMS_PER_AREA,
                    a < AREA_COUNT,
                    area_wf(area@),
                    forall|c: Chest| call_requires(filter, (&c,)),
                    seen == seen_before + area_chests(area@, a as u8, r as nat),
                    keep.len() == seen.len(),
                    forall|j: int|
                        0 <= j < seen.len() ==> call_ensures(
                            filter,
                            (&seen[j],),
                            #[trigger] keep[j],
                        ),
                    chests@ == masked(seen, keep),
                decreases ROOMS_PER_AREA - r,
            {
                let room = &area.rooms[r];
                assert(area@.rooms[r as int] == room@);
                assert(room_wf(area@.rooms[r as int]));
                let ghost seen_room = seen;
                let mut chest_index: u8 = 0;
                let mut i: usize = 0;
                assert(room.objects@.subrange(0, 0) =~= Seq::<TableEntry>::empty());
                assert(room_chests(
                    room.objects@.subrange(0, 0),
                    area.chest_table@,
                    a as u8,
                    r as u8,
                ) =~= Seq::<Chest>::empty());
                while i < room.objects.len()
                    invariant
                        i <= room.objects@.len(),
                        a < AREA_COUNT,
                        r < ROOMS_PER_AREA,
                        area.chest_table@.len() == CHESTS_PER_AREA,
                        chest_objects(room.objects@).len() <= MAX_ROOM_CHESTS,
                        forall|c: Chest| call_requires(filter, (&c,)),
                        chest_index == chest_objects(room.objects@.subrange(0, i as int)).len(),
                        seen == seen_room + room_chests(
                            room.objects@.subrange(0, i as int),
                            area.chest_table@,
                            a as u8,
                            r as u8,
                        ),
                        keep.len() == seen.len(),
                        forall|j: int|
                            0 <= j < seen.len() ==> call_ensures(
                                filter,
                                (&seen[j],),
                                #[trigger] keep[j],
                            ),
                        chests@ == masked(seen, keep),
                    decreases room.objects@.len() - i,
                {
                    let entry = room.objects[i];
                    proof {
                        let done = room.objects@.subrange(0, i as int);
                        assert(room.objects@.subrange(0, i + 1) =~= done.push(entry));
                        lemma_room_chests_push(done, entry, area.chest_table@, a as u8, r as u8);
                        lemma_chest_objects_prefix(room.objects@, i + 1);
                    }
                    if let Some(id) = entry.chest_id() {
                        let chest = Chest {
                            info: area.chest_table[id as usize],
                            area: a as u8,
                            room: r as u8,
                            index: chest_index,
                        };
                        chest_index = chest_index + 1;
                        let kept = filter(&chest);
                        proof {
                            lemma_masked_push(seen, keep, chest, kept);
                            let before = room_chests(
                                room.objects@.subrange(0, i as int),
                                area.chest_table@,
                                a as u8,
                                r as u8,
                            );
                            assert(seen.push(chest) =~= seen_room + before.push(chest));
                            seen = seen.push(chest);
                            keep = keep.push(kept);
                        }
                        if kept {
                            chests.push(chest);
                        }
                    }
                    i = i + 1;
                }
                proof {
                    assert(room.objects@.subrange(0, i as int) =~= room.objects@);
                    assert(seen =~= seen_before + area_chests(area@, a as u8, (r + 1) as nat));
                }
                r = r + 1;
            }
            proof {
                assert(seen =~= game_chests(self@.areas, (a + 1) as nat));
            }
            a = a + 1;
        }
        assert(marks(filter, game_chests(self@.areas, AREA_COUNT as nat), keep));
        chests
    }

    /// The table slot of the chest that `chest` names.
    ///
    /// Fails with `IncoherentChest` where the game has no such area, room
    /// or chest object.
    fn get_table_id_for_chest(&self, chest: &Chest) -> (r: Result<usize, NeutopiaError>)
        ensures
            match r {
                Ok(id) => slot_of(self@.areas, *chest) == Some(id as int),
                Err(e) => e == NeutopiaError::IncoherentChest && slot_of(self@.areas, *chest)
                    is None,
            },
    {
        let a: usize = chest.area as usize;
        if a >= self.areas.len() {
            return Err(NeutopiaError::IncoherentChest);
        }
        let area = &self.areas[a];
        assert(self@.areas[a as int] == area@);
        let r: usize = chest.room as usize;
        if r >= area.rooms.len() {
            return Err(NeutopiaError::IncoherentChest);
        }
        let room = &area.rooms[r];
        assert(area@.rooms[r as int] == room@);
        let mut chest_index: usize = 0;
        let mut i: usize = 0;
        assert(room.objects@.subrange(0, 0) =~= Seq::<TableEntry>::empty());
        while i < room.objects.len()
            invariant
                i <= room.objects@.len(),
                chest_index == chest_objects(room.objects@.subrange(0, i as int)).len(),
                chest_index <= i,
                chest_index <= chest.index,
                self@.areas[a as int] == area@,
                area@.rooms[r as int] == room@,
                a == chest.area,
                r == chest.room,
                a < self@.areas.len(),
                r < area@.rooms.len(),
            decreases room.objects@.len() - i,
        {
            let entry = room.objects[i];
            proof {
                let done = room.objects@.subrange(0, i as int);
                assert(room.objects@.subrange(0, i + 1) =~= done.push(entry));
                lemma_room_chests_push(done, entry, area.chest_table@, chest.area, chest.room);
                lemma_chest_objects_prefix(room.objects@, i + 1);
            }
            if let Some(id) = entry.chest_id() {
                if chest_index == chest.index as usize {
                    proof {
                        let upto = chest_objects(room.objects@.subrange(0, i + 1));
                        assert(upto[chest.index as int] == entry);
                        assert(chest_objects(room.objects@)[chest.index as int] == entry);
                    }
                    if (id as usize) < area.chest_table.len() {
                        return Ok(id as usize);
                    } else {
                        return Err(NeutopiaError::IncoherentChest);
                    }
                }
                chest_index = chest_index + 1;
            }
            i = i + 1;
        }
        assert(room.objects@.subrange(0, i as int) =~= room.objects@);
        Err(NeutopiaError::IncoherentChest)
    }

    /// Writes the content of each of `chests` into the chest table slot of
    /// the chest that it names, in order.
    ///
    /// Fails with `IncoherentChest` at the first that names no chest; those
    /// before it have been written.
    pub fn update_chests(&mut self, chests: &[Chest]) -> (r: Result<(), NeutopiaError>)
        ensures
            final(self)@.conditionals == old(self)@.conditionals,
            final(self)@.rom_data == old(self)@.rom_data,
            final(self)@.rom == old(self)@.rom,
            old(self)@.wf() ==> final(self)@.wf(),
            match r {
                Ok(()) => applied(old(self)@.areas, chests@, chests@.len()) == Some(
                    final(self)@.areas,
                ),
                Err(e) => e == NeutopiaError::IncoherentChest && exists|k: nat|
                    k < chests@.len() && #[trigger] applied(old(self)@.areas, chests@, k) == Some(
                        final(self)@.areas,
                    ) && applied(old(self)@.areas, chests@, k + 1) is None,
            },
    {
        let mut k: usize = 0;
        while k < chests.len()
            invariant
                k <= chests@.len(),
                self@.conditionals == old(self)@.conditionals,
                self@.rom_data == old(self)@.rom_data,
                self@.rom == old(self)@.rom,
                old(self)@.wf() ==> self@.wf(),
                applied(old(self)@.areas, chests@, k as nat) == Some(self@.areas),
            decreases chests@.len() - k,
        {
            let chest = chests[k];
            let id = match self.get_table_id_for_chest(&chest) {
                Ok(id) => id,
                Err(e) => {
                    return Err(e);
                },
            };
            let ghost before = self@.areas;
            self.areas[chest.area as usize].chest_table[id] = chest.info;
            proof {
                assert(self@.areas =~= with_chest(before, chest, id as int)) by {
                    assert forall|j: int| 0 <= j < before.len() implies self@.areas[j]
                        == with_chest(before, chest, id as int)[j] by {
                        if j == chest.area {
                            assert(self@.areas[j].rooms =~= before[j].rooms);
                        }
                    }
                }
                lemma_with_chest_wf(before, chest, id as int);
            }
            k = k + 1;
        }
        Ok(())
    }

    /// Writes area `area_idx` into `buf` at `base` and sets the pointer to
    /// it; returns the offset at which the area ends.
    ///
    /// Fails with `ImageTooLarge`, and leaves `buf` as it is, where the
    /// area would end past `POINTER_SPAN`.
    fn write_area(&self, area_idx: usize, base: usize, buf: &mut Vec<u8>) -> (r: Result<
        usize,
        NeutopiaError,
    >)
        requires
            self@.wf(),
            area_idx < AREA_COUNT,
            base <= POINTER_SPAN,
        ensures
            match r {
                Ok(next) => {
                    &&& next == base + area_size(self@.areas[area_idx as int], self@.conditionals)
                    &&& next <= POINTER_SPAN
                    &&& final(buf)@ == write_at(
                        write_at(
                            old(buf)@,
                            base as int,
                            area_image(
                                self@.areas[area_idx as int],
                                self@.conditionals,
                                base as int,
                            ),
                        ),
                        AREA_TABLE + 3 * area_idx,
                        offset_pointer(base as u32),
                    )
                },
                Err(e) => {
                    &&& e == NeutopiaError::ImageTooLarge
                    &&& base + area_size(self@.areas[area_idx as int], self@.conditionals)
                        > POINTER_SPAN
                    &&& final(buf)@ == old(buf)@
                },
            },
    {
        let area = &self.areas[area_idx];
        assert(self@.areas[area_idx as int] == area@);
        let image = match build_area(area, &self.conditionals, base) {
            Some(image) => image,
            None => {
                return Err(NeutopiaError::ImageTooLarge);
            },
        };
        write_bytes(buf, base, image.as_slice());
        let p = rom_offset_to_pointer(base as u32);
        write_bytes(buf, AREA_TABLE + 3 * area_idx, p.as_slice());
        Ok(base + image.len())
    }

    /// Writes the image of the game with the areas from `first` to `last`
    /// relocated, as `written` says.
    ///
    /// Fails with `ImageTooLarge` where the relocated areas would end past
    /// what a pointer can address.
    pub fn write_areas(&self, first: usize, last: usize) -> (r: Result<Vec<u8>, NeutopiaError>)
        requires
            self@.wf(),
            first <= last < AREA_COUNT,
        ensures
            fits(self@, first as int, last as int) ==> r is Ok && r->Ok_0@ == written(
                self@,
                first as int,
                last as int,
            ) && r->Ok_0@.len() >= self@.rom_data.len(),
            !fits(self@, first as int, last as int) ==> r == Err::<Vec<u8>, NeutopiaError>(
                NeutopiaError::ImageTooLarge,
            ),
    {
        let mut buf = copy_bytes(&self.rom_data);
        let count: usize = last - first + 1;
        let mut k: usize = 0;
        while k < count
            invariant
                k <= count,
                count == last - first + 1,
                first <= last < AREA_COUNT,
                self@.wf(),
                buf@ == chests_relocated(self@.rom_data, self@.areas, first as int, k as nat),
            decreases count - k,
        {
            let a: usize = first + k;
            let area = &self.areas[a];
            assert(self@.areas[a as int] == area@);
            let at: usize = CHEST_RELOCATION + CHEST_RELOCATION_STRIDE * a;
            let mut table: Vec<u8> = Vec::new();
            write_chest_table(&area.chest_table, &mut table);
            assert(table@ =~= chest_table_bytes(area@.chest_table));
            proof {
                lemma_chest_table_bytes_len(area@.chest_table);
            }
            write_bytes(&mut buf, at, table.as_slice());
            let p = rom_offset_to_pointer(at as u32);
            write_bytes(&mut buf, CHEST_TABLE + 3 * a, p.as_slice());
            k = k + 1;
        }
        let ghost relocated = buf@;
        let mut cur: usize = self.n.area_pointers[first] as usize;
        let mut mirrored: Option<usize> = None;
        let mut k: usize = 0;
        while k < count
            invariant
                k <= count,
                count == last - first + 1,
                first <= last < AREA_COUNT,
                self@.wf(),
                cur <= POINTER_SPAN,
                cur == area_base(self@, first as int, first + k),
                buf@ == areas_relocated(relocated, self@, first as int, k as nat),
                mirrored is Some <==> first <= MIRRORED_AREA < first + k,
                mirrored is Some ==> mirrored->Some_0 == area_base(
                    self@,
                    first as int,
                    MIRRORED_AREA as int,
                ) && mirrored->Some_0 < POINTER_SPAN,
            decreases count - k,
        {
            let a: usize = first + k;
            match self.write_area(a, cur, &mut buf) {
                Ok(next) => {
                    if a == MIRRORED_AREA {
                        mirrored = Some(cur);
                    }
                    cur = next;
                },
                Err(e) => {
                    proof {
                        lemma_area_base_monotone(self@, first as int, a + 1, last + 1);
                    }
                    return Err(e);
                },
            }
            k = k + 1;
        }
        if let Some(at) = mirrored {
            let p = rom_offset_to_pointer(at as u32);
            write_bytes(&mut buf, AREA_TABLE + 3 * END_GAME_AREA, p.as_slice());
        }
        proof {
            lemma_written_len(self@, first as int, last as int);
        }
        Ok(buf)
    }

    /// Writes the image of the game with the crypts and the rooms of the
    /// spheres relocated.
    pub fn write(&self) -> (r: Result<Vec<u8>, NeutopiaError>)
        requires
            self@.wf(),
        ensures
            fits(self@, FIRST_RELOCATED_AREA as int, LAST_RELOCATED_AREA as int) ==> r is Ok
                && r->Ok_0@ == written(
                self@,
                FIRST_RELOCATED_AREA as int,
                LAST_RELOCATED_AREA as int,
            ) && r->Ok_0@.len() >= self@.rom_data.len(),
            !fits(self@, FIRST_RELOCATED_AREA as int, LAST_RELOCATED_AREA as int) ==> r == Err::<
                Vec<u8>,
                NeutopiaError,
            >(NeutopiaError::ImageTooLarge),
    {
        self.write_areas(FIRST_RELOCATED_AREA, LAST_RELOCATED_AREA)
    }

    /// Imports one area of the image: parses the object table of each room
    /// and moves its first conditional into `conditionals`.
    fn import_area(n: &NeutopiaRom, conditionals: &mut ConditionalTable, area_idx: usize) -> (r:
        Result<Area, NeutopiaError>)
        requires
            n@.wf(),
            area_idx < AREA_COUNT,
        ensures
            match r {
                Ok(area) => {
                    &&& import_rooms(n@.room_info_tables[area_idx as int], ROOMS_PER_AREA as nat)
                        == Ok::<Seq<RoomModel>, (nat, FormatError)>(area@.rooms)
                    &&& area@.chest_table == n@.chest_tables[area_idx as int]
                    &&& area_wf(area@)
                    &&& final(conditionals)@ == rooms_conditionals(
                        old(conditionals)@,
                        n@.room_info_tables[area_idx as int],
                        n@.chest_tables[area_idx as int],
                        ROOMS_PER_AREA as nat,
                    )
                },
                Err(e) => exists|room: nat, cause: FormatError|
                    import_rooms(n@.room_info_tables[area_idx as int], ROOMS_PER_AREA as nat)
                        == Err::<Seq<RoomModel>, (nat, FormatError)>((room, cause)) && e
                        == (NeutopiaError::FormatInRoom {
                        area: area_idx as u8,
                        room: room as u8,
                        cause,
                    }),
            },
    {
        let room_info_table = &n.room_info_tables[area_idx];
        let chest_table = &n.chest_tables[area_idx];
        let ghost from = n@.room_info_tables[area_idx as int];
        let ghost chests = n@.chest_tables[area_idx as int];
        assert(from == crate::rom::room_views(room_info_table@));
        assert(chests == chest_table@);
        let mut rooms: Vec<Room> = Vec::new();
        let mut room_idx: usize = 0;
        assert(rooms@.map_values(|r: Room| r@) =~= Seq::<RoomModel>::empty());
        while room_idx < ROOMS_PER_AREA
            invariant
                room_idx <= ROOMS_PER_AREA,
                area_idx < AREA_COUNT,
                n@.wf(),
                from == n@.room_info_tables[area_idx as int],
                room_info_table@.len() == ROOMS_PER_AREA,
                from == crate::rom::room_views(room_info_table@),
                chests == chest_table@,
                chest_table@.len() == CHESTS_PER_AREA,
                rooms@.len() == room_idx,
                import_rooms(from, room_idx as nat) == Ok::<Seq<RoomModel>, (nat, FormatError)>(
                    rooms@.map_values(|r: Room| r@),
                ),
                forall|k: int| 0 <= k < room_idx ==> room_wf(#[trigger] rooms@[k]@),
                conditionals@ == rooms_conditionals(
                    old(conditionals)@,
                    from,
                    chests,
                    room_idx as nat,
                ),
            decreases ROOMS_PER_AREA - room_idx,
        {
            let room = &room_info_table[room_idx];
            assert(from[room_idx as int] == room@);
            let mut object_table = match parse_object_table(&room.object_table) {
                Ok(t) => t,
                Err(cause) => {
                    proof {
                        lemma_import_rooms_error(from, room_idx as nat, ROOMS_PER_AREA as nat);
                        assert(import_rooms(from, ROOMS_PER_AREA as nat) == Err::<
                            Seq<RoomModel>,
                            (nat, FormatError),
                        >((room_idx as nat, cause)));
                    }
                    return Err(
                        NeutopiaError::FormatInRoom {
                            area: area_idx as u8,
                            room: room_idx as u8,
                            cause,
                        },
                    );
                },
            };
            let ghost entries = object_table@;
            match extract_conditional(&mut object_table, chest_table) {
                Some((chest, cond)) => {
                    conditionals.insert(chest, cond);
                },
                None => {},
            }
            if count_chests(&object_table) > MAX_ROOM_CHESTS {
                proof {
                    lemma_import_rooms_error(from, room_idx as nat, ROOMS_PER_AREA as nat);
                    assert(import_rooms(from, ROOMS_PER_AREA as nat) == Err::<
                        Seq<RoomModel>,
                        (nat, FormatError),
                    >((room_idx as nat, FormatError::TooManyChests)));
                }
                return Err(
                    NeutopiaError::FormatInRoom {
                        area: area_idx as u8,
                        room: room_idx as u8,
                        cause: FormatError::TooManyChests,
                    },
                );
            }
            let imported = Room {
                warps: copy_bytes(&room.warp_table),
                enemies: copy_bytes(&room.enemy_table),
                objects: object_table,
            };
            proof {
                let before = rooms@.map_values(|r: Room| r@);
                let after = rooms@.push(imported).map_values(|r: Room| r@);
                assert(after =~= before.push(imported@));
            }
            rooms.push(imported);
            room_idx = room_idx + 1;
        }
        let area = Area { rooms, chest_table: copy_chests(chest_table) };
        proof {
            assert forall|r: int| 0 <= r < area@.rooms.len() implies room_wf(
                #[trigger] area@.rooms[r],
            ) by {
                assert(area@.rooms[r] == rooms@[r]@);
            }
        }
        Ok(area)
    }
}

/// The name of area `a`.
pub open spec fn spec_area_name(a: u8) -> Seq<char> {
    if a == 0x0 {
        "Land Sphere"@
    } else if a == 0x1 {
        "Subterranean Sphere"@
    } else if a == 0x2 {
        "Sea Sphere"@
    } else if a == 0x3 {
        "Sky Sphere"@
    } else if a == 0x4 {
        "Crypt 1"@
    } else if a == 0x5 {
        "Crypt 2"@
    } else if a == 0x6 {
        "Crypt 3"@
    } else if a == 0x7 {
        "Crypt 4"@
    } else if a == 0x8 {
        "Crypt 5"@
    } else if a == 0x9 {
        "Crypt 6"@
    } else if a == 0xa {
        "Crypt 7"@
    } else if a == 0xb {
        "Crypt 8"@
    } else if a == 0xc {
        "Land Sphere Rooms"@
    } else if a == 0xd {
        "Subterranean Sphere Rooms"@
    } else if a == 0xe {
        "Sea Sphere Rooms"@
    } else if a == 0xf {
        "Sky Sphere Rooms"@
    } else {
        "Unknown"@
    }
}

/// The name of an area: the four spheres, the eight crypts, and the rooms
/// of the four spheres.
pub fn area_name(area: u8) -> (name: &'static str)
    ensures
        name@ == spec_area_name(area),
{
    if area == 0x0 {
        "Land Sphere"
    } else if area == 0x1 {
        "Subterranean Sphere"
    } else if area == 0x2 {
        "Sea Sphere"
    } else if area == 0x3 {
        "Sky Sphere"
    } else if area == 0x4 {
        "Crypt 1"
    } else if area == 0x5 {
        "Crypt 2"
    } else if area == 0x6 {
        "Crypt 3"
    } else if area == 0x7 {
        "Crypt 4"
    } else if area == 0x8 {
        "Crypt 5"
    } else if area == 0x9 {
        "Crypt 6"
    } else if area == 0xa {
        "Crypt 7"
    } else if area == 0xb {
        "Crypt 8"
    } else if area == 0xc {
        "Land Sphere Rooms"
    } else if area == 0xd {
        "Subterranean Sphere Rooms"
    } else if area == 0xe {
        "Sea Sphere Rooms"
    } else if area == 0xf {
        "Sky Sphere Rooms"
    } else {
        "Unknown"
    }
}

/// A copy of a byte table.
pub fn copy_bytes(v: &Vec<u8>) -> (r: Vec<u8>)
    ensures
        r@ == v@,
{
    vstd::slice::slice_to_vec(v.as_slice())
}

/// A copy of a chest table.
pub fn copy_chests(v: &Vec<crate::rom::Chest>) -> (r: Vec<crate::rom::Chest>)
    ensures
        r@ == v@,
{
    vstd::slice::slice_to_vec(v.as_slice())
}

} // verus!
