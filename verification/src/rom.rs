//! The structured, read-only image of a cartridge.
//!
//! The image is read through three top-level pointer tables: one pointer per
//! area to its sixty-four room descriptors, one per area to its room order
//! table, and one per area to its chest table. A room descriptor holds three
//! pointers, to the warp, enemy and object tables of the room.

use vstd::prelude::*;

use crate::error::{FormatError, NeutopiaError};
use crate::interval::{added, Interval, IntervalStore};
use crate::rommap::{
    AREA_TABLE,
    AREA_TABLE_COUNT,
    CHEST_TABLE,
    CHEST_TABLE_COUNT,
    ROOMS_PER_AREA,
    ROOM_ORDER_TABLE,
    ROOM_ORDER_TABLE_COUNT,
};
use crate::util::{
    decode_pointer_table,
    find_object_table,
    has_terminator,
    pointer_mapped,
    pointer_offset,
    pointer_table,
    pointer_to_rom_offset,
    pointers_mapped,
    terminator_at,
    MAX_OFFSET,
};

pub mod chest;
pub mod object;
pub mod show;

pub use chest::Chest;
pub use object::ObjectInfo;

verus! {

/// The size in bytes of a room descriptor: three pointers.
pub const ROOM_DESCRIPTOR_SIZE: usize = 9;

/// The size in bytes of a room order table.
pub const ROOM_ORDER_SIZE: usize = 0x40;

/// A room as it lies in the image.
#[derive(Debug)]
pub struct Room {
    pub base_addr: u32,
    pub warp_table_pointer: u32,
    pub enemy_table_pointer: u32,
    pub object_table_pointer: u32,
    pub warp_table: Vec<u8>,
    pub enemy_table: Vec<u8>,
    pub object_table: Vec<u8>,
}

/// The mathematical content of a [`Room`].
pub struct RoomView {
    pub base_addr: u32,
    pub warp_table_pointer: u32,
    pub enemy_table_pointer: u32,
    pub object_table_pointer: u32,
    pub warp_table: Seq<u8>,
    pub enemy_table: Seq<u8>,
    pub object_table: Seq<u8>,
}

impl View for Room {
    type V = RoomView;

    open spec fn view(&self) -> RoomView {
        RoomView {
            base_addr: self.base_addr,
            warp_table_pointer: self.warp_table_pointer,
            enemy_table_pointer: self.enemy_table_pointer,
            object_table_pointer: self.object_table_pointer,
            warp_table: self.warp_table@,
            enemy_table: self.enemy_table@,
            object_table: self.object_table@,
        }
    }
}

/// The image as the three pointer tables lay it out. The tables of rooms,
/// room orders, chests and claimed ranges are indexed like the pointer
/// tables that lead to them.
pub struct NeutopiaRom {
    pub area_pointers: Vec<u32>,
    pub room_order_pointers: Vec<u32>,
    pub chest_table_pointers: Vec<u32>,
    pub room_order_tables: Vec<Vec<u8>>,
    pub room_info_tables: Vec<Vec<Room>>,
    pub chest_tables: Vec<Vec<Chest>>,
    pub room_info_intervals: Vec<IntervalStore>,
}

/// The mathematical content of a [`NeutopiaRom`].
pub struct RomView {
    pub area_pointers: Seq<u32>,
    pub room_order_pointers: Seq<u32>,
    pub chest_table_pointers: Seq<u32>,
    pub room_order_tables: Seq<Seq<u8>>,
    pub room_info_tables: Seq<Seq<RoomView>>,
    pub chest_tables: Seq<Seq<Chest>>,
    pub room_info_intervals: Seq<Seq<Interval>>,
}

/// The views of a list of rooms.
pub open spec fn room_views(rooms: Seq<Room>) -> Seq<RoomView> {
    rooms.map_values(|r: Room| r@)
}

impl View for NeutopiaRom {
    type V = RomView;

    open spec fn view(&self) -> RomView {
        RomView {
            area_pointers: self.area_pointers@,
            room_order_pointers: self.room_order_pointers@,
            chest_table_pointers: self.chest_table_pointers@,
            room_order_tables: self.room_order_tables@.map_values(|t: Vec<u8>| t@),
            room_info_tables: self.room_info_tables@.map_values(|rs: Vec<Room>| room_views(rs@)),
            chest_tables: self.chest_tables@.map_values(|t: Vec<Chest>| t@),
            room_info_intervals: self.room_info_intervals@.map_values(|s: IntervalStore| s@),
        }
    }
}

impl RomView {
    /// The model holds every area with all its rooms, and a chest table of
    /// eight records for each.
    pub open spec fn wf(self) -> bool {
        &&& self.area_pointers.len() == AREA_TABLE_COUNT
        &&& self.room_info_tables.len() == AREA_TABLE_COUNT
        &&& self.chest_tables.len() == CHEST_TABLE_COUNT
        &&& forall|a: int|
            0 <= a < self.room_info_tables.len() ==> (#[trigger] self.room_info_tables[a]).len()
                == ROOMS_PER_AREA
        &&& forall|a: int|
            0 <= a < self.chest_tables.len() ==> (#[trigger] self.chest_tables[a]).len()
                == chest::CHESTS_PER_AREA
        &&& forall|a: int|
            0 <= a < self.area_pointers.len() ==> #[trigger] self.area_pointers[a] <= MAX_OFFSET
    }
}

/// The pointer held in the three bytes of `data` from `at` on.
pub open spec fn pointer_at(data: Seq<u8>, at: int) -> Result<u32, FormatError> {
    if at + 3 > data.len() {
        Err(FormatError::TruncatedRom)
    } else if !pointer_mapped(data[at], data[at + 1], data[at + 2]) {
        Err(FormatError::InvalidPointer)
    } else {
        Ok(pointer_offset(data[at], data[at + 1], data[at + 2]))
    }
}

/// The table of `count` pointers that starts at `at`.
pub open spec fn table_at(data: Seq<u8>, at: int, count: nat) -> Result<Seq<u32>, FormatError> {
    if at > data.len() {
        Err(FormatError::TruncatedRom)
    } else if data.len() - at < 3 * count {
        Err(FormatError::ShortRead)
    } else if !pointers_mapped(data.skip(at), count) {
        Err(FormatError::InvalidPointer)
    } else {
        Ok(pointer_table(data.skip(at), count))
    }
}

/// The number of bytes of `s` before its first `0xff`.
pub open spec fn terminator_index(s: Seq<u8>) -> int {
    choose|n: int| terminator_at(s, n)
}

/// The room whose descriptor the pointer at `at` leads to.
///
/// The warp table runs from its pointer to the enemy table's; the enemy
/// table runs to its terminator; the object table has the length that its
/// records give it.
pub open spec fn room_at(data: Seq<u8>, at: int) -> Result<RoomView, FormatError> {
    match pointer_at(data, at) {
        Err(e) => Err(e),
        Ok(base) => match table_at(data, base as int, 3) {
            Err(e) => Err(e),
            Ok(ptrs) => {
                let warp = ptrs[0] as int;
                let enemy = ptrs[1] as int;
                let object = ptrs[2] as int;
                if warp > enemy || enemy > data.len() || !has_terminator(data.skip(enemy)) || object
                    > data.len() {
                    Err(FormatError::TruncatedRom)
                } else {
                    match object::table_len(data.skip(object)) {
                        Err(e) => Err(e),
                        Ok(len) => Ok(
                            RoomView {
                                base_addr: base,
                                warp_table_pointer: ptrs[0],
                                enemy_table_pointer: ptrs[1],
                                object_table_pointer: ptrs[2],
                                warp_table: data.subrange(warp, enemy),
                                enemy_table: data.subrange(
                                    enemy,
                                    enemy + terminator_index(data.skip(enemy)),
                                ),
                                object_table: data.subrange(object, object + len),
                            },
                        ),
                    }
                }
            },
        },
    }
}

/// The first `count` rooms of the area whose descriptor pointers start at
/// `area_ptr`, or the index of the first room that cannot be read, with the
/// reason.
pub open spec fn rooms_at(data: Seq<u8>, area_ptr: int, count: nat) -> Result<
    Seq<RoomView>,
    (nat, FormatError),
>
    decreases count,
{
    if count == 0 {
        Ok(Seq::empty())
    } else {
        match rooms_at(data, area_ptr, (count - 1) as nat) {
            Err(e) => Err(e),
            Ok(rooms) => match room_at(data, area_ptr + 3 * (count - 1)) {
                Err(e) => Err(((count - 1) as nat, e)),
                Ok(room) => Ok(rooms.push(room)),
            },
        }
    }
}

/// The store after the four ranges of a room were claimed: its descriptor,
/// then its warp, enemy and object tables, the last two with their
/// terminator.
pub open spec fn room_claims(store: Seq<Interval>, room: RoomView) -> Seq<Interval> {
    let base = room.base_addr as int;
    let warp = room.warp_table_pointer as int;
    let enemy = room.enemy_table_pointer as int;
    let object = room.object_table_pointer as int;
    let s1 = added(
        store,
        Interval { start: base as usize, end: (base + ROOM_DESCRIPTOR_SIZE) as usize },
    );
    let s2 = added(
        s1,
        Interval { start: warp as usize, end: (warp + room.warp_table.len()) as usize },
    );
    let s3 = added(
        s2,
        Interval { start: enemy as usize, end: (enemy + room.enemy_table.len() + 1) as usize },
    );
    added(
        s3,
        Interval { start: object as usize, end: (object + room.object_table.len() + 1) as usize },
    )
}

/// The ranges claimed by an area: its table of descriptor pointers, then
/// the ranges of its rooms in order.
pub open spec fn area_claims(area_ptr: int, rooms: Seq<RoomView>) -> Seq<Interval>
    decreases rooms.len(),
{
    if rooms.len() == 0 {
        added(
            Seq::empty(),
            Interval { start: area_ptr as usize, end: (area_ptr + 3 * ROOMS_PER_AREA) as usize },
        )
    } else {
        room_claims(area_claims(area_ptr, rooms.drop_last()), rooms.last())
    }
}

/// The rooms of the first `count` areas, or the first failure with the
/// area and room where it was met.
pub open spec fn areas_at(data: Seq<u8>, area_ptrs: Seq<u32>, count: nat) -> Result<
    Seq<Seq<RoomView>>,
    NeutopiaError,
>
    decreases count,
{
    if count == 0 {
        Ok(Seq::empty())
    } else {
        match areas_at(data, area_ptrs, (count - 1) as nat) {
            Err(e) => Err(e),
            Ok(areas) => match rooms_at(
                data,
                area_ptrs[count - 1] as int,
                ROOMS_PER_AREA as nat,
            ) {
                Err((room, cause)) => Err(
                    NeutopiaError::FormatInRoom {
                        area: (count - 1) as u8,
                        room: room as u8,
                        cause,
                    },
                ),
                Ok(rooms) => Ok(areas.push(rooms)),
            },
        }
    }
}

/// The ranges claimed by each area.
pub open spec fn claims_of(area_ptrs: Seq<u32>, areas: Seq<Seq<RoomView>>) -> Seq<Seq<Interval>> {
    Seq::new(areas.len(), |a: int| area_claims(area_ptrs[a] as int, areas[a]))
}

/// The room order table at `at`.
pub open spec fn order_table_at(data: Seq<u8>, at: int) -> Result<Seq<u8>, FormatError> {
    if at + ROOM_ORDER_SIZE > data.len() {
        Err(FormatError::TruncatedRom)
    } else {
        Ok(data.subrange(at, at + ROOM_ORDER_SIZE))
    }
}

/// The room order tables that the first `count` pointers lead to.
pub open spec fn order_tables_at(data: Seq<u8>, ptrs: Seq<u32>, count: nat) -> Result<
    Seq<Seq<u8>>,
    FormatError,
>
    decreases count,
{
    if count == 0 {
        Ok(Seq::empty())
    } else {
        match order_tables_at(data, ptrs, (count - 1) as nat) {
            Err(e) => Err(e),
            Ok(tables) => match order_table_at(data, ptrs[count - 1] as int) {
                Err(e) => Err(e),
                Ok(t) => Ok(tables.push(t)),
            },
        }
    }
}

/// The chest table at `at`.
pub open spec fn chest_table_at(data: Seq<u8>, at: int) -> Result<Seq<Chest>, FormatError> {
    if at > data.len() {
        Err(FormatError::TruncatedRom)
    } else if data.len() - at < 4 * chest::CHESTS_PER_AREA {
        Err(FormatError::ShortTable)
    } else {
        Ok(chest::chest_table(data.skip(at)))
    }
}

/// The chest tables that the first `count` pointers lead to.
pub open spec fn chest_tables_at(data: Seq<u8>, ptrs: Seq<u32>, count: nat) -> Result<
    Seq<Seq<Chest>>,
    FormatError,
>
    decreases count,
{
    if count == 0 {
        Ok(Seq::empty())
    } else {
        match chest_tables_at(data, ptrs, (count - 1) as nat) {
            Err(e) => Err(e),
            Ok(tables) => match chest_table_at(data, ptrs[count - 1] as int) {
                Err(e) => Err(e),
                Ok(t) => Ok(tables.push(t)),
            },
        }
    }
}

/// The model of an image, or the first failure met in this order: the three
/// pointer tables, the rooms area by area, the room order tables, the chest
/// tables.
pub open spec fn rom_at(data: Seq<u8>) -> Result<RomView, NeutopiaError> {
    match table_at(data, AREA_TABLE as int, AREA_TABLE_COUNT as nat) {
        Err(e) => Err(NeutopiaError::Format(e)),
        Ok(area_pointers) => match table_at(
            data,
            ROOM_ORDER_TABLE as int,
            ROOM_ORDER_TABLE_COUNT as nat,
        ) {
            Err(e) => Err(NeutopiaError::Format(e)),
            Ok(room_order_pointers) => match table_at(
                data,
                CHEST_TABLE as int,
                CHEST_TABLE_COUNT as nat,
            ) {
                Err(e) => Err(NeutopiaError::Format(e)),
                Ok(chest_table_pointers) => match areas_at(
                    data,
                    area_pointers,
                    AREA_TABLE_COUNT as nat,
                ) {
                    Err(e) => Err(e),
                    Ok(areas) => match order_tables_at(
                        data,
                        room_order_pointers,
                        ROOM_ORDER_TABLE_COUNT as nat,
                    ) {
                        Err(e) => Err(NeutopiaError::Format(e)),
                        Ok(room_order_tables) => match chest_tables_at(
                            data,
                            chest_table_pointers,
                            CHEST_TABLE_COUNT as nat,
                        ) {
                            Err(e) => Err(NeutopiaError::Format(e)),
                            Ok(chest_tables) => Ok(
                                RomView {
                                    area_pointers,
                                    room_order_pointers,
                                    chest_table_pointers,
                                    room_order_tables,
                                    room_info_tables: areas,
                                    chest_tables,
                                    room_info_intervals: claims_of(area_pointers, areas),
                                },
                            ),
                        },
                    },
                },
            },
        },
    }
}

/// No decoded pointer exceeds `MAX_OFFSET`.
pub proof fn lemma_pointer_offset_bound(b0: u8, b1: u8, b2: u8)
    requires
        pointer_mapped(b0, b1, b2),
    ensures
        pointer_offset(b0, b1, b2) <= MAX_OFFSET,
{
    assert(((b0 as u32) << 13) | (((b2 as u32) & 0x1f) << 8) | (b1 as u32) <= 0x1fffff)
        by (bit_vector);
}

/// The first terminator of a sequence is where `terminator_index` says.
pub proof fn lemma_terminator_index(s: Seq<u8>, n: int)
    requires
        terminator_at(s, n),
    ensures
        terminator_index(s) == n,
{
    let c = terminator_index(s);
    assert(terminator_at(s, c));
    if c < n {
        assert(s[c] != 0xff);
    } else if n < c {
        assert(s[n] != 0xff);
    }
}

fn read_pointer(data: &[u8], at: usize) -> (r: Result<u32, FormatError>)
    ensures
        r == pointer_at(data@, at as int),
        r is Ok ==> r->Ok_0 <= MAX_OFFSET,
{
    if at > data.len() || data.len() - at < 3 {
        return Err(FormatError::TruncatedRom);
    }
    let tail = vstd::slice::slice_subrange(data, at, data.len());
    proof {
        if pointer_mapped(data@[at as int], data@[at + 1], data@[at + 2]) {
            lemma_pointer_offset_bound(data@[at as int], data@[at + 1], data@[at + 2]);
        }
    }
    pointer_to_rom_offset(tail)
}

fn read_table(data: &[u8], at: usize, count: usize) -> (r: Result<Vec<u32>, FormatError>)
    ensures
        match r {
            Ok(table) => table_at(data@, at as int, count as nat) == Ok::<Seq<u32>, FormatError>(
                table@,
            ) && table@.len() == count && forall|i: int|
                0 <= i < count ==> #[trigger] table@[i] <= MAX_OFFSET,
            Err(e) => table_at(data@, at as int, count as nat) == Err::<Seq<u32>, FormatError>(e),
        },
{
    if at > data.len() {
        return Err(FormatError::TruncatedRom);
    }
    let tail = vstd::slice::slice_subrange(data, at, data.len());
    assert(tail@ =~= data@.skip(at as int));
    let r = decode_pointer_table(tail, count);
    proof {
        if r is Ok {
            assert forall|i: int| 0 <= i < count implies #[trigger] r->Ok_0@[i] <= MAX_OFFSET by {
                lemma_pointer_offset_bound(tail@[3 * i], tail@[3 * i + 1], tail@[3 * i + 2]);
            }
        }
    }
    r
}

fn read_room(data: &[u8], at: usize) -> (r: Result<Room, FormatError>)
    requires
        data@.len() < usize::MAX,
    ensures
        match r {
            Ok(room) => room_at(data@, at as int) == Ok::<RoomView, FormatError>(room@)
                && room_fits(room@, data@.len()),
            Err(e) => room_at(data@, at as int) == Err::<RoomView, FormatError>(e),
        },
{
    let base: u32 = match read_pointer(data, at) {
        Ok(base) => base,
        Err(e) => {
            return Err(e);
        },
    };
    let ptrs = match read_table(data, base as usize, 3) {
        Ok(ptrs) => ptrs,
        Err(e) => {
            return Err(e);
        },
    };
    let warp: usize = ptrs[0] as usize;
    let enemy: usize = ptrs[1] as usize;
    let object: usize = ptrs[2] as usize;
    if warp > enemy || enemy > data.len() {
        return Err(FormatError::TruncatedRom);
    }
    let warp_table = vstd::slice::slice_to_vec(vstd::slice::slice_subrange(data, warp, enemy));
    let enemy_tail = vstd::slice::slice_subrange(data, enemy, data.len());
    assert(enemy_tail@ =~= data@.skip(enemy as int));
    let enemy_table = match find_object_table(enemy_tail) {
        Some(t) => t,
        None => {
            return Err(FormatError::TruncatedRom);
        },
    };
    if object > data.len() {
        return Err(FormatError::TruncatedRom);
    }
    let object_tail = vstd::slice::slice_subrange(data, object, data.len());
    assert(object_tail@ =~= data@.skip(object as int));
    let len: usize = match object::object_table_len(object_tail) {
        Ok(len) => len,
        Err(e) => {
            return Err(e);
        },
    };
    let object_table = vstd::slice::slice_to_vec(
        vstd::slice::slice_subrange(data, object, object + len),
    );
    proof {
        lemma_terminator_index(data@.skip(enemy as int), enemy_table@.len() as int);
        assert(enemy_table@ =~= data@.subrange(enemy as int, enemy + enemy_table@.len()));
    }
    Ok(
        Room {
            base_addr: base,
            warp_table_pointer: ptrs[0],
            enemy_table_pointer: ptrs[1],
            object_table_pointer: ptrs[2],
            warp_table,
            enemy_table,
            object_table,
        },
    )
}

/// Whether the tables of a room lie within an image of `len` bytes, so that
/// the ends of its claimed ranges are machine numbers.
pub open spec fn room_fits(room: RoomView, len: nat) -> bool {
    &&& room.base_addr <= MAX_OFFSET
    &&& room.warp_table_pointer + room.warp_table.len() <= len
    &&& room.enemy_table_pointer + room.enemy_table.len() + 1 <= len
    &&& room.object_table_pointer + room.object_table.len() <= len
}

fn claim_room(store: &mut IntervalStore, room: &Room, Ghost(len): Ghost<nat>)
    requires
        room_fits(room@, len),
        len < usize::MAX,
    ensures
        final(store)@ == room_claims(old(store)@, room@),
{
    let base: usize = room.base_addr as usize;
    let warp: usize = room.warp_table_pointer as usize;
    let enemy: usize = room.enemy_table_pointer as usize;
    let object: usize = room.object_table_pointer as usize;
    store.add(base, base + ROOM_DESCRIPTOR_SIZE);
    store.add(warp, warp + room.warp_table.len());
    store.add(enemy, enemy + room.enemy_table.len() + 1);
    store.add(object, object + room.object_table.len() + 1);
}

fn read_area(data: &[u8], area_ptr: u32) -> (r: Result<
    (Vec<Room>, IntervalStore),
    (u8, FormatError),
>)
    requires
        data@.len() < usize::MAX,
        area_ptr <= MAX_OFFSET,
    ensures
        match r {
            Ok((rooms, store)) => rooms_at(data@, area_ptr as int, ROOMS_PER_AREA as nat) == Ok::<
                Seq<RoomView>,
                (nat, FormatError),
            >(room_views(rooms@)) && store@ == area_claims(area_ptr as int, room_views(rooms@))
                && rooms@.len() == ROOMS_PER_AREA,
            Err((room, cause)) => rooms_at(data@, area_ptr as int, ROOMS_PER_AREA as nat) == Err::<
                Seq<RoomView>,
                (nat, FormatError),
            >((room as nat, cause)),
        },
{
    let mut store = IntervalStore::new();
    store.add(area_ptr as usize, area_ptr as usize + 3 * ROOMS_PER_AREA);
    let mut rooms: Vec<Room> = Vec::new();
    let mut idx: usize = 0;
    assert(room_views(rooms@) =~= Seq::<RoomView>::empty());
    while idx < ROOMS_PER_AREA
        invariant
            idx <= ROOMS_PER_AREA,
            data@.len() < usize::MAX,
            area_ptr <= MAX_OFFSET,
            rooms@.len() == idx,
            rooms_at(data@, area_ptr as int, idx as nat) == Ok::<Seq<RoomView>, (nat, FormatError)>(
                room_views(rooms@),
            ),
            store@ == area_claims(area_ptr as int, room_views(rooms@)),
        decreases ROOMS_PER_AREA - idx,
    {
        let at: usize = area_ptr as usize + idx * 3;
        match read_room(data, at) {
            Ok(room) => {
                claim_room(&mut store, &room, Ghost(data@.len()));
                proof {
                    let before = room_views(rooms@);
                    let after = room_views(rooms@.push(room));
                    assert(after =~= before.push(room@));
                    assert(after.drop_last() =~= before);
                }
                rooms.push(room);
            },
            Err(e) => {
                proof {
                    lemma_rooms_at_error(data@, area_ptr as int, idx as nat, ROOMS_PER_AREA as nat);
                }
                return Err((idx as u8, e));
            },
        }
        idx = idx + 1;
    }
    Ok((rooms, store))
}

/// A room that cannot be read fails every longer run of rooms in the same
/// way.
pub proof fn lemma_rooms_at_error(data: Seq<u8>, area_ptr: int, idx: nat, count: nat)
    requires
        idx < count,
        rooms_at(data, area_ptr, idx) is Ok,
        room_at(data, area_ptr + 3 * idx) is Err,
    ensures
        rooms_at(data, area_ptr, count) == Err::<Seq<RoomView>, (nat, FormatError)>(
            (idx, room_at(data, area_ptr + 3 * idx)->Err_0),
        ),
    decreases count,
{
    if count > idx + 1 {
        lemma_rooms_at_error(data, area_ptr, idx, (count - 1) as nat);
    }
}

/// An area whose rooms cannot be read fails every longer run of areas in
/// the same way.
pub proof fn lemma_areas_at_error(data: Seq<u8>, area_ptrs: Seq<u32>, idx: nat, count: nat)
    requires
        idx < count,
        areas_at(data, area_ptrs, idx) is Ok,
        rooms_at(data, area_ptrs[idx as int] as int, ROOMS_PER_AREA as nat) is Err,
    ensures
        areas_at(data, area_ptrs, count) is Err,
        areas_at(data, area_ptrs, count) == areas_at(data, area_ptrs, idx + 1),
    decreases count,
{
    if count > idx + 1 {
        lemma_areas_at_error(data, area_ptrs, idx, (count - 1) as nat);
    }
}

/// A room order table that cannot be read fails every longer run.
pub proof fn lemma_order_tables_at_error(data: Seq<u8>, ptrs: Seq<u32>, idx: nat, count: nat)
    requires
        idx < count,
        order_tables_at(data, ptrs, idx) is Ok,
        order_table_at(data, ptrs[idx as int] as int) is Err,
    ensures
        order_tables_at(data, ptrs, count) == Err::<Seq<Seq<u8>>, FormatError>(
            order_table_at(data, ptrs[idx as int] as int)->Err_0,
        ),
    decreases count,
{
    if count > idx + 1 {
        lemma_order_tables_at_error(data, ptrs, idx, (count - 1) as nat);
    }
}

/// A chest table that cannot be read fails every longer run.
pub proof fn lemma_chest_tables_at_error(data: Seq<u8>, ptrs: Seq<u32>, idx: nat, count: nat)
    requires
        idx < count,
        chest_tables_at(data, ptrs, idx) is Ok,
        chest_table_at(data, ptrs[idx as int] as int) is Err,
    ensures
        chest_tables_at(data, ptrs, count) == Err::<Seq<Seq<Chest>>, FormatError>(
            chest_table_at(data, ptrs[idx as int] as int)->Err_0,
        ),
    decreases count,
{
    if count > idx + 1 {
        lemma_chest_tables_at_error(data, ptrs, idx, (count - 1) as nat);
    }
}

fn read_areas(data: &[u8], area_pointers: &Vec<u32>) -> (r: Result<
    (Vec<Vec<Room>>, Vec<IntervalStore>),
    NeutopiaError,
>)
    requires
        data@.len() < usize::MAX,
        area_pointers@.len() == AREA_TABLE_COUNT,
        forall|i: int| 0 <= i < area_pointers@.len() ==> #[trigger] area_pointers@[i] <= MAX_OFFSET,
    ensures
        match r {
            Ok((areas, stores)) => {
                let views = areas@.map_values(|rs: Vec<Room>| room_views(rs@));
                &&& areas_at(data@, area_pointers@, AREA_TABLE_COUNT as nat) == Ok::<
                    Seq<Seq<RoomView>>,
                    NeutopiaError,
                >(views)
                &&& stores@.map_values(|s: IntervalStore| s@) == claims_of(area_pointers@, views)
                &&& views.len() == AREA_TABLE_COUNT
                &&& forall|a: int| 0 <= a < views.len() ==> (#[trigger] views[a]).len()
                    == ROOMS_PER_AREA
            },
            Err(e) => areas_at(data@, area_pointers@, AREA_TABLE_COUNT as nat) == Err::<
                Seq<Seq<RoomView>>,
                NeutopiaError,
            >(e),
        },
{
    let mut areas: Vec<Vec<Room>> = Vec::new();
    let mut stores: Vec<IntervalStore> = Vec::new();
    let mut a: usize = 0;
    assert(areas@.map_values(|rs: Vec<Room>| room_views(rs@)) =~= Seq::<Seq<RoomView>>::empty());
    assert(stores@.map_values(|s: IntervalStore| s@) =~= claims_of(
        area_pointers@,
        Seq::<Seq<RoomView>>::empty(),
    ));
    while a < AREA_TABLE_COUNT
        invariant
            a <= AREA_TABLE_COUNT,
            data@.len() < usize::MAX,
            area_pointers@.len() == AREA_TABLE_COUNT,
            forall|i: int|
                0 <= i < area_pointers@.len() ==> #[trigger] area_pointers@[i] <= MAX_OFFSET,
            areas@.len() == a,
            stores@.len() == a,
            forall|k: int| 0 <= k < a ==> (#[trigger] areas@[k])@.len() == ROOMS_PER_AREA,
            areas_at(data@, area_pointers@, a as nat) == Ok::<Seq<Seq<RoomView>>, NeutopiaError>(
                areas@.map_values(|rs: Vec<Room>| room_views(rs@)),
            ),
            stores@.map_values(|s: IntervalStore| s@) == claims_of(
                area_pointers@,
                areas@.map_values(|rs: Vec<Room>| room_views(rs@)),
            ),
        decreases AREA_TABLE_COUNT - a,
    {
        match read_area(data, area_pointers[a]) {
            Ok((rooms, store)) => {
                proof {
                    let before = areas@.map_values(|rs: Vec<Room>| room_views(rs@));
                    let after = areas@.push(rooms).map_values(|rs: Vec<Room>| room_views(rs@));
                    assert(after =~= before.push(room_views(rooms@)));
                    let old_claims = stores@.map_values(|s: IntervalStore| s@);
                    let new_claims = stores@.push(store).map_values(|s: IntervalStore| s@);
                    assert forall|i: int| 0 <= i < new_claims.len() implies new_claims[i]
                        == claims_of(area_pointers@, after)[i] by {
                        if i < a {
                            assert(new_claims[i] == old_claims[i]);
                            assert(old_claims[i] == claims_of(area_pointers@, before)[i]);
                            assert(after[i] == before[i]);
                        }
                    }
                    assert(stores@.push(store).map_values(|s: IntervalStore| s@) =~= claims_of(
                        area_pointers@,
                        after,
                    ));
                }
                areas.push(rooms);
                stores.push(store);
            },
            Err((room, cause)) => {
                proof {
                    lemma_areas_at_error(
                        data@,
                        area_pointers@,
                        a as nat,
                        AREA_TABLE_COUNT as nat,
                    );
                }
                return Err(NeutopiaError::FormatInRoom { area: a as u8, room, cause });
            },
        }
        a = a + 1;
    }
    Ok((areas, stores))
}

fn read_order_tables(data: &[u8], ptrs: &Vec<u32>) -> (r: Result<Vec<Vec<u8>>, FormatError>)
    requires
        ptrs@.len() == ROOM_ORDER_TABLE_COUNT,
    ensures
        match r {
            Ok(tables) => order_tables_at(data@, ptrs@, ROOM_ORDER_TABLE_COUNT as nat) == Ok::<
                Seq<Seq<u8>>,
                FormatError,
            >(tables@.map_values(|t: Vec<u8>| t@)),
            Err(e) => order_tables_at(data@, ptrs@, ROOM_ORDER_TABLE_COUNT as nat) == Err::<
                Seq<Seq<u8>>,
                FormatError,
            >(e),
        },
{
    let mut tables: Vec<Vec<u8>> = Vec::new();
    let mut i: usize = 0;
    assert(tables@.map_values(|t: Vec<u8>| t@) =~= Seq::<Seq<u8>>::empty());
    while i < ROOM_ORDER_TABLE_COUNT
        invariant
            i <= ROOM_ORDER_TABLE_COUNT,
            ptrs@.len() == ROOM_ORDER_TABLE_COUNT,
            order_tables_at(data@, ptrs@, i as nat) == Ok::<Seq<Seq<u8>>, FormatError>(
                tables@.map_values(|t: Vec<u8>| t@),
            ),
        decreases ROOM_ORDER_TABLE_COUNT - i,
    {
        let at: usize = ptrs[i] as usize;
        if at > data.len() || data.len() - at < ROOM_ORDER_SIZE {
            proof {
                lemma_order_tables_at_error(data@, ptrs@, i as nat, ROOM_ORDER_TABLE_COUNT as nat);
            }
            return Err(FormatError::TruncatedRom);
        }
        let table = vstd::slice::slice_to_vec(
            vstd::slice::slice_subrange(data, at, at + ROOM_ORDER_SIZE),
        );
        assert(tables@.push(table).map_values(|t: Vec<u8>| t@) =~= tables@.map_values(
            |t: Vec<u8>| t@,
        ).push(table@));
        tables.push(table);
        i = i + 1;
    }
    Ok(tables)
}

fn read_chest_tables(data: &[u8], ptrs: &Vec<u32>) -> (r: Result<Vec<Vec<Chest>>, FormatError>)
    requires
        ptrs@.len() == CHEST_TABLE_COUNT,
    ensures
        match r {
            Ok(tables) => chest_tables_at(data@, ptrs@, CHEST_TABLE_COUNT as nat) == Ok::<
                Seq<Seq<Chest>>,
                FormatError,
            >(tables@.map_values(|t: Vec<Chest>| t@)) && tables@.len() == CHEST_TABLE_COUNT
                && forall|k: int| 0 <= k < tables@.len() ==> (#[trigger] tables@[k])@.len()
                    == chest::CHESTS_PER_AREA,
            Err(e) => chest_tables_at(data@, ptrs@, CHEST_TABLE_COUNT as nat) == Err::<
                Seq<Seq<Chest>>,
                FormatError,
            >(e),
        },
{
    let mut tables: Vec<Vec<Chest>> = Vec::new();
    let mut i: usize = 0;
    assert(tables@.map_values(|t: Vec<Chest>| t@) =~= Seq::<Seq<Chest>>::empty());
    while i < CHEST_TABLE_COUNT
        invariant
            i <= CHEST_TABLE_COUNT,
            ptrs@.len() == CHEST_TABLE_COUNT,
            tables@.len() == i,
            forall|k: int| 0 <= k < i ==> (#[trigger] tables@[k])@.len() == chest::CHESTS_PER_AREA,
            chest_tables_at(data@, ptrs@, i as nat) == Ok::<Seq<Seq<Chest>>, FormatError>(
                tables@.map_values(|t: Vec<Chest>| t@),
            ),
        decreases CHEST_TABLE_COUNT - i,
    {
        let at: usize = ptrs[i] as usize;
        if at > data.len() {
            proof {
                lemma_chest_tables_at_error(data@, ptrs@, i as nat, CHEST_TABLE_COUNT as nat);
            }
            return Err(FormatError::TruncatedRom);
        }
        let tail = vstd::slice::slice_subrange(data, at, data.len());
        assert(tail@ =~= data@.skip(at as int));
        match chest::parse_chest_table(tail) {
            Ok(table) => {
                assert(tables@.push(table).map_values(|t: Vec<Chest>| t@) =~= tables@.map_values(
                    |t: Vec<Chest>| t@,
                ).push(table@));
                tables.push(table);
            },
            Err(e) => {
                proof {
                    lemma_chest_tables_at_error(data@, ptrs@, i as nat, CHEST_TABLE_COUNT as nat);
                }
                return Err(e);
            },
        }
        i = i + 1;
    }
    Ok(tables)
}

impl NeutopiaRom {
    /// Reads the model of an image.
    ///
    /// Fails with the first defect met, as `rom_at` orders them; a defect in
    /// a room comes with the area and the room.
    pub fn new(data: &[u8]) -> (r: Result<NeutopiaRom, NeutopiaError>)
        requires
            data@.len() < usize::MAX,
        ensures
            match r {
                Ok(rom) => rom_at(data@) == Ok::<RomView, NeutopiaError>(rom@) && rom@.wf(),
                Err(e) => rom_at(data@) == Err::<RomView, NeutopiaError>(e),
            },
    {
        let area_pointers = match read_table(data, AREA_TABLE, AREA_TABLE_COUNT) {
            Ok(t) => t,
            Err(e) => {
                return Err(NeutopiaError::Format(e));
            },
        };
        let room_order_pointers = match read_table(data, ROOM_ORDER_TABLE, ROOM_ORDER_TABLE_COUNT) {
            Ok(t) => t,
            Err(e) => {
                return Err(NeutopiaError::Format(e));
            },
        };
        let chest_table_pointers = match read_table(data, CHEST_TABLE, CHEST_TABLE_COUNT) {
            Ok(t) => t,
            Err(e) => {
                return Err(NeutopiaError::Format(e));
            },
        };
        let (room_info_tables, room_info_intervals) = match read_areas(data, &area_pointers) {
            Ok(pair) => pair,
            Err(e) => {
                return Err(e);
            },
        };
        let room_order_tables = match read_order_tables(data, &room_order_pointers) {
            Ok(t) => t,
            Err(e) => {
                return Err(NeutopiaError::Format(e));
            },
        };
        let chest_tables = match read_chest_tables(data, &chest_table_pointers) {
            Ok(t) => t,
            Err(e) => {
                return Err(NeutopiaError::Format(e));
            },
        };
        Ok(
            NeutopiaRom {
                area_pointers,
                room_order_pointers,
                chest_table_pointers,
                room_order_tables,
                room_info_tables,
                chest_tables,
                room_info_intervals,
            },
        )
    }
}

} // verus!
