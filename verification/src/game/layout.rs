//! The bytes of a game as they are written into an image.
//!
//! The areas that are relocated are packed one after the other. An area is
//! the pointers to its rooms followed by the rooms; a room is the pointers
//! to its three tables followed by the tables.

use vstd::prelude::*;

use crate::game::{area_wf, Area, AreaModel, ConditionalTable, GameModel, Room, RoomModel};
use crate::rom::chest::{chest_table_bytes, CHESTS_PER_AREA};
use crate::rom::object::{table_bytes, write_object_table, ObjectInfo, TableEntry};
use crate::rommap::{AREA_TABLE, CHEST_TABLE, END_GAME_AREA, ROOMS_PER_AREA};
use crate::util::{offset_pointer, rom_offset_to_pointer};
use crate::writer::{append_bytes, write_at};

verus! {

/// Where the chest table of area 0 goes when the image is written.
pub const CHEST_RELOCATION: usize = 0x4fe00;

/// The distance between the relocated chest tables of two areas.
pub const CHEST_RELOCATION_STRIDE: usize = 0x20;

/// The end of what a pointer can address: relocated data lies below it.
pub const POINTER_SPAN: usize = 0x1c0000;

/// The first area that is relocated by default.
pub const FIRST_RELOCATED_AREA: usize = 0x4;

/// The last area that is relocated by default.
pub const LAST_RELOCATED_AREA: usize = 0xf;

/// The area whose place the end game area shares.
pub const MIRRORED_AREA: usize = 0xc;

/// The size in bytes of the three table pointers at the head of a room.
pub const ROOM_HEAD: usize = 9;

/// The size in bytes of the room pointers at the head of an area.
pub const AREA_HEAD: usize = 3 * ROOMS_PER_AREA;

/// A record with its position, if it has one as an `Object`, set to `(x, y)`.
pub open spec fn moved_to(e: TableEntry, x: u8, y: u8) -> TableEntry {
    match e {
        TableEntry::Object(o) => TableEntry::Object(ObjectInfo { x, y, id: o.id }),
        _ => e,
    }
}

/// The records of a conditional, moved to `(x, y)`.
pub open spec fn patched(data: Seq<TableEntry>, x: u8, y: u8) -> Seq<TableEntry> {
    data.map_values(|e: TableEntry| moved_to(e, x, y))
}

/// Whether the object at `i` is a chest whose content has a conditional.
pub open spec fn home_at(
    objects: Seq<TableEntry>,
    chest_table: Seq<crate::rom::Chest>,
    conds: Map<crate::rom::Chest, Seq<TableEntry>>,
    i: int,
) -> bool {
    &&& 0 <= i < objects.len()
    &&& objects[i].spec_chest_id() is Some
    &&& conds.contains_key(chest_table[objects[i].spec_chest_id().unwrap() as int])
}

/// Whether `i` is the first position where `home_at` holds.
pub open spec fn first_home(
    objects: Seq<TableEntry>,
    chest_table: Seq<crate::rom::Chest>,
    conds: Map<crate::rom::Chest, Seq<TableEntry>>,
    i: int,
) -> bool {
    &&& home_at(objects, chest_table, conds, i)
    &&& forall|j: int| 0 <= j < i ==> !home_at(objects, chest_table, conds, j)
}

/// The object table of a room as it is written: behind the first chest
/// whose content has a conditional stand the records of that conditional,
/// moved to the position of the chest.
pub open spec fn with_conditional(
    objects: Seq<TableEntry>,
    chest_table: Seq<crate::rom::Chest>,
    conds: Map<crate::rom::Chest, Seq<TableEntry>>,
) -> Seq<TableEntry> {
    if exists|i: int| home_at(objects, chest_table, conds, i) {
        let i = choose|i: int| first_home(objects, chest_table, conds, i);
        let o = objects[i]->Object_0;
        let chest = chest_table[objects[i].spec_chest_id().unwrap() as int];
        objects.subrange(0, i + 1) + patched(conds[chest], o.x, o.y) + objects.subrange(
            i + 1,
            objects.len() as int,
        )
    } else {
        objects
    }
}

/// The bytes of the object table of a room as it is written.
pub open spec fn room_table(
    room: RoomModel,
    chest_table: Seq<crate::rom::Chest>,
    conds: Map<crate::rom::Chest, Seq<TableEntry>>,
) -> Seq<u8> {
    table_bytes(with_conditional(room.objects, chest_table, conds))
}

/// The size in bytes of a room as it is written.
pub open spec fn room_size(
    room: RoomModel,
    chest_table: Seq<crate::rom::Chest>,
    conds: Map<crate::rom::Chest, Seq<TableEntry>>,
) -> nat {
    ROOM_HEAD as nat + room.warps.len() + room.enemies.len() + 1 + room_table(
        room,
        chest_table,
        conds,
    ).len() + 1
}

/// The bytes of a room written at offset `at`: the pointers to its three
/// tables, then the warp table, the enemy table with its terminator, and
/// the object table with its terminator.
pub open spec fn room_image(
    room: RoomModel,
    chest_table: Seq<crate::rom::Chest>,
    conds: Map<crate::rom::Chest, Seq<TableEntry>>,
    at: int,
) -> Seq<u8> {
    let warp = at + ROOM_HEAD;
    let enemy = warp + room.warps.len();
    let object = enemy + room.enemies.len() + 1;
    offset_pointer(warp as u32) + offset_pointer(enemy as u32) + offset_pointer(object as u32)
        + room.warps + room.enemies + seq![0xffu8] + room_table(room, chest_table, conds)
        + seq![0xffu8]
}

/// The size in bytes of the first `count` rooms of an area.
pub open spec fn rooms_size(
    area: AreaModel,
    conds: Map<crate::rom::Chest, Seq<TableEntry>>,
    count: nat,
) -> nat
    decreases count,
{
    if count == 0 {
        0
    } else {
        rooms_size(area, conds, (count - 1) as nat) + room_size(
            area.rooms[count - 1],
            area.chest_table,
            conds,
        )
    }
}

/// The pointers to the first `count` rooms of an area whose rooms start at
/// `start`.
pub open spec fn room_pointers(
    area: AreaModel,
    conds: Map<crate::rom::Chest, Seq<TableEntry>>,
    start: int,
    count: nat,
) -> Seq<u8>
    decreases count,
{
    if count == 0 {
        Seq::empty()
    } else {
        room_pointers(area, conds, start, (count - 1) as nat) + offset_pointer(
            (start + rooms_size(area, conds, (count - 1) as nat)) as u32,
        )
    }
}

/// The bytes of the first `count` rooms of an area whose rooms start at
/// `start`, one after the other.
pub open spec fn rooms_image(
    area: AreaModel,
    conds: Map<crate::rom::Chest, Seq<TableEntry>>,
    start: int,
    count: nat,
) -> Seq<u8>
    decreases count,
{
    if count == 0 {
        Seq::empty()
    } else {
        rooms_image(area, conds, start, (count - 1) as nat) + room_image(
            area.rooms[count - 1],
            area.chest_table,
            conds,
            start + rooms_size(area, conds, (count - 1) as nat),
        )
    }
}

/// The size in bytes of an area as it is written.
pub open spec fn area_size(area: AreaModel, conds: Map<crate::rom::Chest, Seq<TableEntry>>) -> nat {
    AREA_HEAD as nat + rooms_size(area, conds, ROOMS_PER_AREA as nat)
}

/// The bytes of an area written at offset `base`: the pointers to its
/// rooms, then the rooms.
pub open spec fn area_image(
    area: AreaModel,
    conds: Map<crate::rom::Chest, Seq<TableEntry>>,
    base: int,
) -> Seq<u8> {
    room_pointers(area, conds, base + AREA_HEAD, ROOMS_PER_AREA as nat) + rooms_image(
        area,
        conds,
        base + AREA_HEAD,
        ROOMS_PER_AREA as nat,
    )
}

/// Where area `a` starts when the areas from `first` on are packed one
/// after the other, the first of them at the place where it was found.
pub open spec fn area_base(game: GameModel, first: int, a: int) -> int
    decreases a - first,
{
    if a <= first {
        game.rom.area_pointers[first] as int
    } else {
        area_base(game, first, a - 1) + area_size(game.areas[a - 1], game.conditionals)
    }
}

/// The image after the chest tables of `count` areas from `first` on were
/// written to their new places and the pointers to them were set.
pub open spec fn chests_relocated(
    buf: Seq<u8>,
    areas: Seq<AreaModel>,
    first: int,
    count: nat,
) -> Seq<u8>
    decreases count,
{
    if count == 0 {
        buf
    } else {
        let a = first + count - 1;
        let at = CHEST_RELOCATION + CHEST_RELOCATION_STRIDE * a;
        write_at(
            write_at(
                chests_relocated(buf, areas, first, (count - 1) as nat),
                at,
                chest_table_bytes(areas[a].chest_table),
            ),
            CHEST_TABLE + 3 * a,
            offset_pointer(at as u32),
        )
    }
}

/// The image after `count` areas from `first` on were written to their new
/// places and the pointers to them were set.
pub open spec fn areas_relocated(buf: Seq<u8>, game: GameModel, first: int, count: nat) -> Seq<u8>
    decreases count,
{
    if count == 0 {
        buf
    } else {
        let a = first + count - 1;
        let base = area_base(game, first, a);
        write_at(
            write_at(
                areas_relocated(buf, game, first, (count - 1) as nat),
                base,
                area_image(game.areas[a], game.conditionals, base),
            ),
            AREA_TABLE + 3 * a,
            offset_pointer(base as u32),
        )
    }
}

/// Whether the areas from `first` to `last`, packed, end within what a
/// pointer can address.
pub open spec fn fits(game: GameModel, first: int, last: int) -> bool {
    area_base(game, first, last + 1) <= POINTER_SPAN
}

/// The image of a game whose areas from `first` to `last` were relocated:
/// first their chest tables, then the areas, and last the pointer of the
/// end game area, which follows the mirrored area where that one moved.
pub open spec fn written(game: GameModel, first: int, last: int) -> Seq<u8> {
    let count = (last - first + 1) as nat;
    let image = areas_relocated(
        chests_relocated(game.rom_data, game.areas, first, count),
        game,
        first,
        count,
    );
    if first <= MIRRORED_AREA <= last {
        write_at(
            image,
            AREA_TABLE + 3 * END_GAME_AREA,
            offset_pointer(area_base(game, first, MIRRORED_AREA as int) as u32),
        )
    } else {
        image
    }
}

/// Writing relocated data never shortens the image.
pub proof fn lemma_chests_relocated_len(buf: Seq<u8>, areas: Seq<AreaModel>, first: int, count: nat)
    ensures
        chests_relocated(buf, areas, first, count).len() >= buf.len(),
    decreases count,
{
    if count > 0 {
        lemma_chests_relocated_len(buf, areas, first, (count - 1) as nat);
    }
}

/// Writing relocated areas never shortens the image.
pub proof fn lemma_areas_relocated_len(buf: Seq<u8>, game: GameModel, first: int, count: nat)
    ensures
        areas_relocated(buf, game, first, count).len() >= buf.len(),
    decreases count,
{
    if count > 0 {
        lemma_areas_relocated_len(buf, game, first, (count - 1) as nat);
    }
}

/// The image written is at least as long as the image that the game was
/// read from.
pub proof fn lemma_written_len(game: GameModel, first: int, last: int)
    requires
        first <= last,
    ensures
        written(game, first, last).len() >= game.rom_data.len(),
{
    let count = (last - first + 1) as nat;
    lemma_chests_relocated_len(game.rom_data, game.areas, first, count);
    lemma_areas_relocated_len(
        chests_relocated(game.rom_data, game.areas, first, count),
        game,
        first,
        count,
    );
}

/// A position that is the first home of a conditional is the one that
/// `with_conditional` uses.
pub proof fn lemma_first_home(
    objects: Seq<TableEntry>,
    chest_table: Seq<crate::rom::Chest>,
    conds: Map<crate::rom::Chest, Seq<TableEntry>>,
    i: int,
)
    requires
        first_home(objects, chest_table, conds, i),
    ensures
        (choose|c: int| first_home(objects, chest_table, conds, c)) == i,
{
    let c = choose|c: int| first_home(objects, chest_table, conds, c);
    if c < i {
        assert(!home_at(objects, chest_table, conds, c));
    } else if i < c {
        assert(!home_at(objects, chest_table, conds, i));
    }
}

/// The size of the rooms of an area grows with their number.
pub proof fn lemma_rooms_size_monotone(
    area: AreaModel,
    conds: Map<crate::rom::Chest, Seq<TableEntry>>,
    i: nat,
    j: nat,
)
    requires
        i <= j,
    ensures
        rooms_size(area, conds, i) <= rooms_size(area, conds, j),
    decreases j,
{
    if i < j {
        lemma_rooms_size_monotone(area, conds, i, (j - 1) as nat);
    }
}

/// The packed areas start one after the other.
pub proof fn lemma_area_base_monotone(game: GameModel, first: int, a: int, b: int)
    requires
        first <= a <= b,
    ensures
        area_base(game, first, a) <= area_base(game, first, b),
    decreases b - a,
{
    if a < b {
        lemma_area_base_monotone(game, first, a, b - 1);
    }
}

/// The bytes of a room have the size of the room.
pub proof fn lemma_room_image_len(
    room: RoomModel,
    chest_table: Seq<crate::rom::Chest>,
    conds: Map<crate::rom::Chest, Seq<TableEntry>>,
    at: int,
)
    ensures
        room_image(room, chest_table, conds, at).len() == room_size(room, chest_table, conds),
{
}

/// The object table of a room as it is written, with the conditional of
/// its first chest that has one put back.
pub fn restore_conditional(
    objects: &Vec<TableEntry>,
    chest_table: &Vec<crate::rom::Chest>,
    conds: &ConditionalTable,
) -> (r: Vec<TableEntry>)
    requires
        chest_table@.len() == CHESTS_PER_AREA,
    ensures
        r@ == with_conditional(objects@, chest_table@, conds@),
{
    let mut out: Vec<TableEntry> = Vec::new();
    let mut i: usize = 0;
    while i < objects.len()
        invariant
            i <= objects@.len(),
            chest_table@.len() == CHESTS_PER_AREA,
            out@ == objects@.subrange(0, i as int),
            forall|j: int| 0 <= j < i ==> !home_at(objects@, chest_table@, conds@, j),
        decreases objects@.len() - i,
    {
        let entry = objects[i];
        out.push(entry);
        assert(out@ =~= objects@.subrange(0, i + 1));
        if let TableEntry::Object(o) = entry {
            if let Some(id) = entry.chest_id() {
                let chest = chest_table[id as usize];
                if let Some(cond) = conds.get(&chest) {
                    proof {
                        lemma_first_home(objects@, chest_table@, conds@, i as int);
                    }
                    let mut j: usize = 0;
                    while j < cond.data.len()
                        invariant
                            j <= cond.data@.len(),
                            i < objects@.len(),
                            out@ == objects@.subrange(0, i + 1) + patched(
                                cond.data@,
                                o.x,
                                o.y,
                            ).subrange(0, j as int),
                        decreases cond.data@.len() - j,
                    {
                        let moved = match cond.data[j] {
                            TableEntry::Object(c) => TableEntry::Object(
                                ObjectInfo { x: o.x, y: o.y, id: c.id },
                            ),
                            other => other,
                        };
                        out.push(moved);
                        j = j + 1;
                        assert(out@ =~= objects@.subrange(0, i + 1) + patched(
                            cond.data@,
                            o.x,
                            o.y,
                        ).subrange(0, j as int));
                    }
                    assert(patched(cond.data@, o.x, o.y).subrange(0, j as int) =~= patched(
                        cond.data@,
                        o.x,
                        o.y,
                    ));
                    let mut k: usize = i + 1;
                    while k < objects.len()
                        invariant
                            i < k <= objects@.len(),
                            out@ == objects@.subrange(0, i + 1) + patched(cond.data@, o.x, o.y)
                                + objects@.subrange(i + 1, k as int),
                        decreases objects@.len() - k,
                    {
                        out.push(objects[k]);
                        k = k + 1;
                        assert(out@ =~= objects@.subrange(0, i + 1) + patched(
                            cond.data@,
                            o.x,
                            o.y,
                        ) + objects@.subrange(i + 1, k as int));
                    }
                    proof {
                        assert(objects@.subrange(i + 1, k as int) =~= objects@.subrange(
                            i + 1,
                            objects@.len() as int,
                        ));
                        assert(home_at(objects@, chest_table@, conds@, i as int));
                        assert(objects@[i as int]->Object_0 == o);
                        assert(cond.data@ == conds@[chest]);
                    }
                    return out;
                }
            }
        }
        i = i + 1;
    }
    assert(out@ =~= objects@);
    out
}

/// The bytes of a room written at `at`, or `None` where the room would end
/// past `POINTER_SPAN`.
pub fn build_room(
    room: &Room,
    chest_table: &Vec<crate::rom::Chest>,
    conds: &ConditionalTable,
    at: usize,
) -> (r: Option<Vec<u8>>)
    requires
        chest_table@.len() == CHESTS_PER_AREA,
        at <= POINTER_SPAN,
    ensures
        at + room_size(room@, chest_table@, conds@) <= POINTER_SPAN <==> r is Some,
        r is Some ==> r->Some_0@ == room_image(room@, chest_table@, conds@, at as int),
{
    let objects = restore_conditional(&room.objects, chest_table, conds);
    let mut table: Vec<u8> = Vec::new();
    write_object_table(&objects, &mut table);
    assert(table@ =~= room_table(room@, chest_table@, conds@));
    let span: usize = POINTER_SPAN - at;
    if span < ROOM_HEAD + 2 {
        return None;
    }
    let mut left: usize = span - (ROOM_HEAD + 2);
    if room.warps.len() > left {
        return None;
    }
    left = left - room.warps.len();
    if room.enemies.len() > left {
        return None;
    }
    left = left - room.enemies.len();
    if table.len() > left {
        return None;
    }
    let warp: usize = at + ROOM_HEAD;
    let enemy: usize = warp + room.warps.len();
    let object: usize = enemy + room.enemies.len() + 1;
    let mut out: Vec<u8> = Vec::new();
    let p = rom_offset_to_pointer(warp as u32);
    append_bytes(&mut out, p.as_slice());
    let p = rom_offset_to_pointer(enemy as u32);
    append_bytes(&mut out, p.as_slice());
    let p = rom_offset_to_pointer(object as u32);
    append_bytes(&mut out, p.as_slice());
    append_bytes(&mut out, room.warps.as_slice());
    append_bytes(&mut out, room.enemies.as_slice());
    out.push(0xff);
    append_bytes(&mut out, table.as_slice());
    out.push(0xff);
    assert(out@ =~= room_image(room@, chest_table@, conds@, at as int));
    Some(out)
}

/// The bytes of an area written at `base`, or `None` where the area would
/// end past `POINTER_SPAN`.
pub fn build_area(area: &Area, conds: &ConditionalTable, base: usize) -> (r: Option<Vec<u8>>)
    requires
        area_wf(area@),
        base <= POINTER_SPAN,
    ensures
        base + area_size(area@, conds@) <= POINTER_SPAN <==> r is Some,
        r is Some ==> r->Some_0@ == area_image(area@, conds@, base as int) && r->Some_0@.len()
            == area_size(area@, conds@),
{
    if POINTER_SPAN - base < AREA_HEAD {
        return None;
    }
    let start: usize = base + AREA_HEAD;
    let mut ptrs: Vec<u8> = Vec::new();
    let mut data: Vec<u8> = Vec::new();
    let mut r: usize = 0;
    while r < ROOMS_PER_AREA
        invariant
            r <= ROOMS_PER_AREA,
            area_wf(area@),
            start == base + AREA_HEAD,
            data@.len() == rooms_size(area@, conds@, r as nat),
            start + data@.len() <= POINTER_SPAN,
            ptrs@.len() == 3 * r,
            ptrs@ == room_pointers(area@, conds@, start as int, r as nat),
            data@ == rooms_image(area@, conds@, start as int, r as nat),
        decreases ROOMS_PER_AREA - r,
    {
        let at: usize = start + data.len();
        let room = &area.rooms[r];
        assert(area@.rooms[r as int] == room@);
        let mut image = match build_room(room, &area.chest_table, conds, at) {
            Some(image) => image,
            None => {
                proof {
                    lemma_rooms_size_monotone(
                        area@,
                        conds@,
                        (r + 1) as nat,
                        ROOMS_PER_AREA as nat,
                    );
                }
                return None;
            },
        };
        proof {
            lemma_room_image_len(room@, area@.chest_table, conds@, at as int);
        }
        let p = rom_offset_to_pointer(at as u32);
        append_bytes(&mut ptrs, p.as_slice());
        data.append(&mut image);
        r = r + 1;
    }
    ptrs.append(&mut data);
    Some(ptrs)
}

} // verus!
