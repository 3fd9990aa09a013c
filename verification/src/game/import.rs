//! Reading the rooms of a game from the rooms of an image.
//!
//! The object table of each room is parsed, and the first conditional in it
//! is taken out and kept under the content of the chest that it stands
//! behind.

use vstd::prelude::*;

use crate::error::{FormatError, NeutopiaError};
use crate::game::chests::chest_objects;
use crate::game::{AreaModel, Conditional, RoomModel, MAX_ROOM_CHESTS};
use crate::rom::chest::CHESTS_PER_AREA;
use crate::rom::object::{parse_entries, TableEntry};
use crate::rom::RomView;
use crate::rommap::ROOMS_PER_AREA;

verus! {

/// Whether a conditional starts behind the object at `i`: the object
/// selects a chest, the next record opens a conditional, and one more
/// record follows.
pub open spec fn conditional_at(objects: Seq<TableEntry>, i: int) -> bool {
    &&& 0 <= i
    &&& i + 2 < objects.len()
    &&& objects[i].spec_chest_id() is Some
    &&& objects[i + 1] is Unknown0b
}

/// Whether `i` is the first position behind which a conditional starts.
pub open spec fn first_conditional(objects: Seq<TableEntry>, i: int) -> bool {
    &&& conditional_at(objects, i)
    &&& forall|j: int| 0 <= j < i ==> !conditional_at(objects, j)
}

/// Whether the table holds a conditional.
pub open spec fn has_conditional(objects: Seq<TableEntry>) -> bool {
    exists|i: int| conditional_at(objects, i)
}

/// The position of the chest object of the first conditional.
pub open spec fn conditional_index(objects: Seq<TableEntry>) -> int {
    choose|i: int| first_conditional(objects, i)
}

/// The table without the two records of its first conditional.
pub open spec fn without_conditional(objects: Seq<TableEntry>) -> Seq<TableEntry> {
    if has_conditional(objects) {
        let i = conditional_index(objects);
        objects.subrange(0, i + 1) + objects.subrange(i + 3, objects.len() as int)
    } else {
        objects
    }
}

/// The two records of the first conditional.
pub open spec fn conditional_of(objects: Seq<TableEntry>) -> Seq<TableEntry> {
    let i = conditional_index(objects);
    objects.subrange(i + 1, i + 3)
}

/// The chest value that the first conditional stands behind.
pub open spec fn conditional_chest(
    objects: Seq<TableEntry>,
    chest_table: Seq<crate::rom::Chest>,
) -> crate::rom::Chest {
    chest_table[objects[conditional_index(objects)].spec_chest_id().unwrap() as int]
}

/// A position that is the first with a conditional is the one that
/// `conditional_index` names.
pub proof fn lemma_conditional_index(objects: Seq<TableEntry>, i: int)
    requires
        first_conditional(objects, i),
    ensures
        has_conditional(objects),
        conditional_index(objects) == i,
{
    let c = conditional_index(objects);
    assert(first_conditional(objects, c));
    if c < i {
        assert(!conditional_at(objects, c));
    } else if i < c {
        assert(!conditional_at(objects, i));
    }
}

/// Takes the first conditional out of `objects` and returns it with the
/// chest value that it stands behind.
pub fn extract_conditional(
    objects: &mut Vec<TableEntry>,
    chest_table: &Vec<crate::rom::Chest>,
) -> (r: Option<(crate::rom::Chest, Conditional)>)
    requires
        chest_table@.len() == CHESTS_PER_AREA,
    ensures
        final(objects)@ == without_conditional(old(objects)@),
        match r {
            Some((chest, cond)) => has_conditional(old(objects)@) && chest == conditional_chest(
                old(objects)@,
                chest_table@,
            ) && cond.data@ == conditional_of(old(objects)@),
            None => !has_conditional(old(objects)@),
        },
{
    let mut i: usize = 0;
    while i < objects.len() && objects.len() - i > 2
        invariant
            objects@ == old(objects)@,
            chest_table@.len() == CHESTS_PER_AREA,
            forall|j: int| 0 <= j < i ==> !conditional_at(objects@, j),
        decreases objects@.len() - i,
    {
        if let Some(id) = objects[i].chest_id() {
            let next = objects[i + 1];
            let next_next = objects[i + 2];
            if next.is_conditional() {
                let chest = chest_table[id as usize];
                proof {
                    lemma_conditional_index(objects@, i as int);
                }
                objects.remove(i + 1);
                objects.remove(i + 1);
                let mut data: Vec<TableEntry> = Vec::new();
                data.push(next);
                data.push(next_next);
                proof {
                    assert(objects@ =~= without_conditional(old(objects)@));
                    assert(data@ =~= conditional_of(old(objects)@));
                }
                return Some((chest, Conditional { data }));
            }
        }
        i = i + 1;
    }
    assert(!has_conditional(objects@)) by {
        if has_conditional(objects@) {
            let j = choose|j: int| conditional_at(objects@, j);
            assert(j < i);
        }
    }
    None
}

/// Counts the chest objects of a table, up to one more than a room may hold.
pub fn count_chests(objects: &Vec<TableEntry>) -> (n: usize)
    ensures
        n <= MAX_ROOM_CHESTS + 1,
        n <= MAX_ROOM_CHESTS ==> n == chest_objects(objects@).len(),
        n == MAX_ROOM_CHESTS + 1 ==> chest_objects(objects@).len() > MAX_ROOM_CHESTS,
{
    let mut n: usize = 0;
    let mut i: usize = 0;
    assert(objects@.subrange(0, 0) =~= Seq::<TableEntry>::empty());
    while i < objects.len()
        invariant
            i <= objects@.len(),
            n <= MAX_ROOM_CHESTS,
            n == chest_objects(objects@.subrange(0, i as int)).len(),
        decreases objects@.len() - i,
    {
        proof {
            let done = objects@.subrange(0, i as int);
            assert(objects@.subrange(0, i + 1) =~= done.push(objects@[i as int]));
            done.lemma_filter_push(objects@[i as int], |e: TableEntry| e.spec_chest_id() is Some);
        }
        if objects[i].chest_id().is_some() {
            if n == MAX_ROOM_CHESTS {
                proof {
                    let seen = objects@.subrange(0, i + 1);
                    let rest = objects@.subrange(i + 1, objects@.len() as int);
                    assert(objects@ =~= seen + rest);
                    Seq::filter_distributes_over_add(
                        seen,
                        rest,
                        |e: TableEntry| e.spec_chest_id() is Some,
                    );
                }
                return MAX_ROOM_CHESTS + 1;
            }
            n = n + 1;
        }
        i = i + 1;
    }
    assert(objects@.subrange(0, i as int) =~= objects@);
    n
}

/// The room of the game that a room of the image gives: its object table
/// parsed, without its first conditional.
pub open spec fn import_room(room: crate::rom::RoomView) -> Result<RoomModel, FormatError> {
    let (entries, rest) = parse_entries(room.object_table);
    if rest.len() != 0 {
        Err(FormatError::TrailingBytes)
    } else if chest_objects(without_conditional(entries)).len() > MAX_ROOM_CHESTS {
        Err(FormatError::TooManyChests)
    } else {
        Ok(
            RoomModel {
                warps: room.warp_table,
                enemies: room.enemy_table,
                objects: without_conditional(entries),
            },
        )
    }
}

/// The conditionals after those of a room were added.
pub open spec fn room_conditionals(
    conds: Map<crate::rom::Chest, Seq<TableEntry>>,
    room: crate::rom::RoomView,
    chest_table: Seq<crate::rom::Chest>,
) -> Map<crate::rom::Chest, Seq<TableEntry>> {
    let entries = parse_entries(room.object_table).0;
    if has_conditional(entries) {
        conds.insert(conditional_chest(entries, chest_table), conditional_of(entries))
    } else {
        conds
    }
}

/// The first `count` rooms of an area, imported, or the index of the first
/// that fails with the reason.
pub open spec fn import_rooms(rooms: Seq<crate::rom::RoomView>, count: nat) -> Result<
    Seq<RoomModel>,
    (nat, FormatError),
>
    decreases count,
{
    if count == 0 {
        Ok(Seq::empty())
    } else {
        match import_rooms(rooms, (count - 1) as nat) {
            Err(e) => Err(e),
            Ok(done) => match import_room(rooms[count - 1]) {
                Err(e) => Err(((count - 1) as nat, e)),
                Ok(room) => Ok(done.push(room)),
            },
        }
    }
}

/// The conditionals after those of the first `count` rooms of an area were
/// added, room by room.
pub open spec fn rooms_conditionals(
    conds: Map<crate::rom::Chest, Seq<TableEntry>>,
    rooms: Seq<crate::rom::RoomView>,
    chest_table: Seq<crate::rom::Chest>,
    count: nat,
) -> Map<crate::rom::Chest, Seq<TableEntry>>
    decreases count,
{
    if count == 0 {
        conds
    } else {
        room_conditionals(
            rooms_conditionals(conds, rooms, chest_table, (count - 1) as nat),
            rooms[count - 1],
            chest_table,
        )
    }
}

/// The first `count` areas of the game, imported, or the first failure
/// with its area and room.
pub open spec fn import_areas(rom: RomView, count: nat) -> Result<Seq<AreaModel>, NeutopiaError>
    decreases count,
{
    if count == 0 {
        Ok(Seq::empty())
    } else {
        match import_areas(rom, (count - 1) as nat) {
            Err(e) => Err(e),
            Ok(done) => match import_rooms(rom.room_info_tables[count - 1], ROOMS_PER_AREA as nat) {
                Err((room, cause)) => Err(
                    NeutopiaError::FormatInRoom {
                        area: (count - 1) as u8,
                        room: room as u8,
                        cause,
                    },
                ),
                Ok(rooms) => Ok(
                    done.push(AreaModel { rooms, chest_table: rom.chest_tables[count - 1] }),
                ),
            },
        }
    }
}

/// The conditionals of the first `count` areas, added area by area.
pub open spec fn areas_conditionals(rom: RomView, count: nat) -> Map<
    crate::rom::Chest,
    Seq<TableEntry>,
>
    decreases count,
{
    if count == 0 {
        Map::empty()
    } else {
        rooms_conditionals(
            areas_conditionals(rom, (count - 1) as nat),
            rom.room_info_tables[count - 1],
            rom.chest_tables[count - 1],
            ROOMS_PER_AREA as nat,
        )
    }
}

/// A room that cannot be imported fails every longer run of rooms in the
/// same way.
pub proof fn lemma_import_rooms_error(rooms: Seq<crate::rom::RoomView>, idx: nat, count: nat)
    requires
        idx < count,
        import_rooms(rooms, idx) is Ok,
        import_room(rooms[idx as int]) is Err,
    ensures
        import_rooms(rooms, count) == Err::<Seq<RoomModel>, (nat, FormatError)>(
            (idx, import_room(rooms[idx as int])->Err_0),
        ),
    decreases count,
{
    if count > idx + 1 {
        lemma_import_rooms_error(rooms, idx, (count - 1) as nat);
    }
}

/// An area that cannot be imported fails every longer run of areas in the
/// same way.
pub proof fn lemma_import_areas_error(rom: RomView, idx: nat, count: nat)
    requires
        idx < count,
        import_areas(rom, idx) is Ok,
        import_rooms(rom.room_info_tables[idx as int], ROOMS_PER_AREA as nat) is Err,
    ensures
        import_areas(rom, count) is Err,
        import_areas(rom, count) == import_areas(rom, idx + 1),
    decreases count,
{
    if count > idx + 1 {
        lemma_import_areas_error(rom, idx, (count - 1) as nat);
    }
}

} // verus!
