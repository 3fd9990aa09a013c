//! The chests of a game and what they hold.
//!
//! A chest is an object of a room whose id selects a slot of the chest
//! table of its area. A chest is named by its area, its room, and its place
//! among the chest objects of the room.

use vstd::prelude::*;

use crate::game::{area_wf, areas_wf, room_wf, AreaModel, Chest};
use crate::rom::object::TableEntry;

verus! {

/// The chest objects of a table, in order.
pub open spec fn chest_objects(objects: Seq<TableEntry>) -> Seq<TableEntry> {
    objects.filter(|e: TableEntry| e.spec_chest_id() is Some)
}

/// The chest that the `k`-th chest object of a room stands for.
pub open spec fn room_chest(
    objects: Seq<TableEntry>,
    chest_table: Seq<crate::rom::Chest>,
    area: u8,
    room: u8,
    k: int,
) -> Chest {
    Chest {
        info: chest_table[chest_objects(objects)[k].spec_chest_id().unwrap() as int],
        area,
        room,
        index: k as u8,
    }
}

/// The chests of a room, in the order of its chest objects.
pub open spec fn room_chests(
    objects: Seq<TableEntry>,
    chest_table: Seq<crate::rom::Chest>,
    area: u8,
    room: u8,
) -> Seq<Chest> {
    Seq::new(
        chest_objects(objects).len(),
        |k: int| room_chest(objects, chest_table, area, room, k),
    )
}

/// The chests of the first `count` rooms of an area.
pub open spec fn area_chests(area: AreaModel, a: u8, count: nat) -> Seq<Chest>
    decreases count,
{
    if count == 0 {
        Seq::empty()
    } else {
        area_chests(area, a, (count - 1) as nat) + room_chests(
            area.rooms[count - 1].objects,
            area.chest_table,
            a,
            (count - 1) as u8,
        )
    }
}

/// The chests of the first `count` areas of a game: area by area, room by
/// room, in the order of the chest objects of each room.
pub open spec fn game_chests(areas: Seq<AreaModel>, count: nat) -> Seq<Chest>
    decreases count,
{
    if count == 0 {
        Seq::empty()
    } else {
        game_chests(areas, (count - 1) as nat) + area_chests(
            areas[count - 1],
            (count - 1) as u8,
            areas[count - 1].rooms.len(),
        )
    }
}

/// The table slot of the chest that `c` names: the chest id of the
/// `index`-th chest object of its room, where there is one.
pub open spec fn slot_of(areas: Seq<AreaModel>, c: Chest) -> Option<int> {
    if c.area < areas.len() && c.room < areas[c.area as int].rooms.len() {
        let objects = chest_objects(areas[c.area as int].rooms[c.room as int].objects);
        if c.index < objects.len() {
            let slot = objects[c.index as int].spec_chest_id().unwrap() as int;
            if slot < areas[c.area as int].chest_table.len() {
                Some(slot)
            } else {
                None
            }
        } else {
            None
        }
    } else {
        None
    }
}

/// The areas with the content of `c` written into the table slot `slot` of
/// its area.
pub open spec fn with_chest(areas: Seq<AreaModel>, c: Chest, slot: int) -> Seq<AreaModel> {
    areas.update(
        c.area as int,
        AreaModel {
            rooms: areas[c.area as int].rooms,
            chest_table: areas[c.area as int].chest_table.update(slot, c.info),
        },
    )
}

/// The areas after the first `k` of `chests` were applied in order, or
/// `None` where one of them names no chest.
pub open spec fn applied(areas: Seq<AreaModel>, chests: Seq<Chest>, k: nat) -> Option<
    Seq<AreaModel>,
>
    decreases k,
{
    if k == 0 {
        Some(areas)
    } else {
        match applied(areas, chests, (k - 1) as nat) {
            None => None,
            Some(a) => match slot_of(a, chests[k - 1]) {
                None => None,
                Some(slot) => Some(with_chest(a, chests[k - 1], slot)),
            },
        }
    }
}

/// The chests of a table that grew by one record: one more chest where the
/// record is a chest object, the same chests otherwise.
pub proof fn lemma_room_chests_push(
    objects: Seq<TableEntry>,
    e: TableEntry,
    chest_table: Seq<crate::rom::Chest>,
    area: u8,
    room: u8,
)
    ensures
        chest_objects(objects.push(e)) == if e.spec_chest_id() is Some {
            chest_objects(objects).push(e)
        } else {
            chest_objects(objects)
        },
        room_chests(objects.push(e), chest_table, area, room) == if e.spec_chest_id() is Some {
            room_chests(objects, chest_table, area, room).push(
                Chest {
                    info: chest_table[e.spec_chest_id().unwrap() as int],
                    area,
                    room,
                    index: chest_objects(objects).len() as u8,
                },
            )
        } else {
            room_chests(objects, chest_table, area, room)
        },
{
    objects.lemma_filter_push(e, |e: TableEntry| e.spec_chest_id() is Some);
    if e.spec_chest_id() is Some {
        assert(room_chests(objects.push(e), chest_table, area, room) =~= room_chests(
            objects,
            chest_table,
            area,
            room,
        ).push(
            Chest {
                info: chest_table[e.spec_chest_id().unwrap() as int],
                area,
                room,
                index: chest_objects(objects).len() as u8,
            },
        ));
    }
}

/// A part of a table holds no more chest objects than the whole.
pub proof fn lemma_chest_objects_prefix(objects: Seq<TableEntry>, i: int)
    requires
        0 <= i <= objects.len(),
    ensures
        chest_objects(objects.subrange(0, i)).len() <= chest_objects(objects).len(),
        chest_objects(objects) == chest_objects(objects.subrange(0, i)) + chest_objects(
            objects.subrange(i, objects.len() as int),
        ),
{
    let head = objects.subrange(0, i);
    let tail = objects.subrange(i, objects.len() as int);
    assert(objects =~= head + tail);
    Seq::filter_distributes_over_add(head, tail, |e: TableEntry| e.spec_chest_id() is Some);
}

/// Once a chest reference fails, every longer run of references fails.
pub proof fn lemma_applied_none(areas: Seq<AreaModel>, chests: Seq<Chest>, k: nat, n: nat)
    requires
        k <= n,
        applied(areas, chests, k) is None,
    ensures
        applied(areas, chests, n) is None,
    decreases n,
{
    if k < n {
        lemma_applied_none(areas, chests, k, (n - 1) as nat);
    }
}

/// Writing a chest's content into a slot keeps a whole game whole.
pub proof fn lemma_with_chest_wf(areas: Seq<AreaModel>, c: Chest, slot: int)
    requires
        slot_of(areas, c) == Some(slot),
    ensures
        areas_wf(areas) ==> areas_wf(with_chest(areas, c, slot)),
{
    if areas_wf(areas) {
        let after = with_chest(areas, c, slot);
        assert forall|a: int| 0 <= a < after.len() implies area_wf(#[trigger] after[a]) by {
            assert(area_wf(areas[a]));
        }
    }
}

/// Whether two lists of areas have the same rooms and chest tables of the
/// same sizes.
pub open spec fn same_rooms(a: Seq<AreaModel>, b: Seq<AreaModel>) -> bool {
    &&& a.len() == b.len()
    &&& forall|i: int|
        0 <= i < a.len() ==> (#[trigger] a[i]).rooms == b[i].rooms && a[i].chest_table.len()
            == b[i].chest_table.len()
}

/// Whether a chest reference names a chest object of the game: `index`
/// counts the chest objects of its room.
pub open spec fn names_chest(areas: Seq<AreaModel>, c: Chest) -> bool {
    &&& c.area < areas.len()
    &&& c.room < areas[c.area as int].rooms.len()
    &&& c.index < chest_objects(areas[c.area as int].rooms[c.room as int].objects).len()
}

/// In a whole game, a reference that names a chest object has a slot.
pub proof fn lemma_named_chest_has_slot(areas: Seq<AreaModel>, c: Chest)
    requires
        areas_wf(areas),
        names_chest(areas, c),
    ensures
        slot_of(areas, c) is Some,
{
    let area = areas[c.area as int];
    assert(area_wf(area));
    let objects = area.rooms[c.room as int].objects;
    let pred = |e: TableEntry| e.spec_chest_id() is Some;
    objects.lemma_filter_pred(pred, c.index as int);
}

/// The chests of a room name chest objects of that room.
pub proof fn lemma_room_chests_named(areas: Seq<AreaModel>, a: int, r: int, c: Chest)
    requires
        areas_wf(areas),
        0 <= a < areas.len(),
        0 <= r < areas[a].rooms.len(),
        room_chests(areas[a].rooms[r].objects, areas[a].chest_table, a as u8, r as u8).contains(c),
    ensures
        names_chest(areas, c),
{
    assert(area_wf(areas[a]));
    assert(room_wf(areas[a].rooms[r]));
    let chests = room_chests(areas[a].rooms[r].objects, areas[a].chest_table, a as u8, r as u8);
    let k = choose|k: int| 0 <= k < chests.len() && chests[k] == c;
    assert(c == room_chest(areas[a].rooms[r].objects, areas[a].chest_table, a as u8, r as u8, k));
}

/// The chests of the first rooms of an area name chest objects.
pub proof fn lemma_area_chests_named(areas: Seq<AreaModel>, a: int, count: nat, c: Chest)
    requires
        areas_wf(areas),
        0 <= a < areas.len(),
        count <= areas[a].rooms.len(),
        area_chests(areas[a], a as u8, count).contains(c),
    ensures
        names_chest(areas, c),
    decreases count,
{
    assert(area_wf(areas[a]));
    if count > 0 {
        let before = area_chests(areas[a], a as u8, (count - 1) as nat);
        let last = room_chests(
            areas[a].rooms[count - 1].objects,
            areas[a].chest_table,
            a as u8,
            (count - 1) as u8,
        );
        let all = before + last;
        let i = choose|i: int| 0 <= i < all.len() && all[i] == c;
        if i < before.len() {
            assert(before[i] == c);
            lemma_area_chests_named(areas, a, (count - 1) as nat, c);
        } else {
            assert(last[i - before.len()] == c);
            lemma_room_chests_named(areas, a, count - 1, c);
        }
    }
}

/// The chests of a whole game name chest objects of the game.
pub proof fn lemma_game_chests_named(areas: Seq<AreaModel>, count: nat, c: Chest)
    requires
        areas_wf(areas),
        count <= areas.len(),
        game_chests(areas, count).contains(c),
    ensures
        names_chest(areas, c),
    decreases count,
{
    if count > 0 {
        let before = game_chests(areas, (count - 1) as nat);
        let last = area_chests(
            areas[count - 1],
            (count - 1) as u8,
            areas[count - 1].rooms.len(),
        );
        let all = before + last;
        let i = choose|i: int| 0 <= i < all.len() && all[i] == c;
        if i < before.len() {
            assert(before[i] == c);
            lemma_game_chests_named(areas, (count - 1) as nat, c);
        } else {
            assert(last[i - before.len()] == c);
            lemma_area_chests_named(areas, count - 1, areas[count - 1].rooms.len(), c);
        }
    }
}

/// References that all name chest objects of a whole game can all be
/// applied, and what they leave is a whole game with the same rooms.
pub proof fn lemma_applied_named(areas: Seq<AreaModel>, chests: Seq<Chest>, k: nat)
    requires
        areas_wf(areas),
        k <= chests.len(),
        forall|i: int| 0 <= i < chests.len() ==> names_chest(areas, #[trigger] chests[i]),
    ensures
        applied(areas, chests, k) is Some,
        same_rooms(areas, applied(areas, chests, k)->Some_0),
        areas_wf(applied(areas, chests, k)->Some_0),
    decreases k,
{
    if k > 0 {
        lemma_applied_named(areas, chests, (k - 1) as nat);
        let before = applied(areas, chests, (k - 1) as nat)->Some_0;
        let c = chests[k - 1];
        assert(names_chest(areas, c));
        assert(before[c.area as int].rooms == areas[c.area as int].rooms);
        lemma_named_chest_has_slot(before, c);
        let slot = slot_of(before, c)->Some_0;
        lemma_with_chest_wf(before, c, slot);
        let after = with_chest(before, c, slot);
        assert forall|i: int| 0 <= i < areas.len() implies (#[trigger] areas[i]).rooms
            == after[i].rooms && areas[i].chest_table.len() == after[i].chest_table.len() by {
            assert(before[i].rooms == areas[i].rooms);
        }
    }
}

} // verus!
