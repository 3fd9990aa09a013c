//! The gated placement of items into checks.
//!
//! A state holds the checks that wait for an item, the items that wait for a
//! check, and the gates that the items placed so far have cleared. The checks
//! are kept in the order of their locations and the items in the order of
//! their keys, so that every listing of them comes out in one fixed order.

use vstd::prelude::*;

use crate::error::NeutopiaError;
use crate::game::chests::{applied, game_chests, lemma_applied_none};
use crate::game::{Chest, GameModel, Neutopia};
use crate::select::{lemma_masked_is_filter, lemma_masked_push, marks, masked};
use crate::game::spec_area_name;
use crate::rom::chest::item_name;
use crate::rommap::AREA_COUNT;
use vstd::string::StringExecFns;

verus! {

/// A progression flag that a key item clears.
#[derive(Clone, Copy, Debug, PartialEq, Eq, Structural)]
pub enum Gate {
    RainbowDrop,
    FalconShoes,
    FireWand,
    Bell,
}

/// A place where one item can go, with the gates that guard it.
#[derive(Clone, Debug)]
pub struct Check {
    pub name: String,
    pub area: u8,
    pub room: u8,
    pub index: u8,
    pub gates: Vec<Gate>,
}

/// The mathematical content of a [`Check`].
pub struct CheckModel {
    pub name: Seq<char>,
    pub area: u8,
    pub room: u8,
    pub index: u8,
    pub gates: Seq<Gate>,
}

impl View for Check {
    type V = CheckModel;

    open spec fn view(&self) -> CheckModel {
        CheckModel {
            name: self.name@,
            area: self.area,
            room: self.room,
            index: self.index,
            gates: self.gates@,
        }
    }
}

/// The place of a chest: its area, its room, and its position among the
/// chest objects of the room.
#[derive(Clone, Copy, Debug, PartialEq, Eq, Structural)]
pub struct LocationId {
    pub area: u8,
    pub room: u8,
    pub index: u8,
}

impl LocationId {
    /// The number that orders locations: by area, then room, then index.
    pub open spec fn key(self) -> int {
        self.area * 0x10000 + self.room * 0x100 + self.index
    }
}

impl CheckModel {
    /// The location of the check.
    pub open spec fn loc(self) -> LocationId {
        LocationId { area: self.area, room: self.room, index: self.index }
    }
}

impl Check {
    /// The location of the check.
    pub fn loc(&self) -> (l: LocationId)
        ensures
            l == self@.loc(),
    {
        LocationId { area: self.area, room: self.room, index: self.index }
    }

    /// A copy of the check.
    pub fn copy(&self) -> (c: Check)
        ensures
            c@ == self@,
    {
        Check {
            name: self.name.clone(),
            area: self.area,
            room: self.room,
            index: self.index,
            gates: vstd::slice::slice_to_vec(self.gates.as_slice()),
        }
    }
}

/// A chest's content as the engine places it, with the area that it must
/// stay in, if any.
#[derive(Clone, Copy, Debug, PartialEq, Eq)]
pub struct Item {
    pub info: crate::rom::Chest,
    pub area_lock: Option<u8>,
}

impl Item {
    /// The number that orders items: by the four bytes of their content,
    /// then by their lock, an item without lock first.
    pub open spec fn key(self) -> int {
        (((self.info.item_id * 0x100 + self.info.arg) * 0x100 + self.info.text) * 0x100
            + self.info.unknown) * 0x200 + match self.area_lock {
            None => 0int,
            Some(a) => a + 1,
        }
    }

    fn exec_key(&self) -> (k: u64)
        ensures
            k == self.key(),
    {
        let lock: u64 = match self.area_lock {
            None => 0,
            Some(a) => a as u64 + 1,
        };
        ((((self.info.item_id as u64) * 0x100 + self.info.arg as u64) * 0x100
            + self.info.text as u64) * 0x100 + self.info.unknown as u64) * 0x200 + lock
    }
}

/// A number has one last digit and one rest in a base.
proof fn lemma_last_digit(q1: int, r1: int, q2: int, r2: int, base: int)
    requires
        0 <= r1 < base,
        0 <= r2 < base,
        q1 * base + r1 == q2 * base + r2,
    ensures
        q1 == q2,
        r1 == r2,
{
    assert(q1 == q2) by (nonlinear_arith)
        requires
            0 <= r1 < base,
            0 <= r2 < base,
            q1 * base + r1 == q2 * base + r2,
    ;
}

/// Items with the same key are the same item.
pub proof fn lemma_item_key_injective(a: Item, b: Item)
    requires
        a.key() == b.key(),
    ensures
        a == b,
{
    let lock = |it: Item|
        match it.area_lock {
            None => 0int,
            Some(x) => x + 1,
        };
    let upper = |it: Item|
        ((it.info.item_id * 0x100 + it.info.arg) * 0x100 + it.info.text) * 0x100
            + it.info.unknown;
    lemma_last_digit(upper(a), lock(a), upper(b), lock(b), 0x200);
    lemma_last_digit(
        (a.info.item_id * 0x100 + a.info.arg) * 0x100 + a.info.text,
        a.info.unknown as int,
        (b.info.item_id * 0x100 + b.info.arg) * 0x100 + b.info.text,
        b.info.unknown as int,
        0x100,
    );
    lemma_last_digit(
        a.info.item_id * 0x100 + a.info.arg,
        a.info.text as int,
        b.info.item_id * 0x100 + b.info.arg,
        b.info.text as int,
        0x100,
    );
    lemma_last_digit(
        a.info.item_id as int,
        a.info.arg as int,
        b.info.item_id as int,
        b.info.arg as int,
        0x100,
    );
}

/// Locations with the same key are the same location.
pub proof fn lemma_loc_key_injective(a: LocationId, b: LocationId)
    requires
        a.key() == b.key(),
    ensures
        a == b,
{
    lemma_last_digit(
        a.area * 0x100 + a.room,
        a.index as int,
        b.area * 0x100 + b.room,
        b.index as int,
        0x100,
    );
    lemma_last_digit(a.area as int, a.room as int, b.area as int, b.room as int, 0x100);
}

/// The first item id of the medallions, which are not placed.
pub const MEDALLION_ID: u8 = 0x12;

/// The id of the crystal balls, which stay in their area.
pub const CRYSTAL_BALL_ID: u8 = 0x10;

/// The id of the crypt keys, which stay in their area.
pub const CRYPT_KEY_ID: u8 = 0x11;

/// Whether a chest holds an item that the engine places.
pub open spec fn placeable(c: Chest) -> bool {
    c.area < 0x10 && c.info.item_id < MEDALLION_ID
}

/// The item that a chest holds: crystal balls and crypt keys are locked to
/// the area of their chest.
pub open spec fn item_of(c: Chest) -> Item {
    Item {
        info: c.info,
        area_lock: if c.info.item_id == CRYSTAL_BALL_ID || c.info.item_id == CRYPT_KEY_ID {
            Some(c.area)
        } else {
            None
        },
    }
}

/// Which gate placing an item clears, if any.
pub open spec fn spec_gate_for_item(item: Item) -> Option<Gate> {
    if item.info.item_id == 0x02 {
        Some(Gate::FireWand)
    } else if item.info.item_id == 0x03 {
        Some(Gate::Bell)
    } else if item.info.item_id == 0x0b {
        Some(Gate::FalconShoes)
    } else if item.info.item_id == 0x0c {
        Some(Gate::RainbowDrop)
    } else {
        None
    }
}

/// Whether the checks stand in the strict order of their locations.
pub open spec fn checks_sorted(checks: Seq<CheckModel>) -> bool {
    forall|i: int, j: int|
        0 <= i < j < checks.len() ==> checks[i].loc().key() < checks[j].loc().key()
}

/// Whether the items stand in the strict order of their keys.
pub open spec fn items_sorted(items: Seq<Item>) -> bool {
    forall|i: int, j: int| 0 <= i < j < items.len() ==> items[i].key() < items[j].key()
}

/// Whether no two checks of a list share a location.
pub open spec fn distinct_locations(checks: Seq<CheckModel>) -> bool {
    forall|i: int, j: int|
        0 <= i < j < checks.len() ==> (#[trigger] checks[i]).loc() != (#[trigger] checks[j]).loc()
}

/// The views of a list of checks.
pub open spec fn check_models(checks: Seq<Check>) -> Seq<CheckModel> {
    checks.map_values(|c: Check| c@)
}

/// Whether every gate of a check is cleared.
pub open spec fn is_open(check: CheckModel, cleared: Set<Gate>) -> bool {
    forall|g: int| 0 <= g < check.gates.len() ==> cleared.contains(#[trigger] check.gates[g])
}

/// The checks of a list whose gates are all cleared, in order.
pub open spec fn open_checks(checks: Seq<Check>, cleared: Set<Gate>) -> Seq<Check> {
    checks.filter(|c: Check| is_open(c@, cleared))
}

/// The open checks of a list that grew by one check.
pub proof fn lemma_open_checks_push(checks: Seq<Check>, c: Check, cleared: Set<Gate>)
    ensures
        open_checks(checks.push(c), cleared) == if is_open(c@, cleared) {
            open_checks(checks, cleared).push(c)
        } else {
            open_checks(checks, cleared)
        },
{
    checks.lemma_filter_push(c, |c: Check| is_open(c@, cleared));
}

/// The checks of a list that lie in `area`, in order.
pub open spec fn among_area(checks: Seq<CheckModel>, area: u8) -> Seq<CheckModel> {
    checks.filter(|c: CheckModel| c.area == area)
}

/// The checks of a list whose gates are all cleared, in order.
pub open spec fn open_among(checks: Seq<CheckModel>, cleared: Set<Gate>) -> Seq<CheckModel> {
    checks.filter(|c: CheckModel| is_open(c, cleared))
}

/// The views of the open checks of a list are the open ones among the
/// views of the list.
pub proof fn lemma_open_models(checks: Seq<Check>, cleared: Set<Gate>)
    ensures
        check_models(open_checks(checks, cleared)) == open_among(check_models(checks), cleared),
    decreases checks.len(),
{
    if checks.len() == 0 {
        assert(open_checks(checks, cleared) =~= Seq::<Check>::empty());
        assert(check_models(checks) =~= Seq::<CheckModel>::empty());
        assert(open_among(check_models(checks), cleared) =~= Seq::<CheckModel>::empty());
        assert(check_models(open_checks(checks, cleared)) =~= Seq::<CheckModel>::empty());
    } else {
        let front = checks.drop_last();
        let last = checks.last();
        lemma_open_models(front, cleared);
        assert(checks =~= front.push(last));
        lemma_open_checks_push(front, last, cleared);
        assert(check_models(checks) =~= check_models(front).push(last@));
        check_models(front).lemma_filter_push(last@, |c: CheckModel| is_open(c, cleared));
        if is_open(last@, cleared) {
            assert(check_models(open_checks(front, cleared).push(last)) =~= check_models(
                open_checks(front, cleared),
            ).push(last@));
        }
    }
}

/// Whether a check waits at `loc`.
pub open spec fn has_check(checks: Seq<CheckModel>, loc: LocationId) -> bool {
    exists|i: int| 0 <= i < checks.len() && (#[trigger] checks[i]).loc() == loc
}

/// The position of the check that waits at `loc`.
pub open spec fn check_index(checks: Seq<CheckModel>, loc: LocationId) -> int {
    choose|i: int| 0 <= i < checks.len() && (#[trigger] checks[i]).loc() == loc
}

/// The mathematical content of a [`State`].
pub struct StateModel {
    /// The checks that wait for an item, in the order of their locations.
    pub checks: Seq<CheckModel>,
    /// The items that wait for a check, in the order of their keys.
    pub items: Seq<Item>,
    /// The gates cleared so far.
    pub gates: Set<Gate>,
    /// The chests decided so far, in the order of the placements.
    pub assigned: Seq<Chest>,
    /// The game that the chests will be written to.
    pub game: GameModel,
}

impl StateModel {
    /// Whether the pools are in order and the game is whole.
    pub open spec fn wf(self) -> bool {
        &&& checks_sorted(self.checks)
        &&& items_sorted(self.items)
        &&& self.game.wf()
    }

    /// Whether as many checks wait as items.
    pub open spec fn balanced(self) -> bool {
        self.checks.len() == self.items.len()
    }

    /// Whether this is the state that a placement on `game` with the checks
    /// of `catalog` starts from: the items of the placeable chests of the
    /// game wait, one for each distinct content, and the checks of the
    /// catalog.
    pub open spec fn initial(self, game: GameModel, catalog: Seq<CheckModel>) -> bool {
        &&& self.wf()
        &&& self.game == game
        &&& self.gates == Set::<Gate>::empty()
        &&& self.assigned == Seq::<Chest>::empty()
        &&& self.checks.to_multiset() == catalog.to_multiset()
        &&& self.items.to_set() == items_of(
            game_chests(game.areas, AREA_COUNT as nat).filter(|c: Chest| placeable(c)),
        )
    }

    /// Why `item` cannot be placed at `loc`, if it cannot: its lock names
    /// another area, or no check waits at `loc`, or the item does not wait.
    pub open spec fn place_error(self, item: Item, loc: LocationId) -> Option<NeutopiaError> {
        if item.area_lock is Some && item.area_lock->Some_0 != loc.area {
            Some(NeutopiaError::AreaLockViolation)
        } else if !has_check(self.checks, loc) {
            Some(NeutopiaError::UnknownLocation)
        } else if !self.items.contains(item) {
            Some(NeutopiaError::UnknownItem)
        } else {
            None
        }
    }

    /// The state after `item` was placed at `loc`: the check and the item
    /// have left their pools, what the item clears is cleared, and the
    /// chest is recorded.
    pub open spec fn placed(self, item: Item, loc: LocationId) -> StateModel {
        let check = check_at(self.checks, loc);
        StateModel {
            checks: self.checks.remove(check_index(self.checks, loc)),
            items: self.items.remove(self.items.index_of(item)),
            gates: match spec_gate_for_item(item) {
                Some(g) => self.gates.insert(g),
                None => self.gates,
            },
            assigned: self.assigned.push(
                Chest { info: item.info, area: check.area, room: check.room, index: check.index },
            ),
            game: self.game,
        }
    }
}

/// One placement: an item and the location that it went to.
pub struct Step {
    pub item: Item,
    pub loc: LocationId,
}

/// The check that waits at `loc`.
pub open spec fn check_at(checks: Seq<CheckModel>, loc: LocationId) -> CheckModel {
    checks[check_index(checks, loc)]
}

/// The state after the first `k` of `steps` were made in order, or `None`
/// where one of them fails.
pub open spec fn run(s: StateModel, steps: Seq<Step>, k: nat) -> Option<StateModel>
    decreases k,
{
    if k == 0 {
        Some(s)
    } else {
        match run(s, steps, (k - 1) as nat) {
            None => None,
            Some(m) => {
                let step = steps[k - 1];
                if m.place_error(step.item, step.loc) is Some {
                    None
                } else {
                    Some(m.placed(step.item, step.loc))
                }
            },
        }
    }
}

/// What was placed no longer waits: after a placement, the item is not
/// among the items and no check waits at the location, so that placing the
/// item again fails, with `UnknownItem` where a check waits at the new
/// location and the lock of the item allows it.
pub proof fn lemma_placed_once(s: StateModel, item: Item, loc: LocationId, next: LocationId)
    requires
        s.wf(),
        s.place_error(item, loc) is None,
    ensures
        !s.placed(item, loc).items.contains(item),
        !has_check(s.placed(item, loc).checks, loc),
        s.placed(item, loc).place_error(item, next) is Some,
        s.placed(item, loc).place_error(item, next) != Some(NeutopiaError::UnknownItem) ==> (
        item.area_lock is Some && item.area_lock->Some_0 != next.area) || !has_check(
            s.placed(item, loc).checks,
            next,
        ),
{
    let after = s.placed(item, loc);
    let i = s.items.index_of(item);
    assert(s.items.contains(item));
    assert(s.items[i] == item);
    if after.items.contains(item) {
        let j = choose|j: int| 0 <= j < after.items.len() && after.items[j] == item;
        let j0 = if j < i {
            j
        } else {
            j + 1
        };
        assert(s.items[j0] == item);
        if j0 < i {
            assert(s.items[j0].key() < s.items[i].key());
        } else {
            assert(s.items[i].key() < s.items[j0].key());
        }
    }
    let c = check_index(s.checks, loc);
    assert(has_check(s.checks, loc));
    assert(s.checks[c].loc() == loc);
    if has_check(after.checks, loc) {
        let j = choose|j: int|
            0 <= j < after.checks.len() && (#[trigger] after.checks[j]).loc() == loc;
        let j0 = if j < c {
            j
        } else {
            j + 1
        };
        assert(s.checks[j0] == after.checks[j]);
        if j0 < c {
            assert(s.checks[j0].loc().key() < s.checks[c].loc().key());
        } else {
            assert(s.checks[c].loc().key() < s.checks[j0].loc().key());
        }
    }
}

/// Throughout a run of placements, the pools stay in order and as many
/// checks wait as items.
pub proof fn lemma_run_balanced(s: StateModel, steps: Seq<Step>, k: nat)
    requires
        s.wf(),
        s.balanced(),
        run(s, steps, k) is Some,
    ensures
        run(s, steps, k)->Some_0.wf(),
        run(s, steps, k)->Some_0.balanced(),
        run(s, steps, k)->Some_0.checks.len() == s.checks.len() - k,
    decreases k,
{
    if k > 0 {
        lemma_run_balanced(s, steps, (k - 1) as nat);
        let m = run(s, steps, (k - 1) as nat)->Some_0;
        let step = steps[k - 1];
        assert(m.place_error(step.item, step.loc) is None);
        assert(has_check(m.checks, step.loc));
        assert(m.items.contains(step.item));
        lemma_checks_sorted_remove(m.checks, check_index(m.checks, step.loc));
        lemma_items_sorted_remove(m.items, m.items.index_of(step.item));
    }
}

/// The items of a list that have the id `id`, in order.
pub open spec fn with_id(items: Seq<Item>, id: u8) -> Seq<Item> {
    items.filter(|it: Item| it.info.item_id == id)
}

/// Whether an item is locked only if it is a crystal ball or a crypt key.
pub open spec fn lock_rule(item: Item) -> bool {
    item.area_lock is Some ==> item.info.item_id == CRYSTAL_BALL_ID || item.info.item_id
        == CRYPT_KEY_ID
}

/// Whether every item of a list keeps the rule of the locks.
pub open spec fn locks_ok(items: Seq<Item>) -> bool {
    forall|i: int| 0 <= i < items.len() ==> lock_rule(#[trigger] items[i])
}

/// Whether the list stands in the strict order of the keys that `key`
/// gives.
pub open spec fn strictly_sorted<T>(s: Seq<T>, key: spec_fn(T) -> int) -> bool {
    forall|i: int, j: int| 0 <= i < j < s.len() ==> key(s[i]) < key(s[j])
}

/// Two lists in strict order that hold the same things are the same list.
pub proof fn lemma_sorted_same<T>(a: Seq<T>, b: Seq<T>, key: spec_fn(T) -> int)
    requires
        strictly_sorted(a, key),
        strictly_sorted(b, key),
        forall|x: T| a.contains(x) <==> b.contains(x),
    ensures
        a == b,
    decreases a.len(),
{
    if a.len() == 0 {
        if b.len() > 0 {
            assert(b.contains(b[0]));
        }
        assert(a =~= b);
    } else {
        let la = a.last();
        assert(a.contains(la));
        assert(b.contains(la));
        let jb = choose|j: int| 0 <= j < b.len() && b[j] == la;
        let lb = b.last();
        assert(b.contains(lb));
        assert(a.contains(lb));
        let ia = choose|i: int| 0 <= i < a.len() && a[i] == lb;
        // The two last items have the same key, so they are the same item.
        if ia < a.len() - 1 {
            assert(key(a[ia]) < key(a[a.len() - 1]));
            if jb < b.len() - 1 {
                assert(key(b[jb]) < key(b[b.len() - 1]));
            }
            assert(false);
        }
        assert(la == lb);
        let a0 = a.drop_last();
        let b0 = b.drop_last();
        assert forall|x: T| a0.contains(x) <==> b0.contains(x) by {
            if a0.contains(x) {
                let i = choose|i: int| 0 <= i < a0.len() && a0[i] == x;
                assert(a[i] == x);
                assert(a.contains(x));
                let j = choose|j: int| 0 <= j < b.len() && b[j] == x;
                if j == b.len() - 1 {
                    assert(key(a[i]) < key(a[a.len() - 1]));
                }
                assert(b0[j] == x);
            }
            if b0.contains(x) {
                let j = choose|j: int| 0 <= j < b0.len() && b0[j] == x;
                assert(b[j] == x);
                assert(b.contains(x));
                let i = choose|i: int| 0 <= i < a.len() && a[i] == x;
                if i == a.len() - 1 {
                    assert(key(b[j]) < key(b[b.len() - 1]));
                }
                assert(a0[i] == x);
            }
        }
        assert(strictly_sorted(a0, key)) by {
            assert forall|i: int, j: int| 0 <= i < j < a0.len() implies key(a0[i]) < key(
                a0[j],
            ) by {
                assert(a0[i] == a[i] && a0[j] == a[j]);
            }
        }
        assert(strictly_sorted(b0, key)) by {
            assert forall|i: int, j: int| 0 <= i < j < b0.len() implies key(b0[i]) < key(
                b0[j],
            ) by {
                assert(b0[i] == b[i] && b0[j] == b[j]);
            }
        }
        lemma_sorted_same(a0, b0, key);
        assert(a =~= a0.push(la));
        assert(b =~= b0.push(lb));
    }
}

/// A game and a catalog have one initial state.
pub proof fn lemma_initial_unique(
    a: StateModel,
    b: StateModel,
    game: GameModel,
    catalog: Seq<CheckModel>,
)
    requires
        a.initial(game, catalog),
        b.initial(game, catalog),
    ensures
        a == b,
{
    let item_key = |it: Item| it.key();
    assert(strictly_sorted(a.items, item_key));
    assert(strictly_sorted(b.items, item_key));
    assert forall|x: Item| a.items.contains(x) <==> b.items.contains(x) by {
        assert(a.items.to_set().contains(x) == b.items.to_set().contains(x));
    }
    lemma_sorted_same(a.items, b.items, item_key);
    let check_key = |c: CheckModel| c.loc().key();
    assert(strictly_sorted(a.checks, check_key));
    assert(strictly_sorted(b.checks, check_key));
    assert forall|x: CheckModel| a.checks.contains(x) <==> b.checks.contains(x) by {
        vstd::seq_lib::to_multiset_contains(a.checks, x);
        vstd::seq_lib::to_multiset_contains(b.checks, x);
    }
    lemma_sorted_same(a.checks, b.checks, check_key);
}

/// The items of an initial state keep the rule of the locks.
pub proof fn lemma_initial_locks(s: StateModel, game: GameModel, catalog: Seq<CheckModel>)
    requires
        s.initial(game, catalog),
    ensures
        locks_ok(s.items),
{
    assert forall|i: int| 0 <= i < s.items.len() implies lock_rule(#[trigger] s.items[i]) by {
        assert(s.items.contains(s.items[i]));
        assert(s.items.to_set().contains(s.items[i]));
    }
}

/// Placing at one location leaves the checks at the other locations.
pub proof fn lemma_other_check_stays(s: StateModel, item: Item, loc: LocationId, other: LocationId)
    requires
        s.place_error(item, loc) is None,
        other != loc,
    ensures
        has_check(s.placed(item, loc).checks, other) <==> has_check(s.checks, other),
{
    let c = check_index(s.checks, loc);
    let after = s.placed(item, loc).checks;
    if has_check(s.checks, other) {
        let j = choose|j: int| 0 <= j < s.checks.len() && (#[trigger] s.checks[j]).loc() == other;
        let j1 = if j < c {
            j
        } else {
            j - 1
        };
        assert(after[j1] == s.checks[j]);
    }
    if has_check(after, other) {
        let j = choose|j: int| 0 <= j < after.len() && (#[trigger] after[j]).loc() == other;
        let j0 = if j < c {
            j
        } else {
            j + 1
        };
        assert(s.checks[j0] == after[j]);
    }
}

/// Placing one item leaves the other items waiting.
pub proof fn lemma_other_item_stays(s: StateModel, item: Item, loc: LocationId, other: Item)
    requires
        s.place_error(item, loc) is None,
        other != item,
        s.items.contains(other),
    ensures
        s.placed(item, loc).items.contains(other),
{
    let i = s.items.index_of(item);
    let after = s.placed(item, loc).items;
    let j = choose|j: int| 0 <= j < s.items.len() && s.items[j] == other;
    assert(s.items[i] == item);
    let j1 = if j < i {
        j
    } else {
        j - 1
    };
    assert(after[j1] == other);
}

/// The placement engine.
pub struct State {
    unassigned_checks: Vec<Check>,
    unplaced_items: Vec<Item>,
    cleared_gates: Vec<Gate>,
    assigned_chests: Vec<Chest>,
    n: Neutopia,
}

impl View for State {
    type V = StateModel;

    closed spec fn view(&self) -> StateModel {
        StateModel {
            checks: check_models(self.unassigned_checks@),
            items: self.unplaced_items@,
            gates: self.cleared_gates@.to_set(),
            assigned: self.assigned_chests@,
            game: self.n@,
        }
    }
}

fn same_item(a: &Item, b: &Item) -> (r: bool)
    ensures
        r == (*a == *b),
{
    let same_lock = match (a.area_lock, b.area_lock) {
        (None, None) => true,
        (Some(x), Some(y)) => x == y,
        _ => false,
    };
    a.info.item_id == b.info.item_id && a.info.arg == b.info.arg && a.info.text == b.info.text
        && a.info.unknown == b.info.unknown && same_lock
}

fn same_gate(a: Gate, b: Gate) -> (r: bool)
    ensures
        r == (a == b),
{
    match (a, b) {
        (Gate::RainbowDrop, Gate::RainbowDrop) => true,
        (Gate::FalconShoes, Gate::FalconShoes) => true,
        (Gate::FireWand, Gate::FireWand) => true,
        (Gate::Bell, Gate::Bell) => true,
        _ => false,
    }
}

fn has_gate(gates: &Vec<Gate>, g: Gate) -> (r: bool)
    ensures
        r == gates@.to_set().contains(g),
{
    let mut i: usize = 0;
    while i < gates.len()
        invariant
            i <= gates@.len(),
            forall|j: int| 0 <= j < i ==> gates@[j] != g,
        decreases gates@.len() - i,
    {
        if same_gate(gates[i], g) {
            assert(gates@.contains(g));
            return true;
        }
        i = i + 1;
    }
    assert(!gates@.contains(g));
    false
}

fn check_is_open(check: &Check, cleared: &Vec<Gate>) -> (r: bool)
    ensures
        r == is_open(check@, cleared@.to_set()),
{
    let mut g: usize = 0;
    while g < check.gates.len()
        invariant
            g <= check.gates@.len(),
            forall|k: int| 0 <= k < g ==> cleared@.to_set().contains(#[trigger] check.gates@[k]),
        decreases check.gates@.len() - g,
    {
        if !has_gate(cleared, check.gates[g]) {
            assert(!cleared@.to_set().contains(check@.gates[g as int]));
            return false;
        }
        g = g + 1;
    }
    true
}

/// Sorts a catalog by location.
///
/// Fails with `DuplicateLocation` where two checks share a location.
pub fn get_checks(catalog: Vec<Check>) -> (r: Result<Vec<Check>, NeutopiaError>)
    ensures
        match r {
            Ok(checks) => {
                &&& checks_sorted(check_models(checks@))
                &&& check_models(checks@).to_multiset() == check_models(catalog@).to_multiset()
                &&& distinct_locations(check_models(catalog@))
            },
            Err(e) => e == NeutopiaError::DuplicateLocation && !distinct_locations(
                check_models(catalog@),
            ),
        },
{
    let mut checks: Vec<Check> = Vec::new();
    let mut k: usize = 0;
    assert(check_models(catalog@.subrange(0, 0)) =~= check_models(checks@));
    while k < catalog.len()
        invariant
            k <= catalog@.len(),
            checks_sorted(check_models(checks@)),
            check_models(checks@).to_multiset() == check_models(
                catalog@.subrange(0, k as int),
            ).to_multiset(),
            distinct_locations(check_models(catalog@.subrange(0, k as int))),
        decreases catalog@.len() - k,
    {
        let check = catalog[k].copy();
        let loc = check.loc();
        let mut p: usize = 0;
        while p < checks.len() && loc_before(&checks[p], &loc)
            invariant
                p <= checks@.len(),
                forall|j: int| 0 <= j < p ==> (#[trigger] checks@[j])@.loc().key() < loc.key(),
            decreases checks@.len() - p,
        {
            p = p + 1;
        }
        let ghost done = check_models(catalog@.subrange(0, k as int));
        if p < checks.len() && loc_same(&checks[p], &loc) {
            proof {
                let twin = checks@[p as int]@;
                assert(check_models(checks@)[p as int] == twin);
                assert(check_models(checks@).to_multiset().count(twin) > 0) by {
                    vstd::seq_lib::to_multiset_contains(check_models(checks@), twin);
                    assert(check_models(checks@).contains(twin));
                }
                vstd::seq_lib::to_multiset_contains(done, twin);
                assert(done.contains(twin));
                let i = choose|i: int| 0 <= i < done.len() && done[i] == twin;
                assert(catalog@[i]@ == twin);
                assert(catalog@[k as int]@.loc() == loc);
                assert(check_models(catalog@)[i].loc() == check_models(catalog@)[k as int].loc());
            }
            return Err(NeutopiaError::DuplicateLocation);
        }
        proof {
            let next = check_models(catalog@.subrange(0, k + 1));
            assert(next =~= done.push(check@));
            assert forall|i: int, j: int| 0 <= i < j < next.len() implies (#[trigger] next[i]).loc()
                != (#[trigger] next[j]).loc() by {
                if j == k && next[i].loc() == loc {
                    let twin = done[i];
                    assert(done.contains(twin));
                    vstd::seq_lib::to_multiset_contains(done, twin);
                    vstd::seq_lib::to_multiset_contains(check_models(checks@), twin);
                    let q = choose|q: int|
                        0 <= q < check_models(checks@).len() && check_models(checks@)[q] == twin;
                    assert(checks@[q]@ == twin);
                    if q < p {
                        assert(checks@[q]@.loc().key() < loc.key());
                    } else if q > p {
                        assert(check_models(checks@)[p as int].loc().key() < check_models(
                            checks@,
                        )[q].loc().key());
                        assert(check_models(checks@)[p as int] == checks@[p as int]@);
                    } else {
                        assert(checks@[p as int]@.loc() == loc);
                    }
                } else if j < k {
                    assert(next[i] == done[i] && next[j] == done[j]);
                }
            }
        }
        proof {
            let before = check_models(checks@);
            let after = before.insert(p as int, check@);
            assert(check_models(checks@.insert(p as int, check)) =~= after);
            vstd::seq_lib::to_multiset_insert(before, p as int, check@);
            let next = check_models(catalog@.subrange(0, k + 1));
            assert(next =~= done.push(check@));
            vstd::seq_lib::to_multiset_build(done, check@);
            assert forall|a: int, b: int| 0 <= a < b < after.len() implies after[a].loc().key()
                < after[b].loc().key() by {
                if b < p {
                    assert(after[a] == before[a] && after[b] == before[b]);
                } else if b == p {
                    assert(after[a] == before[a]);
                    assert(before[a] == checks@[a]@);
                } else if a < p {
                    assert(after[a] == before[a] && after[b] == before[b - 1]);
                    assert(before[a] == checks@[a]@);
                    assert(before[p as int] == checks@[p as int]@);
                    lemma_loc_key_order(checks@[p as int]@.loc(), loc);
                } else if a == p {
                    assert(after[b] == before[b - 1]);
                    assert(before[p as int] == checks@[p as int]@);
                    lemma_loc_key_order(checks@[p as int]@.loc(), loc);
                } else {
                    assert(after[a] == before[a - 1] && after[b] == before[b - 1]);
                }
            }
        }
        checks.insert(p, check);
        k = k + 1;
    }
    assert(catalog@.subrange(0, k as int) =~= catalog@);
    Ok(checks)
}

/// Two locations have the same key just when they are the same.
pub proof fn lemma_loc_key_order(a: LocationId, b: LocationId)
    ensures
        a.key() == b.key() <==> a == b,
{
    if a.key() == b.key() {
        lemma_loc_key_injective(a, b);
    }
}

fn loc_before(check: &Check, loc: &LocationId) -> (r: bool)
    ensures
        r == (check@.loc().key() < loc.key()),
{
    check.area < loc.area || (check.area == loc.area && (check.room < loc.room || (check.room
        == loc.room && check.index < loc.index)))
}

fn loc_same(check: &Check, loc: &LocationId) -> (r: bool)
    ensures
        r == (check@.loc() == *loc),
{
    check.area == loc.area && check.room == loc.room && check.index == loc.index
}

/// The items that the placeable chests of a list hold.
pub open spec fn items_of(chests: Seq<Chest>) -> Set<Item> {
    Set::new(|it: Item| exists|j: int| 0 <= j < chests.len() && it == item_of(#[trigger] chests[j]))
}

/// Whether a gate is cleared when an item with id `item_id` is placed.
fn gate_of(item_id: u8) -> (r: Option<Gate>)
    ensures
        forall|item: Item| item.info.item_id == item_id ==> r == spec_gate_for_item(item),
{
    if item_id == 0x02 {
        Some(Gate::FireWand)
    } else if item_id == 0x03 {
        Some(Gate::Bell)
    } else if item_id == 0x0b {
        Some(Gate::FalconShoes)
    } else if item_id == 0x0c {
        Some(Gate::RainbowDrop)
    } else {
        None
    }
}

/// Removing an item from a strictly ordered list keeps it ordered.
pub proof fn lemma_items_sorted_remove(items: Seq<Item>, i: int)
    requires
        items_sorted(items),
        0 <= i < items.len(),
    ensures
        items_sorted(items.remove(i)),
{
    let after = items.remove(i);
    assert forall|a: int, b: int| 0 <= a < b < after.len() implies after[a].key() < after[
        b
    ].key() by {
        let a0 = if a < i {
            a
        } else {
            a + 1
        };
        let b0 = if b < i {
            b
        } else {
            b + 1
        };
        assert(after[a] == items[a0] && after[b] == items[b0]);
    }
}

/// Removing a check from a strictly ordered list keeps it ordered.
pub proof fn lemma_checks_sorted_remove(checks: Seq<CheckModel>, i: int)
    requires
        checks_sorted(checks),
        0 <= i < checks.len(),
    ensures
        checks_sorted(checks.remove(i)),
{
    let after = checks.remove(i);
    assert forall|a: int, b: int| 0 <= a < b < after.len() implies after[a].loc().key()
        < after[b].loc().key() by {
        let a0 = if a < i {
            a
        } else {
            a + 1
        };
        let b0 = if b < i {
            b
        } else {
            b + 1
        };
        assert(after[a] == checks[a0] && after[b] == checks[b0]);
    }
}

/// In a strictly ordered list of checks, at most one waits at a location.
pub proof fn lemma_check_index(checks: Seq<CheckModel>, loc: LocationId, i: int)
    requires
        checks_sorted(checks),
        0 <= i < checks.len(),
        checks[i].loc() == loc,
    ensures
        has_check(checks, loc),
        check_index(checks, loc) == i,
{
    let c = check_index(checks, loc);
    if c < i {
        assert(checks[c].loc().key() < checks[i].loc().key());
    } else if i < c {
        assert(checks[i].loc().key() < checks[c].loc().key());
    }
}

/// In a strictly ordered list of items, an item stands at one place only.
pub proof fn lemma_item_index(items: Seq<Item>, item: Item, i: int)
    requires
        items_sorted(items),
        0 <= i < items.len(),
        items[i] == item,
    ensures
        items.contains(item),
        items.index_of(item) == i,
{
    let c = items.index_of(item);
    assert(items.contains(item));
    if c < i {
        assert(items[c].key() < items[i].key());
    } else if i < c {
        assert(items[i].key() < items[c].key());
    }
}

impl State {
    /// The checks that wait, as they are held.
    pub closed spec fn pending(&self) -> Seq<Check> {
        self.unassigned_checks@
    }

    /// The views of the checks held are the checks of the view.
    pub proof fn lemma_pending(&self)
        ensures
            check_models(self.pending()) == self@.checks,
    {
    }

    /// Starts a placement on a game with a catalog of checks.
    ///
    /// Every chest of the game outside the end game area that holds no
    /// medallion gives an item; equal contents give one item. The checks
    /// are those of the catalog.
    ///
    /// Fails with `DuplicateLocation` where two checks of the catalog share
    /// a location.
    pub fn new(n: Neutopia, catalog: Vec<Check>) -> (r: Result<State, NeutopiaError>)
        requires
            n@.wf(),
        ensures
            match r {
                Ok(state) => state@.initial(n@, check_models(catalog@)) && distinct_locations(
                    check_models(catalog@),
                ),
                Err(e) => e == NeutopiaError::DuplicateLocation && !distinct_locations(
                    check_models(catalog@),
                ),
            },
    {
        let pick = |chest: &Chest| -> (keep: bool)
            ensures
                keep == placeable(*chest),
            { chest.area < 0x10 && chest.info.item_id < MEDALLION_ID };
        let chests = n.filter_chests(pick);
        let ghost all = game_chests(n@.areas, AREA_COUNT as nat);
        proof {
            let keep = choose|keep: Seq<bool>| #[trigger]
                marks(pick, all, keep) && chests@ == masked(all, keep);
            lemma_masked_is_filter(all, keep, |c: Chest| placeable(c));
        }
        let mut items: Vec<Item> = Vec::new();
        let mut k: usize = 0;
        while k < chests.len()
            invariant
                k <= chests@.len(),
                items_sorted(items@),
                items@.to_set() == items_of(chests@.subrange(0, k as int)),
            decreases chests@.len() - k,
        {
            let chest = chests[k];
            let area_lock = if chest.info.item_id == CRYSTAL_BALL_ID || chest.info.item_id
                == CRYPT_KEY_ID {
                Some(chest.area)
            } else {
                None
            };
            let item = Item { info: chest.info, area_lock };
            let key = item.exec_key();
            let mut p: usize = 0;
            while p < items.len() && items[p].exec_key() < key
                invariant
                    p <= items@.len(),
                    key == item.key(),
                    forall|j: int| 0 <= j < p ==> (#[trigger] items@[j]).key() < key,
                decreases items@.len() - p,
            {
                p = p + 1;
            }
            let ghost done = chests@.subrange(0, k as int);
            let ghost next = chests@.subrange(0, k + 1);
            assert(next =~= done.push(chest));
            let present = p < items.len() && items[p].exec_key() == key;
            if present {
                proof {
                    lemma_item_key_injective(items@[p as int], item);
                    assert(items@.contains(item));
                    assert(items_of(next) =~= items_of(done)) by {
                        assert forall|it: Item| items_of(next).contains(it) implies items_of(
                            done,
                        ).contains(it) by {
                            let j = choose|j: int|
                                0 <= j < next.len() && it == item_of(#[trigger] next[j]);
                            if j == k {
                                assert(items@.to_set().contains(item));
                            } else {
                                assert(next[j] == done[j]);
                            }
                        }
                        assert forall|it: Item| items_of(done).contains(it) implies items_of(
                            next,
                        ).contains(it) by {
                            let j = choose|j: int|
                                0 <= j < done.len() && it == item_of(#[trigger] done[j]);
                            assert(next[j] == done[j]);
                        }
                    }
                }
            } else {
                proof {
                    let before = items@;
                    let after = before.insert(p as int, item);
                    assert forall|a: int, b: int| 0 <= a < b < after.len() implies after[a].key()
                        < after[b].key() by {
                        if b < p {
                            assert(after[a] == before[a] && after[b] == before[b]);
                        } else if b == p {
                            assert(after[a] == before[a]);
                        } else if a < p {
                            assert(after[a] == before[a] && after[b] == before[b - 1]);
                        } else if a == p {
                            assert(after[b] == before[b - 1]);
                        } else {
                            assert(after[a] == before[a - 1] && after[b] == before[b - 1]);
                        }
                    }
                    assert(after.to_set() =~= items_of(next)) by {
                        assert forall|it: Item| after.to_set().contains(it) implies items_of(
                            next,
                        ).contains(it) by {
                            let i = choose|i: int| 0 <= i < after.len() && after[i] == it;
                            if i == p {
                                assert(it == item_of(next[k as int]));
                            } else {
                                let i0 = if i < p {
                                    i
                                } else {
                                    i - 1
                                };
                                assert(before[i0] == it);
                                assert(before.to_set().contains(it));
                                let j = choose|j: int|
                                    0 <= j < done.len() && it == item_of(#[trigger] done[j]);
                                assert(next[j] == done[j]);
                            }
                        }
                        assert forall|it: Item|
                            items_of(next).contains(it) implies after.to_set().contains(it) by {
                            let j = choose|j: int|
                                0 <= j < next.len() && it == item_of(#[trigger] next[j]);
                            if j == k {
                                assert(after[p as int] == it);
                            } else {
                                assert(next[j] == done[j]);
                                assert(items_of(done).contains(it));
                                assert(before.to_set().contains(it));
                                let i = choose|i: int| 0 <= i < before.len() && before[i] == it;
                                let i1 = if i < p {
                                    i
                                } else {
                                    i + 1
                                };
                                assert(after[i1] == it);
                            }
                        }
                    }
                }
                items.insert(p, item);
            }
            k = k + 1;
        }
        assert(chests@.subrange(0, k as int) =~= chests@);
        let checks = match get_checks(catalog) {
            Ok(checks) => checks,
            Err(e) => {
                return Err(e);
            },
        };
        let state = State {
            unassigned_checks: checks,
            unplaced_items: items,
            cleared_gates: Vec::new(),
            assigned_chests: Vec::new(),
            n,
        };
        assert(state@.gates =~= Set::<Gate>::empty());
        Ok(state)
    }

    /// Whether as many checks wait as items.
    pub fn is_balanced(&self) -> (r: bool)
        ensures
            r == self@.balanced(),
    {
        self.unassigned_checks.len() == self.unplaced_items.len()
    }

    /// Whether every item has been placed.
    pub fn is_complete(&self) -> (r: bool)
        requires
            self@.balanced(),
        ensures
            r == (self@.checks.len() == 0),
            r == (self@.items.len() == 0),
    {
        self.unassigned_checks.len() == 0
    }

    /// Which gate placing `item` clears, if any.
    pub fn gate_for_item(item: &Item) -> (r: Option<Gate>)
        ensures
            r == spec_gate_for_item(*item),
    {
        gate_of(item.info.item_id)
    }

    /// Places `item` at the check of the given area, room and index.
    pub fn place_item(&mut self, item: Item, area: u8, room: u8, index: u8) -> (r: Result<
        (),
        NeutopiaError,
    >)
        requires
            old(self)@.wf(),
            old(self)@.balanced(),
        ensures
            final(self)@.wf(),
            final(self)@.balanced(),
            match r {
                Ok(()) => old(self)@.place_error(item, LocationId { area, room, index }) is None
                    && final(self)@ == old(self)@.placed(item, LocationId { area, room, index }),
                Err(e) => old(self)@.place_error(item, LocationId { area, room, index }) == Some(e)
                    && final(self)@ == old(self)@,
            },
    {
        self.place_item_by_loc(item, &LocationId { area, room, index })
    }

    /// Places `item` at the check that waits at `loc`.
    ///
    /// Fails with `AreaLockViolation` where the item is locked to another
    /// area than that of `loc`, else with `UnknownLocation` where no check
    /// waits at `loc`, else with `UnknownItem` where the item does not
    /// wait. A failed placement changes nothing. A placement leaves as many
    /// checks as items.
    pub fn place_item_by_loc(&mut self, item: Item, loc: &LocationId) -> (r: Result<
        (),
        NeutopiaError,
    >)
        requires
            old(self)@.wf(),
            old(self)@.balanced(),
        ensures
            final(self)@.wf(),
            final(self)@.balanced(),
            match r {
                Ok(()) => old(self)@.place_error(item, *loc) is None && final(self)@
                    == old(self)@.placed(item, *loc),
                Err(e) => old(self)@.place_error(item, *loc) == Some(e) && final(self)@
                    == old(self)@,
            },
    {
        if let Some(area) = item.area_lock {
            if area != loc.area {
                return Err(NeutopiaError::AreaLockViolation);
            }
        }
        let ci: usize = match self.find_check(loc) {
            Some(ci) => ci,
            None => {
                return Err(NeutopiaError::UnknownLocation);
            },
        };
        let ii: usize = match self.find_item(&item) {
            Some(ii) => ii,
            None => {
                return Err(NeutopiaError::UnknownItem);
            },
        };
        proof {
            lemma_check_index(old(self)@.checks, *loc, ci as int);
            lemma_item_index(old(self)@.items, item, ii as int);
            lemma_checks_sorted_remove(old(self)@.checks, ci as int);
            lemma_items_sorted_remove(old(self)@.items, ii as int);
        }
        let check = self.unassigned_checks.remove(ci);
        self.unplaced_items.remove(ii);
        let ghost gates_before = self.cleared_gates@;
        if let Some(gate) = Self::gate_for_item(&item) {
            if !has_gate(&self.cleared_gates, gate) {
                self.cleared_gates.push(gate);
            }
            assert(self.cleared_gates@.to_set() =~= gates_before.to_set().insert(gate)) by {
                assert forall|g: Gate|
                    self.cleared_gates@.to_set().contains(g) implies gates_before.to_set().insert(
                    gate,
                ).contains(g) by {
                    let i = choose|i: int|
                        0 <= i < self.cleared_gates@.len() && self.cleared_gates@[i] == g;
                    if i < gates_before.len() {
                        assert(gates_before[i] == g);
                    }
                }
                assert forall|g: Gate| gates_before.to_set().insert(gate).contains(
                    g,
                ) implies self.cleared_gates@.to_set().contains(g) by {
                    if gates_before.contains(g) {
                        let i = choose|i: int| 0 <= i < gates_before.len() && gates_before[i] == g;
                        assert(self.cleared_gates@[i] == g);
                    } else {
                        assert(g == gate);
                        assert(self.cleared_gates@[self.cleared_gates@.len() - 1] == g);
                    }
                }
            }
        }
        let chest = Chest {
            info: item.info,
            area: check.area,
            room: check.room,
            index: check.index,
        };
        self.assigned_chests.push(chest);
        proof {
            assert(check_models(self.unassigned_checks@) =~= old(self)@.checks.remove(ci as int));
            assert(self@.assigned =~= old(self)@.placed(item, *loc).assigned);
            assert(self@.gates == old(self)@.placed(item, *loc).gates);
        }
        Ok(())
    }

    /// The waiting items that `filter` accepts, in the order of their keys.
    pub fn filter_items(&self, filter: impl Fn(&Item) -> bool) -> (items: Vec<Item>)
        requires
            forall|it: Item| call_requires(filter, (&it,)),
        ensures
            exists|keep: Seq<bool>| #[trigger]
                marks(filter, self@.items, keep) && items@ == masked(self@.items, keep),
    {
        let mut items: Vec<Item> = Vec::new();
        let ghost mut keep: Seq<bool> = Seq::empty();
        let mut i: usize = 0;
        assert(self@.items.subrange(0, 0) =~= Seq::<Item>::empty());
        while i < self.unplaced_items.len()
            invariant
                i <= self.unplaced_items@.len(),
                forall|it: Item| call_requires(filter, (&it,)),
                marks(filter, self@.items.subrange(0, i as int), keep),
                items@ == masked(self@.items.subrange(0, i as int), keep),
            decreases self.unplaced_items@.len() - i,
        {
            let item = self.unplaced_items[i];
            let kept = filter(&item);
            proof {
                let done = self@.items.subrange(0, i as int);
                assert(self@.items.subrange(0, i + 1) =~= done.push(item));
                lemma_masked_push(done, keep, item, kept);
                keep = keep.push(kept);
            }
            if kept {
                items.push(item);
            }
            i = i + 1;
        }
        assert(self@.items.subrange(0, i as int) =~= self@.items);
        items
    }

    /// The one waiting item with id `id`.
    ///
    /// Fails with `UnknownItem` where no waiting item has the id, and with
    /// `AmbiguousItem` where more than one has it.
    pub fn get_item_by_id(&self, id: u8) -> (r: Result<Item, NeutopiaError>)
        ensures
            ({
                let found = with_id(self@.items, id);
                &&& found.len() == 1 ==> r == Ok::<Item, NeutopiaError>(found[0])
                &&& found.len() == 0 ==> r == Err::<Item, NeutopiaError>(NeutopiaError::UnknownItem)
                &&& found.len() > 1 ==> r == Err::<Item, NeutopiaError>(
                    NeutopiaError::AmbiguousItem,
                )
            }),
    {
        let pick = |item: &Item| -> (keep: bool)
            ensures
                keep == (item.info.item_id == id),
            { item.info.item_id == id };
        let items = self.filter_items(pick);
        proof {
            let keep = choose|keep: Seq<bool>| #[trigger]
                marks(pick, self@.items, keep) && items@ == masked(self@.items, keep);
            lemma_masked_is_filter(
                self@.items,
                keep,
                |it: Item| it.info.item_id == id,
            );
        }
        if items.len() > 1 {
            Err(NeutopiaError::AmbiguousItem)
        } else if items.len() == 0 {
            Err(NeutopiaError::UnknownItem)
        } else {
            Ok(items[0])
        }
    }

    /// The waiting checks whose gates are all cleared and that `filter`
    /// accepts, in the order of their locations. `filter` is asked about
    /// open checks only.
    pub fn filter_checks(&self, filter: impl Fn(&Check) -> bool) -> (checks: Vec<Check>)
        requires
            forall|c: Check| call_requires(filter, (&c,)),
        ensures
            exists|keep: Seq<bool>| #[trigger]
                marks(filter, open_checks(self.pending(), self@.gates), keep) && check_models(
                    checks@,
                ) == masked(check_models(open_checks(self.pending(), self@.gates)), keep),
    {
        let mut checks: Vec<Check> = Vec::new();
        let ghost mut keep: Seq<bool> = Seq::empty();
        let ghost gates = self@.gates;
        let mut i: usize = 0;
        proof {
            assert(self.pending().subrange(0, 0) =~= Seq::<Check>::empty());
            assert(open_checks(Seq::<Check>::empty(), gates) =~= Seq::<Check>::empty());
            assert(check_models(checks@) =~= masked(
                check_models(open_checks(self.pending().subrange(0, 0), gates)),
                keep,
            ));
        }
        while i < self.unassigned_checks.len()
            invariant
                i <= self.unassigned_checks@.len(),
                gates == self@.gates,
                forall|c: Check| call_requires(filter, (&c,)),
                marks(filter, open_checks(self.pending().subrange(0, i as int), gates), keep),
                check_models(checks@) == masked(
                    check_models(open_checks(self.pending().subrange(0, i as int), gates)),
                    keep,
                ),
            decreases self.unassigned_checks@.len() - i,
        {
            let check = &self.unassigned_checks[i];
            proof {
                let done = self.pending().subrange(0, i as int);
                assert(self.pending().subrange(0, i + 1) =~= done.push(*check));
                lemma_open_checks_push(done, *check, gates);
            }
            if check_is_open(check, &self.cleared_gates) {
                let kept = filter(check);
                proof {
                    let done = open_checks(self.pending().subrange(0, i as int), gates);
                    lemma_masked_push(check_models(done), keep, check@, kept);
                    assert(check_models(done.push(*check)) =~= check_models(done).push(check@));
                    keep = keep.push(kept);
                }
                if kept {
                    let copy = check.copy();
                    assert(check_models(checks@.push(copy)) =~= check_models(checks@).push(
                        check@,
                    ));
                    checks.push(copy);
                }
            }
            i = i + 1;
        }
        assert(self.pending().subrange(0, i as int) =~= self.pending());
        checks
    }

    /// The waiting checks that `filter` accepts, whatever their gates, in
    /// the order of their locations.
    pub fn filter_checks_gateless(&self, filter: impl Fn(&Check) -> bool) -> (checks: Vec<Check>)
        requires
            forall|c: Check| call_requires(filter, (&c,)),
        ensures
            exists|keep: Seq<bool>| #[trigger]
                marks(filter, self.pending(), keep) && check_models(checks@) == masked(
                    check_models(self.pending()),
                    keep,
                ),
    {
        let mut checks: Vec<Check> = Vec::new();
        let ghost mut keep: Seq<bool> = Seq::empty();
        let mut i: usize = 0;
        assert(self.pending().subrange(0, 0) =~= Seq::<Check>::empty());
        assert(check_models(checks@) =~= masked(
            check_models(self.pending().subrange(0, 0)),
            keep,
        ));
        while i < self.unassigned_checks.len()
            invariant
                i <= self.unassigned_checks@.len(),
                forall|c: Check| call_requires(filter, (&c,)),
                marks(filter, self.pending().subrange(0, i as int), keep),
                check_models(checks@) == masked(
                    check_models(self.pending().subrange(0, i as int)),
                    keep,
                ),
            decreases self.unassigned_checks@.len() - i,
        {
            let check = &self.unassigned_checks[i];
            let kept = filter(check);
            proof {
                let done = self.pending().subrange(0, i as int);
                assert(self.pending().subrange(0, i + 1) =~= done.push(*check));
                lemma_masked_push(check_models(done), keep, check@, kept);
                assert(check_models(done.push(*check)) =~= check_models(done).push(check@));
                keep = keep.push(kept);
            }
            if kept {
                let copy = check.copy();
                assert(check_models(checks@.push(copy)) =~= check_models(checks@).push(check@));
                checks.push(copy);
            }
            i = i + 1;
        }
        assert(self.pending().subrange(0, i as int) =~= self.pending());
        checks
    }

    /// Writes the chests decided so far into the game and gives the game
    /// back.
    ///
    /// Fails with `IncoherentChest` where one of them names no chest of the
    /// game.
    pub fn finalize(self) -> (r: Result<Neutopia, NeutopiaError>)
        ensures
            match r {
                Ok(n) => {
                    &&& applied(self@.game.areas, self@.assigned, self@.assigned.len()) == Some(
                        n@.areas,
                    )
                    &&& n@.conditionals == self@.game.conditionals
                    &&& n@.rom_data == self@.game.rom_data
                    &&& n@.rom == self@.game.rom
                    &&& self@.game.wf() ==> n@.wf()
                },
                Err(e) => e == NeutopiaError::IncoherentChest && applied(
                    self@.game.areas,
                    self@.assigned,
                    self@.assigned.len(),
                ) is None,
            },
    {
        let mut state = self;
        let ghost areas = state.n@.areas;
        let ghost assigned = state.assigned_chests@;
        match state.n.update_chests(state.assigned_chests.as_slice()) {
            Ok(()) => Ok(state.n),
            Err(e) => {
                proof {
                    let k = choose|k: nat|
                        k < assigned.len() && #[trigger] applied(areas, assigned, k) == Some(
                            state.n@.areas,
                        ) && applied(areas, assigned, k + 1) is None;
                    lemma_applied_none(areas, assigned, k + 1, assigned.len());
                }
                Err(e)
            },
        }
    }

    fn find_check(&self, loc: &LocationId) -> (r: Option<usize>)
        ensures
            match r {
                Some(i) => i < self@.checks.len() && self@.checks[i as int].loc() == *loc,
                None => !has_check(self@.checks, *loc),
            },
    {
        let mut i: usize = 0;
        while i < self.unassigned_checks.len()
            invariant
                i <= self.unassigned_checks@.len(),
                forall|j: int| 0 <= j < i ==> (#[trigger] self@.checks[j]).loc() != *loc,
            decreases self.unassigned_checks@.len() - i,
        {
            if loc_same(&self.unassigned_checks[i], loc) {
                return Some(i);
            }
            i = i + 1;
        }
        None
    }

    fn find_item(&self, item: &Item) -> (r: Option<usize>)
        ensures
            match r {
                Some(i) => i < self@.items.len() && self@.items[i as int] == *item,
                None => !self@.items.contains(*item),
            },
    {
        let mut i: usize = 0;
        while i < self.unplaced_items.len()
            invariant
                i <= self.unplaced_items@.len(),
                forall|j: int| 0 <= j < i ==> self@.items[j] != *item,
            decreases self.unplaced_items@.len() - i,
        {
            if same_item(&self.unplaced_items[i], item) {
                return Some(i);
            }
            i = i + 1;
        }
        None
    }
}

/// Whether a chest stands outside the end game area and holds no medallion.
pub open spec fn listable(c: Chest) -> bool {
    c.area < 0x10 && (c.info.item_id < MEDALLION_ID || c.info.item_id >= MEDALLION_ID + 8)
}

/// The check that a chest gives: it has the place of the chest, the name
/// of its area and of its item, and no gates.
pub open spec fn check_of(c: Chest) -> CheckModel {
    CheckModel {
        name: spec_area_name(c.area) + " - "@ + item_name(c.info.item_id, c.info.arg),
        area: c.area,
        room: c.room,
        index: c.index,
        gates: Seq::empty(),
    }
}

/// Lists a check without gates for every chest of the game that stands
/// outside the end game area and holds no medallion, in the order of
/// `game_chests`.
pub fn checks_of_game(n: &Neutopia) -> (checks: Vec<Check>)
    requires
        n@.wf(),
    ensures
        check_models(checks@) == game_chests(n@.areas, AREA_COUNT as nat).filter(
            |c: Chest| listable(c),
        ).map_values(|c: Chest| check_of(c)),
{
    let pick = |chest: &Chest| -> (keep: bool)
        ensures
            keep == listable(*chest),
        {
            chest.area < 0x10 && (chest.info.item_id < MEDALLION_ID || chest.info.item_id
                >= MEDALLION_ID + 8)
        };
    let chests = n.filter_chests(pick);
    proof {
        let all = game_chests(n@.areas, AREA_COUNT as nat);
        let keep = choose|keep: Seq<bool>| #[trigger]
            marks(pick, all, keep) && chests@ == masked(all, keep);
        lemma_masked_is_filter(all, keep, |c: Chest| listable(c));
    }
    let mut checks: Vec<Check> = Vec::new();
    let mut i: usize = 0;
    while i < chests.len()
        invariant
            i <= chests@.len(),
            check_models(checks@) == chests@.subrange(0, i as int).map_values(
                |c: Chest| check_of(c),
            ),
        decreases chests@.len() - i,
    {
        let chest = chests[i];
        let mut name = String::from_str(crate::game::area_name(chest.area));
        name.append(" - ");
        let item = chest.info.get_item_name();
        name.append(item.as_str());
        let check = Check {
            name,
            area: chest.area,
            room: chest.room,
            index: chest.index,
            gates: Vec::new(),
        };
        proof {
            assert(check@ == check_of(chest));
            let done = chests@.subrange(0, i as int);
            assert(chests@.subrange(0, i + 1) =~= done.push(chest));
            assert(done.push(chest).map_values(|c: Chest| check_of(c)) =~= done.map_values(
                |c: Chest| check_of(c),
            ).push(check_of(chest)));
            assert(check_models(checks@.push(check)) =~= check_models(checks@).push(check@));
        }
        checks.push(check);
        i = i + 1;
    }
    assert(chests@.subrange(0, i as int) =~= chests@);
    checks
}

} // verus!
