//! The tagged records of a room's object table.
//!
//! Every record is one tag byte followed by a payload whose size the tag
//! fixes. The byte form of a record is the definition; parsing is its inverse.

use vstd::prelude::*;

use crate::error::FormatError;

verus! {

/// An object with its tile position.
#[derive(Clone, Copy, Debug, PartialEq, Eq)]
pub struct ObjectInfo {
    pub x: u8,
    pub y: u8,
    pub id: u8,
}

/// One record of an object table.
#[derive(Clone, Copy, Debug, PartialEq, Eq)]
pub enum TableEntry {
    Object(ObjectInfo),
    OpenDoor(u8),
    PushBlockGatedDoor(u8),
    EnemyGatedDoor(u8),
    BombableDoor(u8),
    PushBlockGatedObject(ObjectInfo),
    EnemyGatedObject(ObjectInfo),
    BellGatedObject(ObjectInfo),
    DarkRoom,
    BossDoor(u8),
    Unknown0b([u8; 3]),
    Burnable(ObjectInfo),
    HiddenRoom([u8; 3]),
    FalconBootsNeeded,
    Npc([u8; 5]),
    OuchRope(ObjectInfo),
    ArrowLauncher(ObjectInfo),
    Swords(ObjectInfo),
    GhostSpawner(ObjectInfo),
    FireballSpawner(ObjectInfo),
    ShopItem([u8; 7]),
    UnknownE1([u8; 9]),
    UnknownF4([u8; 5]),
}

/// The first object id that stands for a chest.
pub const CHEST_ID_BASE: u8 = 0x4c;

/// The number of chest slots that an object id can select.
pub const CHEST_ID_COUNT: u8 = 8;

/// The location byte of a position: `x` in the low nibble, `y` in the high.
pub open spec fn loc_byte(x: u8, y: u8) -> u8 {
    (x & 0xf) | ((y & 0xf) << 4)
}

impl ObjectInfo {
    /// Both coordinates fit in four bits.
    pub open spec fn wf(self) -> bool {
        self.x < 16 && self.y < 16
    }

    /// The two bytes of the object: location, then id.
    pub open spec fn bytes(self) -> Seq<u8> {
        seq![loc_byte(self.x, self.y), self.id]
    }

    /// Appends the two bytes of the object to `w`.
    pub fn write(&self, w: &mut Vec<u8>)
        ensures
            final(w)@ == old(w)@ + self.bytes(),
    {
        let loc: u8 = (self.x & 0xf) | ((self.y & 0xf) << 4);
        w.push(loc);
        w.push(self.id);
        assert(w@ =~= old(w)@ + self.bytes());
    }
}

impl TableEntry {
    /// Every position in the record fits in four bits per coordinate.
    pub open spec fn wf(self) -> bool {
        match self {
            TableEntry::Object(o) => o.wf(),
            TableEntry::PushBlockGatedObject(o) => o.wf(),
            TableEntry::EnemyGatedObject(o) => o.wf(),
            TableEntry::BellGatedObject(o) => o.wf(),
            TableEntry::Burnable(o) => o.wf(),
            TableEntry::OuchRope(o) => o.wf(),
            TableEntry::ArrowLauncher(o) => o.wf(),
            TableEntry::Swords(o) => o.wf(),
            TableEntry::GhostSpawner(o) => o.wf(),
            TableEntry::FireballSpawner(o) => o.wf(),
            _ => true,
        }
    }

    /// The tag byte of the record.
    pub open spec fn tag(self) -> u8 {
        match self {
            TableEntry::Object(_) => 0x00,
            TableEntry::OpenDoor(_) => 0x01,
            TableEntry::PushBlockGatedDoor(_) => 0x02,
            TableEntry::EnemyGatedDoor(_) => 0x03,
            TableEntry::BombableDoor(_) => 0x05,
            TableEntry::PushBlockGatedObject(_) => 0x06,
            TableEntry::EnemyGatedObject(_) => 0x07,
            TableEntry::BellGatedObject(_) => 0x08,
            TableEntry::DarkRoom => 0x09,
            TableEntry::BossDoor(_) => 0x0a,
            TableEntry::Unknown0b(_) => 0x0b,
            TableEntry::Burnable(_) => 0x0c,
            TableEntry::HiddenRoom(_) => 0x0d,
            TableEntry::FalconBootsNeeded => 0x81,
            TableEntry::Npc(_) => 0x9a,
            TableEntry::OuchRope(_) => 0xbd,
            TableEntry::ArrowLauncher(_) => 0xbf,
            TableEntry::Swords(_) => 0xc0,
            TableEntry::GhostSpawner(_) => 0xc1,
            TableEntry::FireballSpawner(_) => 0xc6,
            TableEntry::ShopItem(_) => 0xda,
            TableEntry::UnknownE1(_) => 0xe1,
            TableEntry::UnknownF4(_) => 0xf4,
        }
    }

    /// The bytes that follow the tag.
    pub open spec fn payload(self) -> Seq<u8> {
        match self {
            TableEntry::Object(o) => o.bytes(),
            TableEntry::OpenDoor(d) => seq![d],
            TableEntry::PushBlockGatedDoor(d) => seq![d],
            TableEntry::EnemyGatedDoor(d) => seq![d],
            TableEntry::BombableDoor(d) => seq![d],
            TableEntry::PushBlockGatedObject(o) => o.bytes(),
            TableEntry::EnemyGatedObject(o) => o.bytes(),
            TableEntry::BellGatedObject(o) => o.bytes(),
            TableEntry::DarkRoom => Seq::empty(),
            TableEntry::BossDoor(d) => seq![d],
            TableEntry::Unknown0b(data) => data@,
            TableEntry::Burnable(o) => o.bytes(),
            TableEntry::HiddenRoom(data) => data@,
            TableEntry::FalconBootsNeeded => Seq::empty(),
            TableEntry::Npc(data) => data@,
            TableEntry::OuchRope(o) => o.bytes(),
            TableEntry::ArrowLauncher(o) => o.bytes(),
            TableEntry::Swords(o) => o.bytes(),
            TableEntry::GhostSpawner(o) => o.bytes(),
            TableEntry::FireballSpawner(o) => o.bytes(),
            TableEntry::ShopItem(data) => data@,
            TableEntry::UnknownE1(data) => data@,
            TableEntry::UnknownF4(data) => data@,
        }
    }

    /// The byte form of the record: its tag, then its payload.
    pub open spec fn bytes(self) -> Seq<u8> {
        seq![self.tag()] + self.payload()
    }

    /// The chest slot that the record selects: an `Object` whose id lies in
    /// the eight ids from `CHEST_ID_BASE` on.
    pub open spec fn spec_chest_id(self) -> Option<u8> {
        match self {
            TableEntry::Object(o) => if CHEST_ID_BASE <= o.id < CHEST_ID_BASE + CHEST_ID_COUNT {
                Some((o.id - CHEST_ID_BASE) as u8)
            } else {
                None
            },
            _ => None,
        }
    }

    /// Appends the byte form of the record to `w`.
    pub fn write(&self, w: &mut Vec<u8>)
        ensures
            final(w)@ == old(w)@ + self.bytes(),
    {
        match self {
            TableEntry::Object(o) => write_object_record(w, 0x00, o),
            TableEntry::OpenDoor(d) => write_byte_record(w, 0x01, *d),
            TableEntry::PushBlockGatedDoor(d) => write_byte_record(w, 0x02, *d),
            TableEntry::EnemyGatedDoor(d) => write_byte_record(w, 0x03, *d),
            TableEntry::BombableDoor(d) => write_byte_record(w, 0x05, *d),
            TableEntry::PushBlockGatedObject(o) => write_object_record(w, 0x06, o),
            TableEntry::EnemyGatedObject(o) => write_object_record(w, 0x07, o),
            TableEntry::BellGatedObject(o) => write_object_record(w, 0x08, o),
            TableEntry::DarkRoom => write_bare_record(w, 0x09),
            TableEntry::BossDoor(d) => write_byte_record(w, 0x0a, *d),
            TableEntry::Unknown0b(data) => write_data_record(w, 0x0b, data.as_slice()),
            TableEntry::Burnable(o) => write_object_record(w, 0x0c, o),
            TableEntry::HiddenRoom(data) => write_data_record(w, 0x0d, data.as_slice()),
            TableEntry::FalconBootsNeeded => write_bare_record(w, 0x81),
            TableEntry::Npc(data) => write_data_record(w, 0x9a, data.as_slice()),
            TableEntry::OuchRope(o) => write_object_record(w, 0xbd, o),
            TableEntry::ArrowLauncher(o) => write_object_record(w, 0xbf, o),
            TableEntry::Swords(o) => write_object_record(w, 0xc0, o),
            TableEntry::GhostSpawner(o) => write_object_record(w, 0xc1, o),
            TableEntry::FireballSpawner(o) => write_object_record(w, 0xc6, o),
            TableEntry::ShopItem(data) => write_data_record(w, 0xda, data.as_slice()),
            TableEntry::UnknownE1(data) => write_data_record(w, 0xe1, data.as_slice()),
            TableEntry::UnknownF4(data) => write_data_record(w, 0xf4, data.as_slice()),
        }
    }

    /// The chest slot that the record selects, if it is a chest object.
    pub fn chest_id(&self) -> (r: Option<u8>)
        ensures
            r == self.spec_chest_id(),
    {
        if let TableEntry::Object(o) = self {
            if CHEST_ID_BASE <= o.id && o.id < CHEST_ID_BASE + CHEST_ID_COUNT {
                return Some(o.id - CHEST_ID_BASE);
            }
        }
        None
    }

    /// Whether the record opens a conditional pair.
    pub fn is_conditional(&self) -> (r: bool)
        ensures
            r == (self is Unknown0b),
    {
        match self {
            TableEntry::Unknown0b(_) => true,
            _ => false,
        }
    }

    /// The position of an `Object` record.
    pub fn loc(&self) -> (r: Option<(u8, u8)>)
        ensures
            r == (match *self {
                TableEntry::Object(o) => Some((o.x, o.y)),
                _ => None::<(u8, u8)>,
            }),
    {
        match self {
            TableEntry::Object(o) => Some((o.x, o.y)),
            _ => None,
        }
    }
}

/// Whether `e` is what the head of `s` holds: a well-formed record whose
/// byte form `s` starts with.
pub open spec fn parses_as(s: Seq<u8>, e: TableEntry) -> bool {
    e.wf() && e.bytes().is_prefix_of(s)
}

/// The record at the head of `s`, or `None` when no rule matches: the tag is
/// not a known one, or `s` ends before the payload does.
pub open spec fn parse_entry(s: Seq<u8>) -> Option<TableEntry> {
    if exists|e: TableEntry| parses_as(s, e) {
        Some(choose|e: TableEntry| parses_as(s, e))
    } else {
        None
    }
}

proof fn lemma_loc_byte(loc: u8)
    ensures
        loc & 0xf < 16,
        loc >> 4 < 16,
        loc_byte(loc & 0xf, loc >> 4) == loc,
{
    assert(loc & 0xf < 16) by (bit_vector);
    assert(loc >> 4 < 16) by (bit_vector);
    assert(((loc & 0xf) & 0xf) | (((loc >> 4) & 0xf) << 4) == loc) by (bit_vector);
}

proof fn lemma_loc_byte_injective(x1: u8, y1: u8, x2: u8, y2: u8)
    requires
        x1 < 16,
        y1 < 16,
        x2 < 16,
        y2 < 16,
        loc_byte(x1, y1) == loc_byte(x2, y2),
    ensures
        x1 == x2,
        y1 == y2,
{
    assert(x1 < 16 && y1 < 16 && x2 < 16 && y2 < 16 && (x1 & 0xf) | ((y1 & 0xf) << 4) == (x2 & 0xf)
        | ((y2 & 0xf) << 4) ==> x1 == x2 && y1 == y2) by (bit_vector);
}

proof fn lemma_info_injective(a: ObjectInfo, b: ObjectInfo)
    requires
        a.wf(),
        b.wf(),
        a.bytes() == b.bytes(),
    ensures
        a == b,
{
    assert(a.bytes()[0] == b.bytes()[0]);
    assert(a.bytes()[1] == b.bytes()[1]);
    lemma_loc_byte_injective(a.x, a.y, b.x, b.y);
}

/// The byte form of a record starts with its tag and has the length that the
/// tag fixes.
pub proof fn lemma_entry_shape(e: TableEntry)
    ensures
        e.bytes().len() == 1 + e.payload().len(),
        e.bytes()[0] == e.tag(),
        e.bytes().subrange(1, e.bytes().len() as int) == e.payload(),
        e.payload().len() == payload_len(e.tag()),
        known_tag(e.tag()),
{
    assert(e.bytes().subrange(1, e.bytes().len() as int) =~= e.payload());
}

/// Whether `tag` opens a record.
pub open spec fn known_tag(tag: u8) -> bool {
    ||| tag <= 0x03
    ||| 0x05 <= tag <= 0x0d
    ||| tag == 0x81
    ||| tag == 0x9a
    ||| tag == 0xbd
    ||| tag == 0xbf
    ||| tag == 0xc0
    ||| tag == 0xc1
    ||| tag == 0xc6
    ||| tag == 0xda
    ||| tag == 0xe1
    ||| tag == 0xf4
}

/// The payload size of a known tag.
pub open spec fn payload_len(tag: u8) -> nat {
    if tag == 0x09 || tag == 0x81 {
        0
    } else if tag == 0x01 || tag == 0x02 || tag == 0x03 || tag == 0x05 || tag == 0x0a {
        1
    } else if tag == 0x0b || tag == 0x0d {
        3
    } else if tag == 0x9a || tag == 0xf4 {
        5
    } else if tag == 0xda {
        7
    } else if tag == 0xe1 {
        9
    } else {
        2
    }
}

/// Two well-formed records with the same byte form are the same record.
pub proof fn lemma_bytes_injective(a: TableEntry, b: TableEntry)
    requires
        a.wf(),
        b.wf(),
        a.bytes() == b.bytes(),
    ensures
        a == b,
{
    lemma_entry_shape(a);
    lemma_entry_shape(b);
    assert(a.tag() == b.tag());
    assert(a.payload() == b.payload());
    match (a, b) {
        (TableEntry::Object(x), TableEntry::Object(y)) => lemma_info_injective(x, y),
        (TableEntry::PushBlockGatedObject(x), TableEntry::PushBlockGatedObject(y)) => {
            lemma_info_injective(x, y)
        },
        (TableEntry::EnemyGatedObject(x), TableEntry::EnemyGatedObject(y)) => {
            lemma_info_injective(x, y)
        },
        (TableEntry::BellGatedObject(x), TableEntry::BellGatedObject(y)) => {
            lemma_info_injective(x, y)
        },
        (TableEntry::Burnable(x), TableEntry::Burnable(y)) => lemma_info_injective(x, y),
        (TableEntry::OuchRope(x), TableEntry::OuchRope(y)) => lemma_info_injective(x, y),
        (TableEntry::ArrowLauncher(x), TableEntry::ArrowLauncher(y)) => lemma_info_injective(x, y),
        (TableEntry::Swords(x), TableEntry::Swords(y)) => lemma_info_injective(x, y),
        (TableEntry::GhostSpawner(x), TableEntry::GhostSpawner(y)) => lemma_info_injective(x, y),
        (TableEntry::FireballSpawner(x), TableEntry::FireballSpawner(y)) => {
            lemma_info_injective(x, y)
        },
        (TableEntry::OpenDoor(x), TableEntry::OpenDoor(y)) => {
            assert(a.payload()[0] == b.payload()[0]);
        },
        (TableEntry::PushBlockGatedDoor(x), TableEntry::PushBlockGatedDoor(y)) => {
            assert(a.payload()[0] == b.payload()[0]);
        },
        (TableEntry::EnemyGatedDoor(x), TableEntry::EnemyGatedDoor(y)) => {
            assert(a.payload()[0] == b.payload()[0]);
        },
        (TableEntry::BombableDoor(x), TableEntry::BombableDoor(y)) => {
            assert(a.payload()[0] == b.payload()[0]);
        },
        (TableEntry::BossDoor(x), TableEntry::BossDoor(y)) => {
            assert(a.payload()[0] == b.payload()[0]);
        },
        (TableEntry::Unknown0b(x), TableEntry::Unknown0b(y)) => {
            assert(x =~= y);
        },
        (TableEntry::HiddenRoom(x), TableEntry::HiddenRoom(y)) => {
            assert(x =~= y);
        },
        (TableEntry::Npc(x), TableEntry::Npc(y)) => {
            assert(x =~= y);
        },
        (TableEntry::ShopItem(x), TableEntry::ShopItem(y)) => {
            assert(x =~= y);
        },
        (TableEntry::UnknownE1(x), TableEntry::UnknownE1(y)) => {
            assert(x =~= y);
        },
        (TableEntry::UnknownF4(x), TableEntry::UnknownF4(y)) => {
            assert(x =~= y);
        },
        _ => {},
    }
}

/// At most one record parses from the head of a byte sequence.
pub proof fn lemma_parse_unique(s: Seq<u8>, a: TableEntry, b: TableEntry)
    requires
        parses_as(s, a),
        parses_as(s, b),
    ensures
        a == b,
{
    lemma_entry_shape(a);
    lemma_entry_shape(b);
    assert(a.bytes()[0] == s[0] && b.bytes()[0] == s[0]);
    assert(a.bytes().len() == b.bytes().len());
    assert(a.bytes() =~= b.bytes());
    lemma_bytes_injective(a, b);
}

/// A record that parses from the head of `s` is the one that `parse_entry`
/// names.
pub proof fn lemma_parse_entry_is(s: Seq<u8>, e: TableEntry)
    requires
        parses_as(s, e),
    ensures
        parse_entry(s) == Some(e),
{
    let c = choose|c: TableEntry| parses_as(s, c);
    lemma_parse_unique(s, c, e);
}

/// Nothing parses from a sequence that is empty, starts with an unknown tag,
/// or ends before the payload of its tag does.
pub proof fn lemma_parse_entry_none(s: Seq<u8>)
    requires
        s.len() == 0 || !known_tag(s[0]) || s.len() < 1 + payload_len(s[0]),
    ensures
        parse_entry(s) is None,
{
    assert forall|e: TableEntry| !parses_as(s, e) by {
        lemma_entry_shape(e);
        if parses_as(s, e) {
            assert(e.bytes()[0] == s[0]);
        }
    }
}

/// Reads the location and id bytes of an object from the head of `i`.
fn parse_object_info<'a>(i: &'a [u8]) -> (r: Option<(&'a [u8], ObjectInfo)>)
    ensures
        r is Some <==> i@.len() >= 2,
        r is Some ==> {
            let (rest, info) = r->Some_0;
            &&& info.wf()
            &&& info.bytes() == i@.subrange(0, 2)
            &&& rest@ == i@.skip(2)
        },
{
    if i.len() < 2 {
        return None;
    }
    let loc: u8 = i[0];
    let id: u8 = i[1];
    let info = ObjectInfo { x: loc & 0xf, y: loc >> 4, id };
    proof {
        lemma_loc_byte(loc);
        assert(info.bytes() =~= i@.subrange(0, 2));
    }
    Some((vstd::slice::slice_subrange(i, 2, i.len()), info))
}

/// The record of an object kind for a tag, or `None` for any other tag.
fn object_record(tag: u8, info: ObjectInfo) -> (r: Option<TableEntry>)
    ensures
        r is Some <==> known_tag(tag) && payload_len(tag) == 2,
        r is Some ==> r->Some_0.tag() == tag && r->Some_0.payload() == info.bytes() && (info.wf()
            ==> r->Some_0.wf()),
{
    if tag == 0x00 {
        Some(TableEntry::Object(info))
    } else if tag == 0x06 {
        Some(TableEntry::PushBlockGatedObject(info))
    } else if tag == 0x07 {
        Some(TableEntry::EnemyGatedObject(info))
    } else if tag == 0x08 {
        Some(TableEntry::BellGatedObject(info))
    } else if tag == 0x0c {
        Some(TableEntry::Burnable(info))
    } else if tag == 0xbd {
        Some(TableEntry::OuchRope(info))
    } else if tag == 0xbf {
        Some(TableEntry::ArrowLauncher(info))
    } else if tag == 0xc0 {
        Some(TableEntry::Swords(info))
    } else if tag == 0xc1 {
        Some(TableEntry::GhostSpawner(info))
    } else if tag == 0xc6 {
        Some(TableEntry::FireballSpawner(info))
    } else {
        None
    }
}

/// The record of a one byte kind for a tag, or `None` for any other tag.
fn byte_record(tag: u8, data: u8) -> (r: Option<TableEntry>)
    ensures
        r is Some <==> known_tag(tag) && payload_len(tag) == 1,
        r is Some ==> r->Some_0.tag() == tag && r->Some_0.payload() == seq![data]
            && r->Some_0.wf(),
{
    if tag == 0x01 {
        Some(TableEntry::OpenDoor(data))
    } else if tag == 0x02 {
        Some(TableEntry::PushBlockGatedDoor(data))
    } else if tag == 0x03 {
        Some(TableEntry::EnemyGatedDoor(data))
    } else if tag == 0x05 {
        Some(TableEntry::BombableDoor(data))
    } else if tag == 0x0a {
        Some(TableEntry::BossDoor(data))
    } else {
        None
    }
}

/// The record of a kind without payload for a tag, or `None`.
fn bare_record(tag: u8) -> (r: Option<TableEntry>)
    ensures
        r is Some <==> known_tag(tag) && payload_len(tag) == 0,
        r is Some ==> r->Some_0.tag() == tag && r->Some_0.payload() == Seq::<u8>::empty()
            && r->Some_0.wf(),
{
    if tag == 0x09 {
        Some(TableEntry::DarkRoom)
    } else if tag == 0x81 {
        Some(TableEntry::FalconBootsNeeded)
    } else {
        None
    }
}

/// The record of an opaque kind for a tag, read from a payload `d` of the
/// size that the tag fixes; `None` for any other tag.
fn data_record(tag: u8, d: &[u8]) -> (r: Option<TableEntry>)
    requires
        d@.len() == payload_len(tag),
    ensures
        r is Some <==> known_tag(tag) && payload_len(tag) > 2,
        r is Some ==> r->Some_0.tag() == tag && r->Some_0.payload() == d@ && r->Some_0.wf(),
{
    if tag == 0x0b {
        let a: [u8; 3] = [d[0], d[1], d[2]];
        assert(a@ =~= d@);
        Some(TableEntry::Unknown0b(a))
    } else if tag == 0x0d {
        let a: [u8; 3] = [d[0], d[1], d[2]];
        assert(a@ =~= d@);
        Some(TableEntry::HiddenRoom(a))
    } else if tag == 0x9a {
        let a: [u8; 5] = [d[0], d[1], d[2], d[3], d[4]];
        assert(a@ =~= d@);
        Some(TableEntry::Npc(a))
    } else if tag == 0xda {
        let a: [u8; 7] = [d[0], d[1], d[2], d[3], d[4], d[5], d[6]];
        assert(a@ =~= d@);
        Some(TableEntry::ShopItem(a))
    } else if tag == 0xe1 {
        let a: [u8; 9] = [d[0], d[1], d[2], d[3], d[4], d[5], d[6], d[7], d[8]];
        assert(a@ =~= d@);
        Some(TableEntry::UnknownE1(a))
    } else if tag == 0xf4 {
        let a: [u8; 5] = [d[0], d[1], d[2], d[3], d[4]];
        assert(a@ =~= d@);
        Some(TableEntry::UnknownF4(a))
    } else {
        None
    }
}

/// The payload size of `tag`, or `None` for an unknown tag.
fn tag_payload_len(tag: u8) -> (r: Option<usize>)
    ensures
        r is Some <==> known_tag(tag),
        r is Some ==> r->Some_0 == payload_len(tag),
{
    if tag == 0x09 || tag == 0x81 {
        Some(0)
    } else if tag == 0x01 || tag == 0x02 || tag == 0x03 || tag == 0x05 || tag == 0x0a {
        Some(1)
    } else if tag == 0x0b || tag == 0x0d {
        Some(3)
    } else if tag == 0x9a || tag == 0xf4 {
        Some(5)
    } else if tag == 0xda {
        Some(7)
    } else if tag == 0xe1 {
        Some(9)
    } else if tag == 0x00 || tag == 0x06 || tag == 0x07 || tag == 0x08 || tag == 0x0c || tag
        == 0xbd || tag == 0xbf || tag == 0xc0 || tag == 0xc1 || tag == 0xc6 {
        Some(2)
    } else {
        None
    }
}

/// Parses the record at the head of `i` and returns it with the bytes that
/// follow it.
///
/// Fails with `UnknownTag` when no rule matches.
pub fn parse_object_table_entry<'a>(i: &'a [u8]) -> (r: Result<
    (&'a [u8], TableEntry),
    FormatError,
>)
    ensures
        match r {
            Ok((rest, e)) => parse_entry(i@) == Some(e) && rest@ == i@.skip(e.bytes().len() as int),
            Err(err) => err == FormatError::UnknownTag && parse_entry(i@) is None,
        },
{
    if i.len() == 0 {
        proof {
            lemma_parse_entry_none(i@);
        }
        return Err(FormatError::UnknownTag);
    }
    let tag: u8 = i[0];
    let n: usize = match tag_payload_len(tag) {
        Some(n) => n,
        None => {
            proof {
                lemma_parse_entry_none(i@);
            }
            return Err(FormatError::UnknownTag);
        },
    };
    if i.len() - 1 < n {
        proof {
            lemma_parse_entry_none(i@);
        }
        return Err(FormatError::UnknownTag);
    }
    let payload = vstd::slice::slice_subrange(i, 1, 1 + n);
    let rest = vstd::slice::slice_subrange(i, 1 + n, i.len());
    let found: Option<TableEntry> = if n == 0 {
        bare_record(tag)
    } else if n == 1 {
        byte_record(tag, payload[0])
    } else if n == 2 {
        match parse_object_info(payload) {
            Some((_, info)) => {
                assert(info.bytes() =~= payload@);
                object_record(tag, info)
            },
            None => None,
        }
    } else {
        data_record(tag, payload)
    };
    match found {
        Some(e) => {
            proof {
                assert(e.bytes() =~= i@.subrange(0, 1 + n));
                lemma_parse_entry_is(i@, e);
            }
            Ok((rest, e))
        },
        None => {
            assert(false);
            Err(FormatError::UnknownTag)
        },
    }
}

/// The records at the head of `s`, parsed one after another until no rule
/// matches, together with the bytes that are left.
pub open spec fn parse_entries(s: Seq<u8>) -> (Seq<TableEntry>, Seq<u8>)
    decreases s.len(),
{
    match parse_entry(s) {
        Some(e) => if 0 < e.bytes().len() <= s.len() {
            let (entries, rest) = parse_entries(s.skip(e.bytes().len() as int));
            (seq![e] + entries, rest)
        } else {
            (Seq::empty(), s)
        },
        None => (Seq::empty(), s),
    }
}

/// The byte form of a table: the byte forms of its records in order, with
/// no terminator.
pub open spec fn table_bytes(entries: Seq<TableEntry>) -> Seq<u8>
    decreases entries.len(),
{
    if entries.len() == 0 {
        Seq::empty()
    } else {
        table_bytes(entries.drop_last()) + entries.last().bytes()
    }
}

/// The length in bytes of the object table at the head of `s`: records are
/// parsed until no rule matches, and what follows must be nothing or a `0xff`
/// terminator, which is not counted.
pub open spec fn table_len(s: Seq<u8>) -> Result<nat, FormatError> {
    let rest = parse_entries(s).1;
    if rest.len() == 0 || rest[0] == 0xff {
        Ok((s.len() - rest.len()) as nat)
    } else {
        Err(FormatError::TrailingBytes)
    }
}

/// Parses records from `data` for as long as a rule matches and returns
/// them with the bytes that are left.
fn parse_records<'a>(data: &'a [u8]) -> (r: (Vec<TableEntry>, &'a [u8]))
    ensures
        r.0@ == parse_entries(data@).0,
        r.1@ == parse_entries(data@).1,
        r.1@.len() <= data@.len(),
{
    let mut table: Vec<TableEntry> = Vec::new();
    let mut rest: &'a [u8] = data;
    loop
        invariant
            parse_entries(data@).0 == table@ + parse_entries(rest@).0,
            parse_entries(data@).1 == parse_entries(rest@).1,
            rest@.len() <= data@.len(),
        ensures
            table@ == parse_entries(data@).0,
            rest@ == parse_entries(data@).1,
            rest@.len() <= data@.len(),
        decreases rest@.len(),
    {
        match parse_object_table_entry(rest) {
            Ok((next, e)) => {
                proof {
                    lemma_entry_shape(e);
                    assert(parses_as(rest@, e));
                    assert(table@.push(e) + parse_entries(next@).0 =~= table@ + (seq![e]
                        + parse_entries(next@).0));
                }
                table.push(e);
                rest = next;
            },
            Err(_) => {
                assert(table@ + Seq::<TableEntry>::empty() =~= table@);
                break;
            },
        }
    }
    (table, rest)
}

/// The length in bytes of the object table at the head of `data`: records
/// are parsed until no rule matches, and what follows must be nothing or a
/// `0xff` terminator, which is not counted.
///
/// Fails with `TrailingBytes` when other bytes follow the last record.
pub fn object_table_len(data: &[u8]) -> (r: Result<usize, FormatError>)
    ensures
        match r {
            Ok(n) => table_len(data@) == Ok::<nat, FormatError>(n as nat) && n <= data@.len(),
            Err(e) => table_len(data@) == Err::<nat, FormatError>(e),
        },
{
    let (_, rest) = parse_records(data);
    if rest.len() != 0 && rest[0] != 0xff {
        return Err(FormatError::TrailingBytes);
    }
    Ok(data.len() - rest.len())
}

/// Parses a whole object table.
///
/// Fails with `TrailingBytes` when bytes are left after the last record
/// that a rule matches.
pub fn parse_object_table(data: &[u8]) -> (r: Result<Vec<TableEntry>, FormatError>)
    ensures
        parse_entries(data@).1.len() == 0 ==> r is Ok && r->Ok_0@ == parse_entries(data@).0,
        parse_entries(data@).1.len() != 0 ==> r == Err::<Vec<TableEntry>, FormatError>(
            FormatError::TrailingBytes,
        ),
{
    let (table, rest) = parse_records(data);
    if rest.len() != 0 {
        return Err(FormatError::TrailingBytes);
    }
    Ok(table)
}

/// Writes the byte form of a table, without terminator.
pub fn write_object_table(entries: &Vec<TableEntry>, w: &mut Vec<u8>)
    ensures
        final(w)@ == old(w)@ + table_bytes(entries@),
{
    let mut i: usize = 0;
    assert(entries@.subrange(0, 0) =~= Seq::<TableEntry>::empty());
    while i < entries.len()
        invariant
            i <= entries@.len(),
            w@ == old(w)@ + table_bytes(entries@.subrange(0, i as int)),
        decreases entries@.len() - i,
    {
        entries[i].write(w);
        proof {
            let next = entries@.subrange(0, i + 1);
            assert(next.drop_last() =~= entries@.subrange(0, i as int));
            assert(next.last() == entries@[i as int]);
            assert(w@ =~= old(w)@ + table_bytes(next));
        }
        i = i + 1;
    }
    assert(entries@.subrange(0, i as int) =~= entries@);
}

/// Parsing the byte form of a well-formed record gives the record back,
/// whatever follows it, and consumes exactly the bytes that were written.
pub proof fn lemma_parse_written_entry(e: TableEntry, tail: Seq<u8>)
    requires
        e.wf(),
    ensures
        parse_entry(e.bytes() + tail) == Some(e),
        (e.bytes() + tail).skip(e.bytes().len() as int) == tail,
{
    assert(e.bytes().is_prefix_of(e.bytes() + tail));
    lemma_parse_entry_is(e.bytes() + tail, e);
    assert((e.bytes() + tail).skip(e.bytes().len() as int) =~= tail);
}

/// A record that parses from the head of `s` is well formed and writes back
/// as the bytes that it was parsed from.
pub proof fn lemma_write_parsed_entry(s: Seq<u8>, e: TableEntry)
    requires
        parse_entry(s) == Some(e),
    ensures
        e.wf(),
        0 < e.bytes().len() <= s.len(),
        e.bytes() == s.subrange(0, e.bytes().len() as int),
{
    lemma_entry_shape(e);
    assert(parses_as(s, e));
    assert(e.bytes() =~= s.subrange(0, e.bytes().len() as int));
}

/// The byte form of a table that starts with `e` starts with the bytes of `e`.
pub proof fn lemma_table_bytes_front(e: TableEntry, entries: Seq<TableEntry>)
    ensures
        table_bytes(seq![e] + entries) == e.bytes() + table_bytes(entries),
    decreases entries.len(),
{
    let all = seq![e] + entries;
    if entries.len() == 0 {
        assert(all.drop_last() =~= Seq::<TableEntry>::empty());
        assert(all.last() == e);
        assert(table_bytes(Seq::<TableEntry>::empty()) =~= Seq::<u8>::empty());
        assert(entries =~= Seq::<TableEntry>::empty());
        assert(table_bytes(all) =~= e.bytes() + table_bytes(entries));
    } else {
        assert(all.drop_last() =~= seq![e] + entries.drop_last());
        assert(all.last() == entries.last());
        lemma_table_bytes_front(e, entries.drop_last());
        assert(table_bytes(all) =~= e.bytes() + table_bytes(entries));
    }
}

/// Writing the records parsed from `s`, followed by the bytes that parsing
/// left over, gives `s` back. In particular a table that parses without
/// remainder is written back byte for byte.
pub proof fn lemma_write_parsed_table(s: Seq<u8>)
    ensures
        table_bytes(parse_entries(s).0) + parse_entries(s).1 == s,
        forall|i: int|
            0 <= i < parse_entries(s).0.len() ==> (#[trigger] parse_entries(s).0[i]).wf(),
    decreases s.len(),
{
    match parse_entry(s) {
        Some(e) => {
            lemma_write_parsed_entry(s, e);
            let next = s.skip(e.bytes().len() as int);
            lemma_write_parsed_table(next);
            lemma_table_bytes_front(e, parse_entries(next).0);
            assert(parse_entries(s).0 == seq![e] + parse_entries(next).0);
            assert(parse_entries(s).1 == parse_entries(next).1);
            assert(s =~= e.bytes() + next);
            assert(table_bytes(parse_entries(s).0) + parse_entries(s).1 =~= e.bytes() + (
            table_bytes(parse_entries(next).0) + parse_entries(next).1));
            assert forall|i: int| 0 <= i < parse_entries(s).0.len() implies (
            #[trigger] parse_entries(s).0[i]).wf() by {
                if i > 0 {
                    assert(parse_entries(s).0[i] == parse_entries(next).0[i - 1]);
                }
            }
        },
        None => {
            assert(table_bytes(Seq::<TableEntry>::empty()) =~= Seq::<u8>::empty());
            assert(table_bytes(parse_entries(s).0) + parse_entries(s).1 =~= s);
        },
    }
}

/// Parsing the byte form of a table of well-formed records gives the table
/// back and leaves nothing over.
pub proof fn lemma_parse_written_table(entries: Seq<TableEntry>)
    requires
        forall|i: int| 0 <= i < entries.len() ==> (#[trigger] entries[i]).wf(),
    ensures
        parse_entries(table_bytes(entries)) == (entries, Seq::<u8>::empty()),
    decreases entries.len(),
{
    if entries.len() == 0 {
        lemma_parse_entry_none(Seq::<u8>::empty());
        assert(entries =~= Seq::<TableEntry>::empty());
    } else {
        let e = entries[0];
        let tail = entries.subrange(1, entries.len() as int);
        assert(entries =~= seq![e] + tail);
        lemma_table_bytes_front(e, tail);
        lemma_entry_shape(e);
        lemma_parse_written_entry(e, table_bytes(tail));
        assert forall|i: int| 0 <= i < tail.len() implies (#[trigger] tail[i]).wf() by {
            assert(tail[i] == entries[i + 1]);
        }
        lemma_parse_written_table(tail);
    }
}

fn write_object_record(w: &mut Vec<u8>, tag: u8, info: &ObjectInfo)
    ensures
        final(w)@ == old(w)@ + (seq![tag] + info.bytes()),
{
    w.push(tag);
    info.write(w);
    assert(w@ =~= old(w)@ + (seq![tag] + info.bytes()));
}

fn write_byte_record(w: &mut Vec<u8>, tag: u8, data: u8)
    ensures
        final(w)@ == old(w)@ + (seq![tag] + seq![data]),
{
    w.push(tag);
    w.push(data);
    assert(w@ =~= old(w)@ + (seq![tag] + seq![data]));
}

fn write_bare_record(w: &mut Vec<u8>, tag: u8)
    ensures
        final(w)@ == old(w)@ + (seq![tag] + Seq::<u8>::empty()),
{
    w.push(tag);
    assert(w@ =~= old(w)@ + (seq![tag] + Seq::<u8>::empty()));
}

fn write_data_record(w: &mut Vec<u8>, tag: u8, data: &[u8])
    ensures
        final(w)@ == old(w)@ + (seq![tag] + data@),
{
    w.push(tag);
    let mut i: usize = 0;
    while i < data.len()
        invariant
            i <= data@.len(),
            w@ == old(w)@ + (seq![tag] + data@.subrange(0, i as int)),
        decreases data@.len() - i,
    {
        w.push(data[i]);
        i = i + 1;
        assert(w@ =~= old(w)@ + (seq![tag] + data@.subrange(0, i as int)));
    }
    assert(data@.subrange(0, i as int) =~= data@);
}

} // verus!
