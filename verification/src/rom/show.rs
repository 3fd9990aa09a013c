//! The records of an object table as text, for reports.

use vstd::prelude::*;
use vstd::string::StringExecFns;

use crate::rom::object::{ObjectInfo, TableEntry};
use crate::text::{decimal, push_decimal};
use crate::verify::{hex_digit, push_hex_digit};

verus! {

/// A byte as two hexadecimal digits.
pub open spec fn hex_pair(b: u8) -> Seq<char> {
    hex_digit((b / 16) as nat) + hex_digit((b % 16) as nat)
}

/// A byte in hexadecimal without a leading zero.
pub open spec fn hex_short(b: u8) -> Seq<char> {
    if b < 16 {
        hex_digit(b as nat)
    } else {
        hex_pair(b)
    }
}

/// The first `k` bytes of a list in hexadecimal, with commas between them.
pub open spec fn hex_items(data: Seq<u8>, k: nat) -> Seq<char>
    decreases k,
{
    if k == 0 {
        Seq::empty()
    } else if k == 1 {
        hex_short(data[0])
    } else {
        hex_items(data, (k - 1) as nat) + ", "@ + hex_short(data[k - 1])
    }
}

/// A list of bytes in hexadecimal, in square brackets.
pub open spec fn hex_list(data: Seq<u8>) -> Seq<char> {
    "["@ + hex_items(data, data.len()) + "]"@
}

/// The text of an object: its id, then its position.
pub open spec fn info_text(o: ObjectInfo) -> Seq<char> {
    "0x"@ + hex_pair(o.id) + " @ ("@ + decimal(o.x as nat) + ","@ + decimal(o.y as nat) + ")"@
}

/// The text of a record: what it is, then what it holds.
pub open spec fn entry_text(e: TableEntry) -> Seq<char> {
    match e {
        TableEntry::Object(o) => "object "@ + info_text(o),
        TableEntry::OpenDoor(d) => "open door 0x"@ + hex_pair(d),
        TableEntry::PushBlockGatedDoor(d) => "push block gated door 0x"@ + hex_pair(d),
        TableEntry::EnemyGatedDoor(d) => "enemy gated door 0x"@ + hex_pair(d),
        TableEntry::BombableDoor(d) => "bombable door 0x"@ + hex_pair(d),
        TableEntry::PushBlockGatedObject(o) => "push block gated object "@ + info_text(o),
        TableEntry::EnemyGatedObject(o) => "enemy gated object "@ + info_text(o),
        TableEntry::BellGatedObject(o) => "bell gated object "@ + info_text(o),
        TableEntry::DarkRoom => "dark room"@,
        TableEntry::BossDoor(d) => "boss door 0x"@ + hex_pair(d),
        TableEntry::Unknown0b(data) => "unknown object 0x0b "@ + hex_list(data@),
        TableEntry::Burnable(o) => "burnable "@ + info_text(o),
        TableEntry::HiddenRoom(data) => "hidden room "@ + hex_list(data@),
        TableEntry::FalconBootsNeeded => "falcon boots needed"@,
        TableEntry::Npc(data) => "npc "@ + hex_list(data@),
        TableEntry::OuchRope(o) => "ouch rope segment "@ + info_text(o),
        TableEntry::ArrowLauncher(o) => "arrow launcher "@ + info_text(o),
        TableEntry::Swords(o) => "swords "@ + info_text(o),
        TableEntry::GhostSpawner(o) => "ghost spawner "@ + info_text(o),
        TableEntry::FireballSpawner(o) => "fireball spawner "@ + info_text(o),
        TableEntry::ShopItem(data) => "shop item "@ + hex_list(data@),
        TableEntry::UnknownE1(data) => "unknown object 0xe1 "@ + hex_list(data@),
        TableEntry::UnknownF4(data) => "unknown object 0xf4 "@ + hex_list(data@),
    }
}

fn push_hex_pair(s: &mut String, b: u8)
    ensures
        final(s)@ == old(s)@ + hex_pair(b),
{
    push_hex_digit(s, b / 16);
    push_hex_digit(s, b % 16);
    assert(s@ =~= old(s)@ + hex_pair(b));
}

fn push_hex_short(s: &mut String, b: u8)
    ensures
        final(s)@ == old(s)@ + hex_short(b),
{
    if b < 16 {
        push_hex_digit(s, b);
    } else {
        push_hex_pair(s, b);
    }
}

fn push_hex_list(s: &mut String, data: &[u8])
    ensures
        final(s)@ == old(s)@ + hex_list(data@),
{
    s.append("[");
    let ghost head = s@;
    let mut k: usize = 0;
    assert(s@ =~= head + hex_items(data@, 0));
    while k < data.len()
        invariant
            k <= data@.len(),
            s@ == head + hex_items(data@, k as nat),
        decreases data@.len() - k,
    {
        if k > 0 {
            s.append(", ");
        }
        push_hex_short(s, data[k]);
        k = k + 1;
        assert(s@ =~= head + hex_items(data@, k as nat));
    }
    s.append("]");
    assert(s@ =~= old(s)@ + hex_list(data@));
}

fn push_info(s: &mut String, o: &ObjectInfo)
    ensures
        final(s)@ == old(s)@ + info_text(*o),
{
    s.append("0x");
    push_hex_pair(s, o.id);
    s.append(" @ (");
    push_decimal(s, o.x);
    s.append(",");
    push_decimal(s, o.y);
    s.append(")");
    assert(s@ =~= old(s)@ + info_text(*o));
}

fn object_text(name: &str, o: &ObjectInfo) -> (text: String)
    ensures
        text@ == name@ + info_text(*o),
{
    let mut text = String::from_str(name);
    push_info(&mut text, o);
    text
}

fn byte_text(name: &str, d: u8) -> (text: String)
    ensures
        text@ == name@ + hex_pair(d),
{
    let mut text = String::from_str(name);
    push_hex_pair(&mut text, d);
    text
}

fn data_text(name: &str, data: &[u8]) -> (text: String)
    ensures
        text@ == name@ + hex_list(data@),
{
    let mut text = String::from_str(name);
    push_hex_list(&mut text, data);
    text
}

impl ObjectInfo {
    /// The text of the object.
    pub fn to_text(&self) -> (text: String)
        ensures
            text@ == info_text(*self),
    {
        let mut text = String::new();
        push_info(&mut text, self);
        assert(text@ =~= info_text(*self));
        text
    }
}

impl TableEntry {
    /// The text of the record.
    pub fn to_text(&self) -> (text: String)
        ensures
            text@ == entry_text(*self),
    {
        match self {
            TableEntry::Object(o) => object_text("object ", o),
            TableEntry::OpenDoor(d) => byte_text("open door 0x", *d),
            TableEntry::PushBlockGatedDoor(d) => byte_text("push block gated door 0x", *d),
            TableEntry::EnemyGatedDoor(d) => byte_text("enemy gated door 0x", *d),
            TableEntry::BombableDoor(d) => byte_text("bombable door 0x", *d),
            TableEntry::PushBlockGatedObject(o) => object_text("push block gated object ", o),
            TableEntry::EnemyGatedObject(o) => object_text("enemy gated object ", o),
            TableEntry::BellGatedObject(o) => object_text("bell gated object ", o),
            TableEntry::DarkRoom => String::from_str("dark room"),
            TableEntry::BossDoor(d) => byte_text("boss door 0x", *d),
            TableEntry::Unknown0b(data) => data_text("unknown object 0x0b ", data.as_slice()),
            TableEntry::Burnable(o) => object_text("burnable ", o),
            TableEntry::HiddenRoom(data) => data_text("hidden room ", data.as_slice()),
            TableEntry::FalconBootsNeeded => String::from_str("falcon boots needed"),
            TableEntry::Npc(data) => data_text("npc ", data.as_slice()),
            TableEntry::OuchRope(o) => object_text("ouch rope segment ", o),
            TableEntry::ArrowLauncher(o) => object_text("arrow launcher ", o),
            TableEntry::Swords(o) => object_text("swords ", o),
            TableEntry::GhostSpawner(o) => object_text("ghost spawner ", o),
            TableEntry::FireballSpawner(o) => object_text("fireball spawner ", o),
            TableEntry::ShopItem(data) => data_text("shop item ", data.as_slice()),
            TableEntry::UnknownE1(data) => data_text("unknown object 0xe1 ", data.as_slice()),
            TableEntry::UnknownF4(data) => data_text("unknown object 0xf4 ", data.as_slice()),
        }
    }
}

} // verus!
