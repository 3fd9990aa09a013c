//! The four byte chest records and the eight record chest table of an area.

use vstd::prelude::*;
use vstd::string::StringExecFns;

use crate::error::FormatError;
use crate::text::{decimal, push_decimal};

verus! {

/// The number of chest records in the table of an area.
pub const CHESTS_PER_AREA: usize = 8;

/// One chest record: the reward it holds and the text shown with it.
#[derive(Clone, Copy, Debug, PartialEq, Eq, Hash, Structural)]
pub struct Chest {
    pub item_id: u8,
    pub arg: u8,
    pub text: u8,
    pub unknown: u8,
}

/// The name of a tier of equipment: `arg` selects the tier.
pub open spec fn tier_name(
    arg: u8,
    first: Seq<char>,
    second: Seq<char>,
    third: Seq<char>,
    fourth: Seq<char>,
    other: Seq<char>,
) -> Seq<char> {
    if arg == 1 {
        first
    } else if arg == 2 {
        second
    } else if arg == 3 {
        third
    } else if arg == 4 {
        fourth
    } else {
        other
    }
}

/// The name of the reward with id `item_id` and argument `arg`.
pub open spec fn item_name(item_id: u8, arg: u8) -> Seq<char> {
    if item_id == 0x00 {
        "Bombs x"@ + decimal(arg as nat)
    } else if item_id == 0x01 {
        "Medicine"@
    } else if item_id == 0x02 {
        "Fire Wand"@
    } else if item_id == 0x03 {
        "Sky Bell"@
    } else if item_id == 0x04 {
        "Wings"@
    } else if item_id == 0x05 {
        "Moonbeam Moss"@
    } else if item_id == 0x06 {
        "Magic Ring"@
    } else if item_id == 0x08 {
        tier_name(
            arg,
            "Starter Sword"@,
            "Bronze Sword"@,
            "Steel Sword"@,
            "Strongest Sword"@,
            "Unknown Sword"@,
        )
    } else if item_id == 0x09 {
        tier_name(
            arg,
            "Starter Armor"@,
            "Bronze Armor"@,
            "Steel Armor"@,
            "Strongest Armor"@,
            "Unknown Armor"@,
        )
    } else if item_id == 0x0a {
        tier_name(
            arg,
            "Starter Shield"@,
            "Bronze Shield"@,
            "Steel Shield"@,
            "Strongest Shield"@,
            "Unknown Shield"@,
        )
    } else if item_id == 0x0b {
        "Falcon Shoes"@
    } else if item_id == 0x0c {
        "Rainbow Drop"@
    } else if item_id == 0x0d {
        "Book of Revival"@
    } else if item_id == 0x07 || item_id == 0x0e || item_id == 0x0f || item_id == 0x20 {
        "Placeholder"@
    } else if item_id == 0x10 {
        "Crystal Ball"@
    } else if item_id == 0x11 {
        "Crypt Key"@
    } else if item_id == 0x12 {
        "Crypt 1 Medallion"@
    } else if item_id == 0x13 {
        "Crypt 2 Medallion"@
    } else if item_id == 0x14 {
        "Crypt 3 Medallion"@
    } else if item_id == 0x15 {
        "Crypt 4 Medallion"@
    } else if item_id == 0x16 {
        "Crypt 5 Medallion"@
    } else if item_id == 0x17 {
        "Crypt 6 Medallion"@
    } else if item_id == 0x18 {
        "Crypt 7 Medallion"@
    } else if item_id == 0x19 {
        "Crypt 8 Medallion"@
    } else {
        "Unknown"@
    }
}

fn tier(arg: u8, first: &str, second: &str, third: &str, fourth: &str, other: &str) -> (r: String)
    ensures
        r@ == tier_name(arg, first@, second@, third@, fourth@, other@),
{
    if arg == 1 {
        String::from_str(first)
    } else if arg == 2 {
        String::from_str(second)
    } else if arg == 3 {
        String::from_str(third)
    } else if arg == 4 {
        String::from_str(fourth)
    } else {
        String::from_str(other)
    }
}

impl Chest {
    /// The four bytes of the record.
    pub open spec fn bytes(self) -> Seq<u8> {
        seq![self.item_id, self.arg, self.text, self.unknown]
    }

    /// Appends the four bytes of the record to `w`.
    pub fn write(&self, w: &mut Vec<u8>)
        ensures
            final(w)@ == old(w)@ + self.bytes(),
    {
        w.push(self.item_id);
        w.push(self.arg);
        w.push(self.text);
        w.push(self.unknown);
        assert(w@ =~= old(w)@ + self.bytes());
    }

    /// The name of the reward in the chest.
    pub fn get_item_name(&self) -> (name: String)
        ensures
            name@ == item_name(self.item_id, self.arg),
    {
        let id: u8 = self.item_id;
        if id == 0x00 {
            let mut name = String::from_str("Bombs x");
            push_decimal(&mut name, self.arg);
            name
        } else if id == 0x01 {
            String::from_str("Medicine")
        } else if id == 0x02 {
            String::from_str("Fire Wand")
        } else if id == 0x03 {
            String::from_str("Sky Bell")
        } else if id == 0x04 {
            String::from_str("Wings")
        } else if id == 0x05 {
            String::from_str("Moonbeam Moss")
        } else if id == 0x06 {
            String::from_str("Magic Ring")
        } else if id == 0x08 {
            tier(
                self.arg,
                "Starter Sword",
                "Bronze Sword",
                "Steel Sword",
                "Strongest Sword",
                "Unknown Sword",
            )
        } else if id == 0x09 {
            tier(
                self.arg,
                "Starter Armor",
                "Bronze Armor",
                "Steel Armor",
                "Strongest Armor",
                "Unknown Armor",
            )
        } else if id == 0x0a {
            tier(
                self.arg,
                "Starter Shield",
                "Bronze Shield",
                "Steel Shield",
                "Strongest Shield",
                "Unknown Shield",
            )
        } else if id == 0x0b {
            String::from_str("Falcon Shoes")
        } else if id == 0x0c {
            String::from_str("Rainbow Drop")
        } else if id == 0x0d {
            String::from_str("Book of Revival")
        } else if id == 0x07 || id == 0x0e || id == 0x0f || id == 0x20 {
            String::from_str("Placeholder")
        } else if id == 0x10 {
            String::from_str("Crystal Ball")
        } else if id == 0x11 {
            String::from_str("Crypt Key")
        } else if id == 0x12 {
            String::from_str("Crypt 1 Medallion")
        } else if id == 0x13 {
            String::from_str("Crypt 2 Medallion")
        } else if id == 0x14 {
            String::from_str("Crypt 3 Medallion")
        } else if id == 0x15 {
            String::from_str("Crypt 4 Medallion")
        } else if id == 0x16 {
            String::from_str("Crypt 5 Medallion")
        } else if id == 0x17 {
            String::from_str("Crypt 6 Medallion")
        } else if id == 0x18 {
            String::from_str("Crypt 7 Medallion")
        } else if id == 0x19 {
            String::from_str("Crypt 8 Medallion")
        } else {
            String::from_str("Unknown")
        }
    }
}

/// The chest record held in the four bytes of `s` from `at` on.
pub open spec fn chest_at(s: Seq<u8>, at: int) -> Chest {
    Chest { item_id: s[at], arg: s[at + 1], text: s[at + 2], unknown: s[at + 3] }
}

/// The chest table at the head of `s`: eight records of four bytes.
pub open spec fn chest_table(s: Seq<u8>) -> Seq<Chest> {
    Seq::new(CHESTS_PER_AREA as nat, |k: int| chest_at(s, 4 * k))
}

/// The byte form of a chest table: its records in order.
pub open spec fn chest_table_bytes(chests: Seq<Chest>) -> Seq<u8>
    decreases chests.len(),
{
    if chests.len() == 0 {
        Seq::empty()
    } else {
        chest_table_bytes(chests.drop_last()) + chests.last().bytes()
    }
}

/// Parses the chest record at the head of `i` and returns it with the
/// bytes that follow it.
///
/// Fails with `ShortTable` when `i` holds fewer than four bytes.
pub fn parse_chest<'a>(i: &'a [u8]) -> (r: Result<(&'a [u8], Chest), FormatError>)
    ensures
        match r {
            Ok((rest, chest)) => i@.len() >= 4 && chest == chest_at(i@, 0) && rest@ == i@.skip(4),
            Err(e) => i@.len() < 4 && e == FormatError::ShortTable,
        },
{
    if i.len() < 4 {
        return Err(FormatError::ShortTable);
    }
    let chest = Chest { item_id: i[0], arg: i[1], text: i[2], unknown: i[3] };
    Ok((vstd::slice::slice_subrange(i, 4, i.len()), chest))
}

/// Parses the eight chest records at the head of `i`.
///
/// Fails with `ShortTable` when `i` holds fewer than thirty-two bytes.
pub fn parse_chest_table(i: &[u8]) -> (r: Result<Vec<Chest>, FormatError>)
    ensures
        i@.len() >= 4 * CHESTS_PER_AREA ==> r is Ok && r->Ok_0@ == chest_table(i@),
        i@.len() < 4 * CHESTS_PER_AREA ==> r == Err::<Vec<Chest>, FormatError>(
            FormatError::ShortTable,
        ),
{
    let mut table: Vec<Chest> = Vec::new();
    let mut rest: &[u8] = i;
    let mut k: usize = 0;
    while k < CHESTS_PER_AREA
        invariant
            k <= CHESTS_PER_AREA,
            table@.len() == k,
            rest@.len() <= i@.len(),
            i@.len() >= 4 * k,
            rest@ == i@.skip(4 * k),
            forall|j: int| 0 <= j < k ==> table@[j] == chest_at(i@, 4 * j),
        decreases CHESTS_PER_AREA - k,
    {
        match parse_chest(rest) {
            Ok((next, chest)) => {
                assert(next@ =~= i@.skip(4 * (k + 1)));
                table.push(chest);
                rest = next;
            },
            Err(e) => {
                return Err(e);
            },
        }
        k = k + 1;
    }
    assert(table@ =~= chest_table(i@));
    Ok(table)
}

/// Appends the byte form of a chest table to `w`.
pub fn write_chest_table(chests: &Vec<Chest>, w: &mut Vec<u8>)
    ensures
        final(w)@ == old(w)@ + chest_table_bytes(chests@),
{
    let mut i: usize = 0;
    assert(chests@.subrange(0, 0) =~= Seq::<Chest>::empty());
    while i < chests.len()
        invariant
            i <= chests@.len(),
            w@ == old(w)@ + chest_table_bytes(chests@.subrange(0, i as int)),
        decreases chests@.len() - i,
    {
        chests[i].write(w);
        proof {
            let next = chests@.subrange(0, i + 1);
            assert(next.drop_last() =~= chests@.subrange(0, i as int));
            assert(next.last() == chests@[i as int]);
            assert(w@ =~= old(w)@ + chest_table_bytes(next));
        }
        i = i + 1;
    }
    assert(chests@.subrange(0, i as int) =~= chests@);
}

/// A chest table takes four bytes per record.
pub proof fn lemma_chest_table_bytes_len(chests: Seq<Chest>)
    ensures
        chest_table_bytes(chests).len() == 4 * chests.len(),
    decreases chests.len(),
{
    if chests.len() > 0 {
        lemma_chest_table_bytes_len(chests.drop_last());
    }
}

} // verus!
