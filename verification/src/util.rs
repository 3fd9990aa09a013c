//! The bank-relative pointer codec and the terminator-delimited byte tables.

use vstd::prelude::*;

use crate::error::FormatError;

verus! {

/// Raw pointer values below this bound lie outside the mapped bank window.
pub const POINTER_BASE: u32 = 0x40000;

/// The largest flat offset that a three byte pointer can express.
pub const MAX_OFFSET: u32 = 0x1bffff;

/// The raw 21 bit value held in the pointer bytes `(b0, b1, b2)`.
pub open spec fn pointer_value(b0: u8, b1: u8, b2: u8) -> u32 {
    ((b0 as u32) << 13) | (((b2 as u32) & 0x1f) << 8) | (b1 as u32)
}

/// A pointer is mapped when its raw value reaches the bank window.
pub open spec fn pointer_mapped(b0: u8, b1: u8, b2: u8) -> bool {
    pointer_value(b0, b1, b2) >= POINTER_BASE
}

/// The flat offset of a mapped pointer.
pub open spec fn pointer_offset(b0: u8, b1: u8, b2: u8) -> u32 {
    (pointer_value(b0, b1, b2) - POINTER_BASE) as u32
}

/// The three bytes that encode a flat offset; the third byte carries the
/// logical page marker `0x40` above its five address bits.
pub open spec fn offset_pointer(offset: u32) -> Seq<u8> {
    let value = (offset + POINTER_BASE) as u32;
    seq![
        ((value >> 13) & 0xff) as u8,
        (value & 0xff) as u8,
        (((value >> 8) & 0x1f) | 0x40) as u8,
    ]
}

/// Decodes the pointer held in the first three bytes of `data`.
pub fn pointer_to_rom_offset(data: &[u8]) -> (r: Result<u32, FormatError>)
    requires
        data@.len() >= 3,
    ensures
        pointer_mapped(data@[0], data@[1], data@[2]) ==> r == Ok::<u32, FormatError>(
            pointer_offset(data@[0], data@[1], data@[2]),
        ),
        !pointer_mapped(data@[0], data@[1], data@[2]) ==> r == Err::<u32, FormatError>(
            FormatError::InvalidPointer,
        ),
{
    let b0: u32 = data[0] as u32;
    let b1: u32 = data[1] as u32;
    let b2: u32 = data[2] as u32;
    let value: u32 = (b0 << 13) | ((b2 & 0x1f) << 8) | b1;
    if value < POINTER_BASE {
        Err(FormatError::InvalidPointer)
    } else {
        Ok(value - POINTER_BASE)
    }
}

/// Encodes a flat offset as three pointer bytes.
pub fn rom_offset_to_pointer(offset: u32) -> (p: [u8; 3])
    requires
        offset <= MAX_OFFSET,
    ensures
        p@ == offset_pointer(offset),
{
    let value: u32 = offset + POINTER_BASE;
    let b0: u8 = ((value >> 13) & 0xff) as u8;
    let b1: u8 = (value & 0xff) as u8;
    let b2: u8 = (((value >> 8) & 0x1f) | 0x40) as u8;
    let p: [u8; 3] = [b0, b1, b2];
    assert(p@ =~= offset_pointer(offset));
    p
}

/// Whether `count` pointers starting at the head of `data` are all mapped.
pub open spec fn pointers_mapped(data: Seq<u8>, count: nat) -> bool {
    forall|i: int|
        0 <= i < count ==> pointer_mapped(
            #[trigger] data[3 * i],
            data[3 * i + 1],
            data[3 * i + 2],
        )
}

/// The flat offsets of the first `count` pointers of `data`.
pub open spec fn pointer_table(data: Seq<u8>, count: nat) -> Seq<u32> {
    Seq::new(count, |i: int| pointer_offset(data[3 * i], data[3 * i + 1], data[3 * i + 2]))
}

/// Decodes a table of `entries` consecutive pointers.
///
/// Fails with `ShortRead` when `data` holds fewer than three bytes per
/// entry, and with `InvalidPointer` when one of the pointers is unmapped.
pub fn decode_pointer_table(data: &[u8], entries: usize) -> (r: Result<Vec<u32>, FormatError>)
    ensures
        data@.len() < 3 * entries ==> r == Err::<Vec<u32>, FormatError>(FormatError::ShortRead),
        data@.len() >= 3 * entries && !pointers_mapped(data@, entries as nat) ==> r == Err::<
            Vec<u32>,
            FormatError,
        >(FormatError::InvalidPointer),
        data@.len() >= 3 * entries && pointers_mapped(data@, entries as nat) ==> r is Ok
            && r->Ok_0@ == pointer_table(data@, entries as nat),
{
    if data.len() / 3 < entries {
        return Err(FormatError::ShortRead);
    }
    let mut table: Vec<u32> = Vec::new();
    let mut i: usize = 0;
    while i < entries
        invariant
            i <= entries,
            3 * entries <= data@.len() <= usize::MAX,
            table@ == pointer_table(data@, i as nat),
            pointers_mapped(data@, i as nat),
        decreases entries - i,
    {
        let b0: u32 = data[3 * i] as u32;
        let b1: u32 = data[3 * i + 1] as u32;
        let b2: u32 = data[3 * i + 2] as u32;
        let value: u32 = (b0 << 13) | ((b2 & 0x1f) << 8) | b1;
        if value < POINTER_BASE {
            assert(!pointer_mapped(data@[3 * i], data@[3 * i + 1], data@[3 * i + 2]));
            return Err(FormatError::InvalidPointer);
        }
        table.push(value - POINTER_BASE);
        i = i + 1;
        assert(table@ =~= pointer_table(data@, i as nat));
    }
    Ok(table)
}

/// The position of the first terminator byte `0xff` in `data`, if any.
pub open spec fn terminator_at(data: Seq<u8>, n: int) -> bool {
    &&& 0 <= n < data.len()
    &&& data[n] == 0xff
    &&& forall|j: int| 0 <= j < n ==> data[j] != 0xff
}

/// Whether `data` holds a terminator byte.
pub open spec fn has_terminator(data: Seq<u8>) -> bool {
    exists|n: int| 0 <= n < data.len() && data[n] == 0xff
}

/// Reads the bytes of `data` that come before its first `0xff`.
pub fn read_object_table(data: &[u8]) -> (table: Vec<u8>)
    requires
        has_terminator(data@),
    ensures
        terminator_at(data@, table@.len() as int),
        table@ == data@.subrange(0, table@.len() as int),
{
    let ghost end: int = choose|n: int| 0 <= n < data@.len() && data@[n] == 0xff;
    let mut table: Vec<u8> = Vec::new();
    let mut i: usize = 0;
    loop
        invariant
            0 <= i <= end < data@.len(),
            data@[end] == 0xff,
            table@ == data@.subrange(0, i as int),
            forall|j: int| 0 <= j < i ==> data@[j] != 0xff,
        ensures
            i < data@.len(),
            data@[i as int] == 0xff,
            table@ == data@.subrange(0, i as int),
            forall|j: int| 0 <= j < i ==> data@[j] != 0xff,
        decreases end - i,
    {
        let val: u8 = data[i];
        if val == 0xff {
            break;
        }
        table.push(val);
        i = i + 1;
        assert(table@ =~= data@.subrange(0, i as int));
    }
    table
}

/// Like [`read_object_table`], for data that may lack a terminator: `None`
/// when no `0xff` occurs.
pub fn find_object_table(data: &[u8]) -> (r: Option<Vec<u8>>)
    ensures
        has_terminator(data@) <==> r is Some,
        r is Some ==> terminator_at(data@, r->Some_0@.len() as int) && r->Some_0@
            == data@.subrange(0, r->Some_0@.len() as int),
{
    let mut table: Vec<u8> = Vec::new();
    let mut i: usize = 0;
    while i < data.len()
        invariant
            0 <= i <= data@.len(),
            table@ == data@.subrange(0, i as int),
            forall|j: int| 0 <= j < i ==> data@[j] != 0xff,
        decreases data@.len() - i,
    {
        let val: u8 = data[i];
        if val == 0xff {
            return Some(table);
        }
        table.push(val);
        i = i + 1;
        assert(table@ =~= data@.subrange(0, i as int));
    }
    None
}

/// Decoding an encoded offset gives the offset back.
pub proof fn lemma_decode_encode(offset: u32)
    requires
        offset <= MAX_OFFSET,
    ensures
        ({
            let p = offset_pointer(offset);
            pointer_mapped(p[0], p[1], p[2]) && pointer_offset(p[0], p[1], p[2]) == offset
        }),
{
    let value: u32 = (offset + POINTER_BASE) as u32;
    let b0: u8 = ((value >> 13) & 0xff) as u8;
    let b1: u8 = (value & 0xff) as u8;
    let b2: u8 = (((value >> 8) & 0x1f) | 0x40) as u8;
    assert(value <= 0x1fffff ==> (((((value >> 13) & 0xff) as u8) as u32) << 13) | ((((((value >> 8)
        & 0x1f) | 0x40) as u8) as u32 & 0x1f) << 8) | (((value & 0xff) as u8) as u32) == value)
        by (bit_vector);
}

/// Encoding a decoded pointer gives its bytes back, provided that the third
/// byte carries the page marker `0x40` in its upper three bits.
pub proof fn lemma_encode_decode(b0: u8, b1: u8, b2: u8)
    requires
        pointer_mapped(b0, b1, b2),
        b2 & 0xe0 == 0x40,
    ensures
        offset_pointer(pointer_offset(b0, b1, b2)) == seq![b0, b1, b2],
        pointer_offset(b0, b1, b2) <= MAX_OFFSET,
{
    let value: u32 = pointer_value(b0, b1, b2);
    assert(((b0 as u32) << 13) | (((b2 as u32) & 0x1f) << 8) | (b1 as u32) <= 0x1fffff)
        by (bit_vector);
    assert(b2 & 0xe0 == 0x40 ==> {
        let v = ((b0 as u32) << 13) | (((b2 as u32) & 0x1f) << 8) | (b1 as u32);
        &&& ((v >> 13) & 0xff) as u8 == b0
        &&& (v & 0xff) as u8 == b1
        &&& (((v >> 8) & 0x1f) | 0x40) as u8 == b2
    }) by (bit_vector);
    assert(offset_pointer(pointer_offset(b0, b1, b2)) =~= seq![b0, b1, b2]);
}

} // verus!
