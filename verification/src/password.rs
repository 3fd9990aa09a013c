//! Decoding of the game's passwords.
//!
//! A password is twenty-four symbols of six bits in three sections of eight.
//! Each section is salted from its first symbol, chained by exclusive or, and
//! closed by a check sum.

use vstd::prelude::*;

use crate::error::NeutopiaError;

verus! {

/// The number of symbols in a password.
pub const PASSWORD_LEN: usize = 24;

/// The number of symbols in a section of a password.
pub const SECTION_LEN: usize = 8;

/// The value of a password symbol: the capital letters count from 0, the
/// digits `1` to `9` from 26, the small letters from 35, then `#`, `$`, `%`.
pub open spec fn symbol_value(c: char) -> Option<u8> {
    if 'A' <= c <= 'Z' {
        Some((c as u8 - 'A' as u8) as u8)
    } else if '1' <= c <= '9' {
        Some((c as u8 - '1' as u8 + 26) as u8)
    } else if 'a' <= c <= 'z' {
        Some((c as u8 - 'a' as u8 + 35) as u8)
    } else if c == '#' {
        Some(61u8)
    } else if c == '$' {
        Some(62u8)
    } else if c == '%' {
        Some(63u8)
    } else {
        None
    }
}

/// Decodes a password symbol.
///
/// Fails with `InvalidCharacter` for any other character.
pub fn decode_char(c: char) -> (r: Result<u8, NeutopiaError>)
    ensures
        match symbol_value(c) {
            Some(v) => r == Ok::<u8, NeutopiaError>(v) && v < 64,
            None => r == Err::<u8, NeutopiaError>(NeutopiaError::InvalidCharacter),
        },
{
    if 'A' <= c && c <= 'Z' {
        return Ok(c as u8 - 'A' as u8);
    }
    if '1' <= c && c <= '9' {
        return Ok(c as u8 - '1' as u8 + 26);
    }
    if 'a' <= c && c <= 'z' {
        return Ok(c as u8 - 'a' as u8 + 35);
    }
    if c == '#' {
        return Ok(61);
    }
    if c == '$' {
        return Ok(62);
    }
    if c == '%' {
        return Ok(63);
    }
    Err(NeutopiaError::InvalidCharacter)
}

/// The table of salts.
pub open spec fn salt_table() -> Seq<u8> {
    seq![
        0x1fu8, 0x3a, 0x06, 0x3f, 0x21, 0x3f, 0x30, 0x37, 0x1a, 0x01, 0x20, 0x3f, 0x35, 0x03, 0x29,
        0x2b, 0x3e, 0x3f, 0x01, 0x00, 0x03, 0x2c, 0x37, 0x07, 0x3d, 0x11, 0x1e, 0x34, 0x3f, 0x19,
        0x30, 0x28, 0x37, 0x37, 0x3c, 0x0d, 0x1e, 0x31, 0x0c, 0x05, 0x35, 0x11, 0x3f, 0x24, 0x3f,
        0x3b, 0x3f, 0x26, 0x3b, 0x33, 0x3c, 0x39, 0x2e, 0x3e, 0x31, 0x08, 0x38, 0x1f, 0x00, 0x37,
        0x19, 0x24, 0x12, 0x00,
    ]
}

/// The salt for the counter `i`: the table is read at its low six bits.
pub open spec fn spec_salt_byte(i: u8) -> u8 {
    salt_table()[(i & 0x3f) as int]
}

/// The salt for the counter `i`.
pub fn salt_byte(i: u8) -> (r: u8)
    ensures
        r == spec_salt_byte(i),
{
    let table: [u8; 64] = [
        0x1f, 0x3a, 0x06, 0x3f, 0x21, 0x3f, 0x30, 0x37, 0x1a, 0x01, 0x20, 0x3f, 0x35, 0x03, 0x29,
        0x2b, 0x3e, 0x3f, 0x01, 0x00, 0x03, 0x2c, 0x37, 0x07, 0x3d, 0x11, 0x1e, 0x34, 0x3f, 0x19,
        0x30, 0x28, 0x37, 0x37, 0x3c, 0x0d, 0x1e, 0x31, 0x0c, 0x05, 0x35, 0x11, 0x3f, 0x24, 0x3f,
        0x3b, 0x3f, 0x26, 0x3b, 0x33, 0x3c, 0x39, 0x2e, 0x3e, 0x31, 0x08, 0x38, 0x1f, 0x00, 0x37,
        0x19, 0x24, 0x12, 0x00,
    ];
    assert(table@ =~= salt_table());
    let at: u8 = i & 0x3f;
    assert(at < 64) by (bit_vector)
        requires
            at == i & 0x3f,
    ;
    table[at as usize]
}

/// The counter that salts symbol `i` of a section whose first symbol is
/// `first`: it starts at `first` for symbol 1 and steps by one within six
/// bits.
pub open spec fn salt_counter(first: u8, i: int) -> u8
    decreases i,
{
    if i <= 1 {
        first
    } else {
        ((salt_counter(first, i - 1) + 1) as u8) & 0x3f
    }
}

/// Symbol `i` of a section with its salt taken off. The first symbol
/// carries no salt.
pub open spec fn unsalted(section: Seq<u8>, i: int) -> u8 {
    if i == 0 {
        section[0]
    } else {
        section[i] ^ spec_salt_byte(salt_counter(section[0], i))
    }
}

/// Symbol `i` of a decoded section: the symbols 1 to 6 are unchained from
/// the symbol before them.
pub open spec fn decoded_symbol(section: Seq<u8>, i: int) -> u8 {
    if 1 <= i <= 6 {
        unsalted(section, i) ^ unsalted(section, i - 1)
    } else {
        unsalted(section, i)
    }
}

/// A section decoded.
pub open spec fn decoded_section(section: Seq<u8>) -> Seq<u8> {
    Seq::new(SECTION_LEN as nat, |i: int| decoded_symbol(section, i))
}

/// The sum of the low six bits of the first `k` symbols.
pub open spec fn symbol_sum(symbols: Seq<u8>, k: nat) -> nat
    decreases k,
{
    if k == 0 {
        0
    } else {
        symbol_sum(symbols, (k - 1) as nat) + (symbols[k - 1] & 0x3f) as nat
    }
}

/// Whether the last symbol of a decoded section holds the sum of the seven
/// before it, in six bits.
pub open spec fn checksum_ok(decoded: Seq<u8>) -> bool {
    symbol_sum(decoded, 7) % 64 == (decoded[7] & 0x3f) as nat
}

/// Decodes the section of eight symbols that starts at `at`, in place.
///
/// Fails with `ChecksumMismatch` where the check sum of the decoded
/// section is wrong; the section is decoded all the same.
pub fn decode_section(data: &mut Vec<u8>, at: usize) -> (r: Result<(), NeutopiaError>)
    requires
        at + SECTION_LEN <= old(data)@.len(),
        old(data)@[at as int] < 255,
    ensures
        final(data)@.len() == old(data)@.len(),
        final(data)@.subrange(at as int, at + SECTION_LEN) == decoded_section(
            old(data)@.subrange(at as int, at + SECTION_LEN),
        ),
        forall|j: int|
            0 <= j < old(data)@.len() && !(at <= j < at + SECTION_LEN) ==> final(data)@[j] == old(
                data,
            )@[j],
        checksum_ok(decoded_section(old(data)@.subrange(at as int, at + SECTION_LEN))) ==> r is Ok,
        !checksum_ok(decoded_section(old(data)@.subrange(at as int, at + SECTION_LEN))) ==> r
            == Err::<(), NeutopiaError>(NeutopiaError::ChecksumMismatch),
{
    let ghost section = data@.subrange(at as int, at + SECTION_LEN);
    let len: usize = data.len();
    let mut salt: u8 = data[at];
    let mut i: usize = 1;
    while i < SECTION_LEN
        invariant
            1 <= i <= SECTION_LEN,
            at + SECTION_LEN <= data@.len() == len,
            data@.len() == old(data)@.len(),
            section == old(data)@.subrange(at as int, at + SECTION_LEN),
            salt == salt_counter(section[0], i as int),
            salt < 255,
            forall|j: int| 0 <= j < i ==> data@[at + j] == unsalted(section, j),
            forall|j: int| i <= j < SECTION_LEN ==> data@[at + j] == section[j],
            forall|j: int|
                0 <= j < data@.len() && !(at <= j < at + SECTION_LEN) ==> data@[j] == old(data)@[j],
        decreases SECTION_LEN - i,
    {
        let v: u8 = data[at + i] ^ salt_byte(salt);
        data[at + i] = v;
        let next: u8 = (salt + 1) & 0x3f;
        assert(next < 255) by (bit_vector)
            requires
                next == (salt + 1) as u8 & 0x3f,
        ;
        salt = next;
        i = i + 1;
    }
    let mut k: usize = 6;
    while k > 0
        invariant
            k <= 6,
            at + SECTION_LEN <= data@.len() == len,
            data@.len() == old(data)@.len(),
            forall|j: int| 0 <= j <= k ==> data@[at + j] == unsalted(section, j),
            forall|j: int| k < j < SECTION_LEN ==> data@[at + j] == decoded_symbol(section, j),
            forall|j: int|
                0 <= j < data@.len() && !(at <= j < at + SECTION_LEN) ==> data@[j] == old(data)@[j],
        decreases k,
    {
        let v: u8 = data[at + k] ^ data[at + k - 1];
        data[at + k] = v;
        k = k - 1;
    }
    assert(data@.subrange(at as int, at + SECTION_LEN) =~= decoded_section(section));
    let ghost decoded = decoded_section(section);
    let mut sum: u32 = 0;
    let mut i: usize = 0;
    while i < 7
        invariant
            i <= 7,
            at + SECTION_LEN <= data@.len() == len,
            data@.subrange(at as int, at + SECTION_LEN) == decoded,
            sum == symbol_sum(decoded, i as nat),
            sum <= 255 * i,
        decreases 7 - i,
    {
        assert(data@[at + i] == decoded[i as int]);
        sum = sum + (data[at + i] & 0x3f) as u32;
        i = i + 1;
    }
    assert(data@[at + 7] == decoded[7]);
    let expected: u32 = (data[at + 7] & 0x3f) as u32;
    if sum % 64 != expected {
        return Err(NeutopiaError::ChecksumMismatch);
    }
    Ok(())
}

/// The values of the symbols of a text, or `None` where a character is no
/// symbol.
pub open spec fn symbol_values(text: Seq<char>) -> Option<Seq<u8>>
    decreases text.len(),
{
    if text.len() == 0 {
        Some(Seq::empty())
    } else {
        match symbol_values(text.drop_last()) {
            None => None,
            Some(values) => match symbol_value(text.last()) {
                None => None,
                Some(v) => Some(values.push(v)),
            },
        }
    }
}

/// A password decoded: its three sections, each decoded.
pub open spec fn decoded_password(values: Seq<u8>) -> Seq<u8> {
    decoded_section(values.subrange(0, 8)) + decoded_section(values.subrange(8, 16))
        + decoded_section(values.subrange(16, 24))
}

/// Whether the check sums of the three sections of a password are right.
pub open spec fn password_ok(values: Seq<u8>) -> bool {
    &&& checksum_ok(decoded_section(values.subrange(0, 8)))
    &&& checksum_ok(decoded_section(values.subrange(8, 16)))
    &&& checksum_ok(decoded_section(values.subrange(16, 24)))
}

/// Decodes a password given as its characters.
///
/// Fails with `InvalidPasswordLength` where there are not twenty-four of
/// them, with `InvalidCharacter` where one is no symbol, and with
/// `ChecksumMismatch` where a section has a wrong check sum.
pub fn decode_password(password: &Vec<char>) -> (r: Result<Vec<u8>, NeutopiaError>)
    ensures
        password@.len() != PASSWORD_LEN ==> r == Err::<Vec<u8>, NeutopiaError>(
            NeutopiaError::InvalidPasswordLength,
        ),
        password@.len() == PASSWORD_LEN && symbol_values(password@) is None ==> r == Err::<
            Vec<u8>,
            NeutopiaError,
        >(NeutopiaError::InvalidCharacter),
        password@.len() == PASSWORD_LEN && symbol_values(password@) is Some ==> {
            let values = symbol_values(password@)->Some_0;
            if password_ok(values) {
                r is Ok && r->Ok_0@ == decoded_password(values)
            } else {
                r == Err::<Vec<u8>, NeutopiaError>(NeutopiaError::ChecksumMismatch)
            }
        },
{
    if password.len() != PASSWORD_LEN {
        return Err(NeutopiaError::InvalidPasswordLength);
    }
    let mut bytes: Vec<u8> = Vec::new();
    let mut i: usize = 0;
    assert(password@.subrange(0, 0) =~= Seq::<char>::empty());
    while i < password.len()
        invariant
            i <= password@.len(),
            password@.len() == PASSWORD_LEN,
            symbol_values(password@.subrange(0, i as int)) == Some(bytes@),
            bytes@.len() == i,
            forall|j: int| 0 <= j < i ==> bytes@[j] < 64,
        decreases password@.len() - i,
    {
        proof {
            let next = password@.subrange(0, i + 1);
            assert(next.drop_last() =~= password@.subrange(0, i as int));
            assert(next.last() == password@[i as int]);
        }
        match decode_char(password[i]) {
            Ok(v) => bytes.push(v),
            Err(e) => {
                proof {
                    lemma_symbol_values_none(password@, i as int);
                }
                return Err(e);
            },
        }
        i = i + 1;
    }
    assert(password@.subrange(0, i as int) =~= password@);
    let ghost values = bytes@;
    let first = decode_section(&mut bytes, 0);
    assert(bytes@.subrange(8, 16) =~= values.subrange(8, 16));
    let second = decode_section(&mut bytes, 8);
    assert(bytes@.subrange(16, 24) =~= values.subrange(16, 24));
    let third = decode_section(&mut bytes, 16);
    assert(bytes@ =~= decoded_password(values)) by {
        assert(bytes@.subrange(0, 8) =~= decoded_section(values.subrange(0, 8)));
        assert(bytes@.subrange(8, 16) =~= decoded_section(values.subrange(8, 16)));
        assert(bytes@ =~= bytes@.subrange(0, 8) + bytes@.subrange(8, 16) + bytes@.subrange(
            16,
            24,
        ));
    }
    match (first, second, third) {
        (Ok(()), Ok(()), Ok(())) => Ok(bytes),
        _ => Err(NeutopiaError::ChecksumMismatch),
    }
}

/// A text with a character that is no symbol has no symbol values.
pub proof fn lemma_symbol_values_none(text: Seq<char>, i: int)
    requires
        0 <= i < text.len(),
        symbol_value(text[i]) is None,
    ensures
        symbol_values(text) is None,
    decreases text.len(),
{
    if i < text.len() - 1 {
        lemma_symbol_values_none(text.drop_last(), i);
    }
}

} // verus!
