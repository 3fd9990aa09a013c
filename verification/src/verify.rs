//! Recognition of cartridge images by size and digest.

use vstd::prelude::*;
use vstd::string::StringExecFns;

use crate::error::NeutopiaError;

verus! {

/// The region that a known image was released in.
#[derive(Clone, Copy, Debug, PartialEq, Eq, Structural)]
pub enum Region {
    NA,
    JP,
    Unknown,
}

/// What is known of an image.
pub struct RomInfo {
    pub headered: bool,
    pub md5_hash: String,
    pub known: bool,
    pub desc: String,
    pub region: Region,
}

/// The mathematical content of a [`RomInfo`].
pub struct RomInfoModel {
    pub headered: bool,
    pub md5_hash: Seq<char>,
    pub known: bool,
    pub desc: Seq<char>,
    pub region: Region,
}

impl View for RomInfo {
    type V = RomInfoModel;

    open spec fn view(&self) -> RomInfoModel {
        RomInfoModel {
            headered: self.headered,
            md5_hash: self.md5_hash@,
            known: self.known,
            desc: self.desc@,
            region: self.region,
        }
    }
}

/// The size in bytes of a cartridge image.
pub const ROM_SIZE: usize = 0x60000;

/// The size in bytes of the header that may precede an image.
pub const HEADER_SIZE: usize = 0x200;

/// The MD5 digest of a byte sequence: sixteen bytes.
pub uninterp spec fn md5_of(data: Seq<u8>) -> Seq<u8>;

/// Computes the MD5 digest of `data` with `md5::compute`. The contract
/// names the sixteen bytes of the digest `md5_of(data)`: the digest is a
/// function of the bytes alone.
#[verifier::external_body]
fn md5_digest(data: &[u8]) -> (digest: [u8; 16])
    ensures
        digest@ == md5_of(data@),
{
    md5::compute(data).0
}

/// The digest of the known image of the NA region.
pub open spec fn na_digest() -> Seq<u8> {
    seq![
        0xebu8, 0x07, 0x89, 0x08, 0x8f, 0xc7, 0x0b, 0xe4, 0x2b, 0x2f, 0x99, 0x4c, 0x1b, 0x66, 0xbe,
        0x21,
    ]
}

/// The digest of the known image of the JP region.
pub open spec fn jp_digest() -> Seq<u8> {
    seq![
        0x08u8, 0xae, 0x17, 0x38, 0x78, 0xd8, 0xa3, 0x78, 0x3f, 0xa3, 0x5e, 0x80, 0xc9, 0x9a, 0x5d,
        0xc4,
    ]
}

/// The text of one hexadecimal digit, in lower case.
pub open spec fn hex_digit(d: nat) -> Seq<char> {
    if d == 0 {
        "0"@
    } else if d == 1 {
        "1"@
    } else if d == 2 {
        "2"@
    } else if d == 3 {
        "3"@
    } else if d == 4 {
        "4"@
    } else if d == 5 {
        "5"@
    } else if d == 6 {
        "6"@
    } else if d == 7 {
        "7"@
    } else if d == 8 {
        "8"@
    } else if d == 9 {
        "9"@
    } else if d == 10 {
        "a"@
    } else if d == 11 {
        "b"@
    } else if d == 12 {
        "c"@
    } else if d == 13 {
        "d"@
    } else if d == 14 {
        "e"@
    } else {
        "f"@
    }
}

/// The hexadecimal text of a byte sequence: two digits per byte, in lower
/// case.
pub open spec fn hex_text(bytes: Seq<u8>) -> Seq<char>
    decreases bytes.len(),
{
    if bytes.len() == 0 {
        Seq::empty()
    } else {
        hex_text(bytes.drop_last()) + hex_digit((bytes.last() / 16) as nat) + hex_digit(
            (bytes.last() % 16) as nat,
        )
    }
}

/// Appends the text of one hexadecimal digit to `s`.
pub fn push_hex_digit(s: &mut String, d: u8)
    requires
        d < 16,
    ensures
        final(s)@ == old(s)@ + hex_digit(d as nat),
{
    if d == 0 {
        s.append("0");
    } else if d == 1 {
        s.append("1");
    } else if d == 2 {
        s.append("2");
    } else if d == 3 {
        s.append("3");
    } else if d == 4 {
        s.append("4");
    } else if d == 5 {
        s.append("5");
    } else if d == 6 {
        s.append("6");
    } else if d == 7 {
        s.append("7");
    } else if d == 8 {
        s.append("8");
    } else if d == 9 {
        s.append("9");
    } else if d == 10 {
        s.append("a");
    } else if d == 11 {
        s.append("b");
    } else if d == 12 {
        s.append("c");
    } else if d == 13 {
        s.append("d");
    } else if d == 14 {
        s.append("e");
    } else {
        s.append("f");
    }
}

/// The hexadecimal text of `bytes`.
pub fn to_hex(bytes: &[u8]) -> (text: String)
    ensures
        text@ == hex_text(bytes@),
{
    let mut text = String::new();
    let mut i: usize = 0;
    assert(bytes@.subrange(0, 0) =~= Seq::<u8>::empty());
    while i < bytes.len()
        invariant
            i <= bytes@.len(),
            text@ == hex_text(bytes@.subrange(0, i as int)),
        decreases bytes@.len() - i,
    {
        let b: u8 = bytes[i];
        push_hex_digit(&mut text, b / 16);
        push_hex_digit(&mut text, b % 16);
        proof {
            let next = bytes@.subrange(0, i + 1);
            assert(next.drop_last() =~= bytes@.subrange(0, i as int));
            assert(next.last() == b);
        }
        i = i + 1;
    }
    assert(bytes@.subrange(0, i as int) =~= bytes@);
    text
}

/// What is known of an image with the given digest.
pub open spec fn rom_info(headered: bool, digest: Seq<u8>) -> RomInfoModel {
    if digest == na_digest() {
        RomInfoModel {
            headered,
            md5_hash: hex_text(digest),
            known: true,
            desc: "Neutopia (U)"@,
            region: Region::NA,
        }
    } else if digest == jp_digest() {
        RomInfoModel {
            headered,
            md5_hash: hex_text(digest),
            known: true,
            desc: "Neutopia (J)"@,
            region: Region::JP,
        }
    } else {
        RomInfoModel {
            headered,
            md5_hash: hex_text(digest),
            known: false,
            desc: "Unrecognized ROM"@,
            region: Region::Unknown,
        }
    }
}

fn same_bytes(a: &[u8], b: &[u8]) -> (r: bool)
    ensures
        r == (a@ == b@),
{
    if a.len() != b.len() {
        return false;
    }
    let mut i: usize = 0;
    while i < a.len()
        invariant
            i <= a@.len(),
            a@.len() == b@.len(),
            forall|j: int| 0 <= j < i ==> a@[j] == b@[j],
        decreases a@.len() - i,
    {
        if a[i] != b[i] {
            return false;
        }
        i = i + 1;
    }
    assert(a@ =~= b@);
    true
}

/// Looks a digest up among the known images.
pub fn identify(headered: bool, digest: &[u8]) -> (info: RomInfo)
    ensures
        info@ == rom_info(headered, digest@),
{
    let na: [u8; 16] = [
        0xeb, 0x07, 0x89, 0x08, 0x8f, 0xc7, 0x0b, 0xe4, 0x2b, 0x2f, 0x99, 0x4c, 0x1b, 0x66, 0xbe,
        0x21,
    ];
    let jp: [u8; 16] = [
        0x08, 0xae, 0x17, 0x38, 0x78, 0xd8, 0xa3, 0x78, 0x3f, 0xa3, 0x5e, 0x80, 0xc9, 0x9a, 0x5d,
        0xc4,
    ];
    assert(na@ =~= na_digest());
    assert(jp@ =~= jp_digest());
    let md5_hash = to_hex(digest);
    if same_bytes(digest, na.as_slice()) {
        RomInfo {
            headered,
            md5_hash,
            known: true,
            desc: String::from_str("Neutopia (U)"),
            region: Region::NA,
        }
    } else if same_bytes(digest, jp.as_slice()) {
        RomInfo {
            headered,
            md5_hash,
            known: true,
            desc: String::from_str("Neutopia (J)"),
            region: Region::JP,
        }
    } else {
        RomInfo {
            headered,
            md5_hash,
            known: false,
            desc: String::from_str("Unrecognized ROM"),
            region: Region::Unknown,
        }
    }
}

/// The image proper within `data`: all of it, or what follows the header.
pub open spec fn rom_body(data: Seq<u8>) -> Seq<u8> {
    if data.len() == ROM_SIZE + HEADER_SIZE {
        data.skip(HEADER_SIZE as int)
    } else {
        data
    }
}

/// Whether `data` has the size of an image, bare or headered.
pub open spec fn valid_size(data: Seq<u8>) -> bool {
    data.len() == ROM_SIZE || data.len() == ROM_SIZE + HEADER_SIZE
}

/// Says what is known of an image: whether it has a header, and which known
/// image its digest is that of, if any.
///
/// Fails with `InvalidRomSize` where `data` has neither the bare nor the
/// headered size.
pub fn verify(data: &[u8]) -> (r: Result<RomInfo, NeutopiaError>)
    ensures
        match r {
            Ok(info) => valid_size(data@) && info@ == rom_info(
                data@.len() == ROM_SIZE + HEADER_SIZE,
                md5_of(rom_body(data@)),
            ),
            Err(e) => !valid_size(data@) && e == NeutopiaError::InvalidRomSize,
        },
{
    if data.len() == ROM_SIZE {
        let digest = md5_digest(data);
        Ok(identify(false, digest.as_slice()))
    } else if data.len() == ROM_SIZE + HEADER_SIZE {
        let body = vstd::slice::slice_subrange(data, HEADER_SIZE, data.len());
        assert(body@ =~= rom_body(data@));
        let digest = md5_digest(body);
        Ok(identify(true, digest.as_slice()))
    } else {
        Err(NeutopiaError::InvalidRomSize)
    }
}

} // verus!
