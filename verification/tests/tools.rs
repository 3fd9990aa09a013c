use neutopia::asm_build::{diff_images, write_ips};
use neutopia::error::NeutopiaError;
use neutopia::password::{decode_char, decode_password, decode_section, salt_byte};
use neutopia::patch::{apply_hunks, apply_patch, apply_patches, Hunk};
use neutopia::semver::{mode_of, parse_semver, Captured, WebsiteMode};
use neutopia::verify::{identify, to_hex, verify, Region};

const NA_DIGEST: [u8; 16] = [
    0xeb, 0x07, 0x89, 0x08, 0x8f, 0xc7, 0x0b, 0xe4, 0x2b, 0x2f, 0x99, 0x4c, 0x1b, 0x66, 0xbe, 0x21,
];
const JP_DIGEST: [u8; 16] = [
    0x08, 0xae, 0x17, 0x38, 0x78, 0xd8, 0xa3, 0x78, 0x3f, 0xa3, 0x5e, 0x80, 0xc9, 0x9a, 0x5d, 0xc4,
];

#[test]
fn an_image_of_zeros_is_not_recognized() {
    let data = vec![0u8; 384 * 1024];
    let info = verify(&data).unwrap();
    assert!(!info.known);
    assert!(!info.headered);
    assert_eq!(info.region, Region::Unknown);
    assert_eq!(info.desc, "Unrecognized ROM");
    assert_eq!(info.md5_hash, format!("{:x}", md5::compute(&data)));
    assert_eq!(info.md5_hash.len(), 32);
}

#[test]
fn the_digest_is_that_of_the_image_without_its_header() {
    let mut data = vec![0x5au8; 0x200];
    let body: Vec<u8> = (0..384 * 1024).map(|i| (i % 251) as u8).collect();
    data.extend_from_slice(&body);
    let info = verify(&data).unwrap();
    assert!(info.headered);
    assert!(!info.known);
    assert_eq!(info.md5_hash, format!("{:x}", md5::compute(&body)));
    let bare = verify(&body).unwrap();
    assert!(!bare.headered);
    assert_eq!(bare.md5_hash, info.md5_hash);
    assert!(bare.md5_hash != format!("{:x}", md5::compute(&data)));
}

#[test]
fn an_image_of_another_size_is_refused() {
    assert_eq!(verify(&[]).err(), Some(NeutopiaError::InvalidRomSize));
    assert_eq!(verify(&vec![0u8; 384 * 1024 - 1]).err(), Some(NeutopiaError::InvalidRomSize));
    assert_eq!(verify(&vec![0u8; 384 * 1024 + 1]).err(), Some(NeutopiaError::InvalidRomSize));
    assert_eq!(verify(&vec![0u8; 384 * 1024 + 0x201]).err(), Some(NeutopiaError::InvalidRomSize));
    assert!(verify(&vec![0u8; 384 * 1024 + 0x200]).is_ok());
}

#[test]
fn the_known_images_are_told_by_their_digest() {
    let na = identify(false, &NA_DIGEST);
    assert!(na.known);
    assert!(!na.headered);
    assert_eq!(na.region, Region::NA);
    assert_eq!(na.desc, "Neutopia (U)");
    assert_eq!(na.md5_hash, "eb0789088fc70be42b2f994c1b66be21");
    let jp = identify(true, &JP_DIGEST);
    assert!(jp.known);
    assert!(jp.headered);
    assert_eq!(jp.region, Region::JP);
    assert_eq!(jp.desc, "Neutopia (J)");
    assert_eq!(jp.md5_hash, "08ae173878d8a3783fa35e80c99a5dc4");
    let mut other = NA_DIGEST;
    other[15] = 0x22;
    let unknown = identify(false, &other);
    assert!(!unknown.known);
    assert_eq!(unknown.region, Region::Unknown);
    assert_eq!(unknown.desc, "Unrecognized ROM");
    assert_eq!(unknown.md5_hash, "eb0789088fc70be42b2f994c1b66be22");
    assert!(!identify(false, &NA_DIGEST[..15]).known);
}

#[test]
fn hexadecimal_text_has_two_small_digits_per_byte() {
    assert_eq!(to_hex(&[]), "");
    assert_eq!(to_hex(&[0x00, 0x0f, 0xa0, 0xff, 0x19]), "000fa0ff19");
}

fn patch(records: &[(usize, &[u8])]) -> Vec<u8> {
    let mut data = b"PATCH".to_vec();
    for (offset, payload) in records {
        data.extend_from_slice(&[(offset >> 16) as u8, (offset >> 8) as u8, *offset as u8]);
        data.extend_from_slice(&[(payload.len() >> 8) as u8, payload.len() as u8]);
        data.extend_from_slice(payload);
    }
    data.extend_from_slice(b"EOF");
    data
}

#[test]
fn a_patch_overwrites_the_bytes_at_its_offsets() {
    let mut buf = vec![0u8; 0x120];
    let data = patch(&[(2, &[0xaa, 0xbb, 0xcc]), (0x101, &[0x11]), (3, &[0xdd])]);
    assert_eq!(apply_patch(&mut buf, &data), Ok(()));
    let mut want = vec![0u8; 0x120];
    want[2] = 0xaa;
    want[3] = 0xdd;
    want[4] = 0xcc;
    want[0x101] = 0x11;
    assert_eq!(buf, want);
}

#[test]
fn a_run_length_record_repeats_its_byte() {
    let mut data = b"PATCH".to_vec();
    data.extend_from_slice(&[0x00, 0x00, 0x10, 0x00, 0x00, 0x00, 0x04, 0xee]);
    data.extend_from_slice(b"EOF");
    let mut buf = vec![1u8; 0x20];
    assert_eq!(apply_patch(&mut buf, &data), Ok(()));
    let mut want = vec![1u8; 0x20];
    for i in 0x10..0x14 {
        want[i] = 0xee;
    }
    assert_eq!(buf, want);
}

#[test]
fn bytes_that_are_no_patch_change_nothing() {
    let mut buf = vec![7u8; 8];
    assert_eq!(apply_patch(&mut buf, b"PATCHEO"), Err(NeutopiaError::InvalidPatch));
    assert_eq!(apply_patch(&mut buf, b"patch"), Err(NeutopiaError::InvalidPatch));
    assert_eq!(apply_patch(&mut buf, b""), Err(NeutopiaError::InvalidPatch));
    assert_eq!(buf, vec![7u8; 8]);
    assert_eq!(apply_patch(&mut buf, b"PATCHEOF"), Ok(()));
    assert_eq!(buf, vec![7u8; 8]);
}

#[test]
fn a_record_past_the_end_is_cut_and_ends_the_patching() {
    let mut buf = vec![0u8; 0x20];
    let data = patch(&[(1, &[1]), (0x1e, &[2, 3, 4, 5]), (4, &[6])]);
    assert_eq!(apply_patch(&mut buf, &data), Err(NeutopiaError::PatchOutOfBounds));
    let mut want = vec![0u8; 0x20];
    want[1] = 1;
    want[0x1e] = 2;
    want[0x1f] = 3;
    assert_eq!(buf, want);
    let mut buf = vec![0u8; 4];
    let hunks = vec![Hunk { offset: 9, payload: vec![1] }];
    assert_eq!(apply_hunks(&mut buf, &hunks), Err(NeutopiaError::PatchOutOfBounds));
    assert_eq!(buf, vec![0u8; 4]);
    let hunks = vec![Hunk { offset: 9, payload: vec![] }, Hunk { offset: 3, payload: vec![8] }];
    assert_eq!(apply_hunks(&mut buf, &hunks), Ok(()));
    assert_eq!(buf, vec![0, 0, 0, 8]);
}

#[test]
fn patches_are_applied_in_order() {
    let mut buf = vec![0u8; 8];
    let patches = vec![
        patch(&[(0, &[1, 1, 1])]),
        patch(&[(1, &[2, 2])]),
        patch(&[(2, &[3])]),
    ];
    assert_eq!(apply_patches(&mut buf, &patches), Ok(()));
    assert_eq!(buf, vec![1, 2, 3, 0, 0, 0, 0, 0]);
    let mut buf = vec![0u8; 8];
    let patches = vec![patch(&[(0, &[1])]), b"nothing".to_vec(), patch(&[(1, &[2])])];
    assert_eq!(apply_patches(&mut buf, &patches), Err(NeutopiaError::InvalidPatch));
    assert_eq!(buf, vec![1, 0, 0, 0, 0, 0, 0, 0]);
    let mut buf = vec![0u8; 8];
    assert_eq!(apply_patches(&mut buf, &vec![]), Ok(()));
    assert_eq!(buf, vec![0u8; 8]);
}

#[test]
fn password_symbols() {
    assert_eq!(decode_char('A'), Ok(0));
    assert_eq!(decode_char('Z'), Ok(25));
    assert_eq!(decode_char('1'), Ok(26));
    assert_eq!(decode_char('9'), Ok(34));
    assert_eq!(decode_char('a'), Ok(35));
    assert_eq!(decode_char('z'), Ok(60));
    assert_eq!(decode_char('#'), Ok(61));
    assert_eq!(decode_char('$'), Ok(62));
    assert_eq!(decode_char('%'), Ok(63));
    assert_eq!(decode_char('0'), Err(NeutopiaError::InvalidCharacter));
    assert_eq!(decode_char(' '), Err(NeutopiaError::InvalidCharacter));
    assert_eq!(decode_char('é'), Err(NeutopiaError::InvalidCharacter));
}

#[test]
fn salts_are_read_at_six_bits() {
    assert_eq!(salt_byte(0), 0x1f);
    assert_eq!(salt_byte(1), 0x3a);
    assert_eq!(salt_byte(62), 0x12);
    assert_eq!(salt_byte(63), 0x00);
    assert_eq!(salt_byte(64), 0x1f);
    assert_eq!(salt_byte(0xff), 0x00);
}

#[test]
fn a_section_of_salts_decodes_to_zeros() {
    let mut data = vec![9, 0x00, 0x1f, 0x3a, 0x06, 0x3f, 0x21, 0x3f, 0x30, 9];
    assert_eq!(decode_section(&mut data, 1), Ok(()));
    assert_eq!(data, vec![9, 0, 0, 0, 0, 0, 0, 0, 0, 9]);
}

fn encode_section(decoded: [u8; 8]) -> Vec<u8> {
    let mut chained = decoded;
    for i in 1..7 {
        chained[i] = decoded[i] ^ chained[i - 1];
    }
    let mut salt = chained[0];
    for i in 1..8 {
        chained[i] ^= salt_byte(salt);
        salt = (salt + 1) & 0x3f;
    }
    chained.to_vec()
}

#[test]
fn a_section_decodes_to_what_was_encoded() {
    let decoded = [0x3e, 0x01, 0x20, 0x15, 0x0a, 0x3f, 0x07, (0x3e + 1 + 0x20 + 0x15 + 0xa + 0x3f + 7) & 0x3f];
    let mut data = encode_section(decoded);
    assert_eq!(decode_section(&mut data, 0), Ok(()));
    assert_eq!(data, decoded.to_vec());
    let mut wrong = decoded;
    wrong[7] ^= 1;
    let mut data = encode_section(wrong);
    assert_eq!(decode_section(&mut data, 0), Err(NeutopiaError::ChecksumMismatch));
    assert_eq!(data, wrong.to_vec());
}

#[test]
fn a_password_is_three_sections() {
    let password: Vec<char> = "A6xG%8%nA6xG%8%nA6xG%8%n".chars().collect();
    assert_eq!(decode_password(&password), Ok(vec![0u8; 24]));
    let short: Vec<char> = "A6xG%8%n".chars().collect();
    assert_eq!(decode_password(&short), Err(NeutopiaError::InvalidPasswordLength));
    let bad: Vec<char> = "A6xG%8%nA6xG%8%nA6xG%8 n".chars().collect();
    assert_eq!(decode_password(&bad), Err(NeutopiaError::InvalidCharacter));
    let wrong: Vec<char> = "A6xG%8%nA6xG%8%oA6xG%8%n".chars().collect();
    assert_eq!(decode_password(&wrong), Err(NeutopiaError::ChecksumMismatch));
}

fn views(hunks: &[Hunk]) -> Vec<(usize, Vec<u8>)> {
    hunks.iter().map(|h| (h.offset, h.payload.clone())).collect()
}

#[test]
fn agreeing_bytes_are_gathered_into_runs() {
    let zeros = [0, 5, 6, 0, 0, 7, 0, 8, 9];
    let effs = [0xff, 5, 6, 0xff, 0xff, 7, 0xff, 8, 9];
    let hunks = diff_images(&zeros, &effs).unwrap();
    assert_eq!(
        views(&hunks),
        vec![(1, vec![5, 6]), (5, vec![7]), (7, vec![8, 9])]
    );
    assert_eq!(views(&diff_images(&[1, 2], &[1, 2]).unwrap()), vec![(0, vec![1, 2])]);
    assert_eq!(views(&diff_images(&[], &[]).unwrap()), vec![]);
    assert_eq!(views(&diff_images(&[0, 0], &[1, 1]).unwrap()), vec![]);
    assert_eq!(diff_images(&[0], &[0, 0]).err(), Some(NeutopiaError::LengthMismatch));
}

#[test]
fn a_patch_is_written_record_by_record() {
    let hunks = vec![
        Hunk { offset: 0x012345, payload: vec![0xaa, 0xbb] },
        Hunk { offset: 7, payload: vec![0x01; 0x102] },
    ];
    let out = write_ips(&hunks);
    let mut want = b"PATCH".to_vec();
    want.extend_from_slice(&[0x01, 0x23, 0x45, 0x00, 0x02, 0xaa, 0xbb]);
    want.extend_from_slice(&[0x00, 0x00, 0x07, 0x01, 0x02]);
    want.extend_from_slice(&[0x01; 0x102]);
    want.extend_from_slice(b"EOF");
    assert_eq!(out, want);
    assert_eq!(write_ips(&vec![]), b"PATCHEOF".to_vec());
}

#[test]
fn a_written_patch_applies_what_was_found() {
    let zeros = [0, 5, 6, 0, 0, 7, 0, 8, 9];
    let effs = [0xff, 5, 6, 0xff, 0xff, 7, 0xff, 8, 9];
    let data = write_ips(&diff_images(&zeros, &effs).unwrap());
    let mut buf = vec![0x33u8; 9];
    assert_eq!(apply_patch(&mut buf, &data), Ok(()));
    assert_eq!(buf, vec![0x33, 5, 6, 0x33, 0x33, 7, 0x33, 8, 9]);
}

#[test]
fn test_website_mode() {
    assert_eq!(parse_semver("v0.1.0-beta1"), WebsiteMode::Beta);
    assert_eq!(parse_semver("v0.1.0"), WebsiteMode::Release);
    assert_eq!(parse_semver("UNKNOWN"), WebsiteMode::Dev);
}

#[test]
fn versions_need_three_numbers() {
    assert_eq!(parse_semver("v10.20.30"), WebsiteMode::Release);
    assert_eq!(parse_semver("v1.2"), WebsiteMode::Dev);
    assert_eq!(parse_semver("1.2.3"), WebsiteMode::Dev);
    assert_eq!(parse_semver("v1.2.3-"), WebsiteMode::Beta);
    assert_eq!(parse_semver("v1.2.3+4"), WebsiteMode::Dev);
    assert_eq!(parse_semver(""), WebsiteMode::Dev);
    assert_eq!(mode_of(Captured::BadPattern), WebsiteMode::Dev);
    assert_eq!(mode_of(Captured::NoMatch), WebsiteMode::Dev);
    assert_eq!(mode_of(Captured::Matched { with_group: true }), WebsiteMode::Beta);
    assert_eq!(mode_of(Captured::Matched { with_group: false }), WebsiteMode::Release);
}
