use papers_tools::art::{entry_name, escapes_root, pack_art, split_entries, unpack_art};
use papers_tools::crypto::{decrypt, encrypt, key_from_digest, to_key_array};
use papers_tools::error::Error;
use papers_tools::command::{file_kind, patch_action, FileKind, PatchAction};
use papers_tools::assets::{AlignedString, AlignmentArgs};
use papers_tools::binio::Endian;

fn reference_encrypt(key: &[u32], v: &mut [u32]) {
    let n = v.len();
    let rounds = 6 + 52 / n;
    let mut sum: u32 = 0;
    let mut z = v[n - 1];
    for _ in 0..rounds {
        sum = sum.wrapping_add(0x9e3779b9);
        let e = (sum >> 2) as usize;
        for r in 0..n {
            let y = v[(r + 1) % n];
            let mx = (((z >> 5) ^ (y << 2)).wrapping_add((y >> 3) ^ (z << 4)))
                ^ ((sum ^ y).wrapping_add(key[(r ^ e) & 3] ^ z));
            v[r] = v[r].wrapping_add(mx);
            z = v[r];
        }
    }
}

fn words(b: &[u8]) -> Vec<u32> {
    b.chunks(4).map(|c| u32::from_le_bytes([c[0], c[1], c[2], c[3]])).collect()
}

#[test]
fn key_schedule_is_md5_in_big_endian_words() {
    let key = to_key_array("ABCDEF0123456789");
    let d = md5::compute("ABCDEF0123456789").0;
    let expected: Vec<u32> = d
        .chunks(4)
        .map(|c| u32::from_be_bytes([c[0], c[1], c[2], c[3]]))
        .collect();
    assert_eq!(key.len(), 4);
    assert_eq!(key, expected);
}

#[test]
fn key_from_digest_splits_big_endian() {
    let d: Vec<u8> = (1u8..=16).collect();
    assert_eq!(
        key_from_digest(&d),
        vec![0x01020304, 0x05060708, 0x090a0b0c, 0x0d0e0f10]
    );
}

#[test]
fn cipher_vector_zero_block() {
    let key = to_key_array("ABCDEF0123456789");
    let mut block = vec![0u8; 16];
    encrypt(&key, &mut block);
    let mut expected = vec![0u32; 4];
    reference_encrypt(&key, &mut expected);
    assert_eq!(words(&block), expected);
    assert_ne!(block, vec![0u8; 16]);
    decrypt(&key, &mut block);
    assert_eq!(block, vec![0u8; 16]);
}

#[test]
fn cipher_round_trip_and_trailing_bytes() {
    let key = to_key_array("some key");
    let original: Vec<u8> = (0..27u32).map(|i| (i * 37 % 251) as u8).collect();
    let mut block = original.clone();
    encrypt(&key, &mut block);
    assert_eq!(&block[24..], &original[24..]);
    assert_ne!(&block[..24], &original[..24]);
    decrypt(&key, &mut block);
    assert_eq!(block, original);
}

#[test]
fn art_round_trip_two_files() {
    let key = to_key_array("ABCDEF0123456789");
    let header = b"ay15:assets%2Fa%2Fb.txti3gay12:assets%2Fc.bini1gh".to_vec();
    let mut payload = b"hi\n".to_vec();
    payload.push(0u8);
    let packed = pack_art(&key, &header, &payload).unwrap();
    assert_eq!(packed.len(), 2 + header.len() + payload.len());
    let (h, body) = unpack_art(&key, &packed).unwrap();
    assert_eq!(h, header);
    assert_eq!(body, payload);
    let pieces = split_entries(&body, &vec![3, 1]).unwrap();
    assert_eq!(pieces, vec![b"hi\n".to_vec(), vec![0u8]]);
}

#[test]
fn entry_names_get_assets_prefix() {
    assert_eq!(entry_name(b"a/b.txt"), b"assets/a/b.txt".to_vec());
    assert_eq!(entry_name(b"c.bin"), b"assets/c.bin".to_vec());
    assert_eq!(entry_name(b"a\\b.txt"), b"assets/a/b.txt".to_vec());
    assert_eq!(entry_name(b"assets/x.png"), b"assets/assets/x.png".to_vec());
}

#[test]
fn traversal_guard() {
    assert!(escapes_root(b"../x"));
    assert!(escapes_root(b"a/../../x"));
    assert!(escapes_root(b"/etc/passwd"));
    assert!(!escapes_root(b"assets/a/b.txt"));
    assert!(!escapes_root(b"a/../b/c"));
    assert!(!escapes_root(b"./a/./b"));
    assert!(!escapes_root(b".."));
}

#[test]
fn art_errors() {
    let key = to_key_array("k");
    assert_eq!(unpack_art(&key, &[1u8, 2, 3]), Err(Error::MalformedInput));
    let big = vec![b'a'; 70000];
    assert_eq!(pack_art(&key, &big, &[]), Err(Error::InputError));
    assert_eq!(split_entries(&[1u8, 2, 3], &vec![2, 2]), Err(Error::IntegrityError));
    let mut bad = vec![0xffu8, 0xff, 0, 0, 0, 0, 0, 0];
    encrypt(&key, &mut bad);
    assert_eq!(unpack_art(&key, &bad), Err(Error::MalformedInput));
}

#[test]
fn patch_actions_by_extension() {
    assert_eq!(patch_action(b"png"), Ok(PatchAction::Replace));
    assert_eq!(patch_action(b"csv"), Ok(PatchAction::Replace));
    assert_eq!(patch_action(b"txt"), Ok(PatchAction::Replace));
    assert_eq!(patch_action(b"xml"), Ok(PatchAction::Merge));
    assert_eq!(patch_action(b"fnt"), Ok(PatchAction::Merge));
    assert_eq!(patch_action(b"ogg"), Err(Error::UnsupportedFormat));
    assert_eq!(patch_action(b""), Err(Error::UnsupportedFormat));
}

#[test]
fn file_kinds_by_extension() {
    assert_eq!(file_kind(b"dat", true), Ok(FileKind::ArtDat));
    assert_eq!(file_kind(b"txt", false), Ok(FileKind::ArtDat));
    assert_eq!(file_kind(b"assets", true), Ok(FileKind::Assets));
    assert_eq!(file_kind(b"assets", false), Err(Error::InputError));
    assert_eq!(file_kind(b"zip", true), Err(Error::InputError));
}

#[test]
fn aligned_string_pads_after_payload() {
    let mut out = Vec::new();
    AlignedString("Art.dat".to_string()).write_to(Endian::Little, AlignmentArgs::new(4), &mut out);
    assert_eq!(out, b"\x07\x00\x00\x00Art.dat\x00".to_vec());
    let mut out = vec![1u8];
    AlignedString("ab".to_string()).write_to(Endian::Big, AlignmentArgs::default(), &mut out);
    assert_eq!(out, vec![1, 0, 0, 0, 2, b'a', b'b', 0]);
}

#[test]
fn art_images_under_two_words_are_refused() {
    let key = to_key_array("k");
    assert_eq!(pack_art(&key, b"ah", b""), Err(Error::InputError));
    assert_eq!(pack_art(&key, b"ah", b"123"), Err(Error::InputError));
    assert!(pack_art(&key, b"ah", b"1234").is_ok());
}
