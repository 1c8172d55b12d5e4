//! Unlocking a volume, with a stand-in for the key derivation and the hash.

use kernel_fs::block::MemoryBlockDevice;
use kernel_fs::error::Error;
use kernel_fs::luks2::open::{
    af_merge, digest_agrees, luks2_finish, luks2_open, unwrap_key, Luks2Volume,
};
use kernel_fs::luks2::params::{
    get_json_size_from_json, get_payload_offset_from_json, parse_digest, parse_keyslot,
    parse_luks2_header, Luks2Header,
};

const METADATA: &str =
    "{\"keyslots\":{\"0\":{\"type\":\"luks2\",\"key_size\":64,\
\"af\":{\"type\":\"luks1\",\"stripes\":8,\"hash\":\"sha256\"},\
\"area\":{\"type\":\"raw\",\"offset\":\"8192\",\"size\":\"4096\"},\
\"kdf\":{\"type\":\"pbkdf2\",\"hash\":\"sha256\",\"iterations\":1000,\"salt\":\"c2FsdA==\"}}},\
\"digests\":{\"0\":{\"type\":\"pbkdf2\",\"hash\":\"sha256\",\"iterations\":2000,\
\"salt\":\"ZGlnZXN0\",\"digest\":\"AQID\"}},\
\"segments\":{\"0\":{\"type\":\"crypt\",\"offset\":\"16384\",\"size\":\"dynamic\"}},\
\"config\":{\"json_size\":\"600\",\"keyslots_size\":\"4096\"}}";

/// A device with this metadata at byte 4096 and the eight stripes at byte 8192.
fn device_with(metadata: &str) -> MemoryBlockDevice {
    let mut image = vec![0_u8; 512 * 64];
    image[0..6].copy_from_slice(&[0x4C, 0x55, 0x4B, 0x53, 0xBA, 0xBE]);
    image[6..8].copy_from_slice(&2_u16.to_be_bytes());
    image[8..16].copy_from_slice(&(metadata.len() as u64).to_be_bytes());
    image[16..24].copy_from_slice(&4096_u64.to_be_bytes());
    image[4096..4096 + metadata.len()].copy_from_slice(metadata.as_bytes());
    for index in 0..512 {
        image[8192 + index] = index as u8;
    }
    MemoryBlockDevice::new("crypt", image, true)
}

/// What the stand-in derives from the passphrase `open sesame`.
const DERIVED: u8 = 0x5A;

fn derive(secret: &[u8], salt: &[u8], iterations: u32, len: usize) -> Vec<u8> {
    if salt == b"salt" {
        assert_eq!(iterations, 1000);
        let byte = if secret == b"open sesame" { DERIVED } else { 0 };
        return vec![byte; len];
    }
    assert_eq!(salt, b"digest");
    assert_eq!(iterations, 2000);
    let expected: Vec<u8> = (0..32).map(|index: u8| index ^ DERIVED).collect();
    if secret == expected.as_slice() {
        vec![1, 2, 3]
    } else {
        vec![9; len]
    }
}

fn hash(_bytes: &[u8]) -> [u8; 32] {
    [0xFF; 32]
}

fn error_of(result: Result<Luks2Volume, Error>) -> Error {
    match result {
        Ok(_) => panic!("the volume opened"),
        Err(error) => error,
    }
}

#[test]
fn the_right_passphrase_opens_the_volume() {
    let volume = match luks2_open(&device_with(METADATA), b"open sesame", derive, hash) {
        Ok(volume) => volume,
        Err(error) => panic!("open: {:?}", error),
    };
    assert_eq!(volume.payload_start, 32);
    assert_eq!(volume.payload_blocks, 32);
    let expected: Vec<u8> = (0..64).map(|index: u8| index ^ DERIVED).collect();
    assert_eq!(volume.key, expected);
}

#[test]
fn another_passphrase_is_refused() {
    let result = luks2_open(&device_with(METADATA), b"please", derive, hash);
    assert_eq!(error_of(result), Error::InvalidCredential);
}

#[test]
fn other_hashes_are_unsupported() {
    let metadata = METADATA.replace("\"stripes\":8,\"hash\":\"sha256\"", "\"stripes\":8,\"hash\":\"sha512\"");
    let result = luks2_open(&device_with(&metadata), b"open sesame", derive, hash);
    assert_eq!(error_of(result), Error::Unsupported);
    let metadata = METADATA.replace("\"hash\":\"sha256\",\"iterations\":2000", "\"hash\":\"sha512\",\"iterations\":2000");
    let result = luks2_open(&device_with(&metadata), b"open sesame", derive, hash);
    assert_eq!(error_of(result), Error::Unsupported);
}

#[test]
fn a_volume_without_keyslots_or_digests_is_not_found() {
    let metadata = METADATA.replace("\"keyslots\":{", "\"slots\":{");
    let result = luks2_open(&device_with(&metadata), b"open sesame", derive, hash);
    assert_eq!(error_of(result), Error::NotFound);
    let metadata = METADATA.replace("\"digests\":{", "\"checks\":{");
    let result = luks2_open(&device_with(&metadata), b"open sesame", derive, hash);
    assert_eq!(error_of(result), Error::NotFound);
}

#[test]
fn stripes_must_lie_in_their_area() {
    let metadata = METADATA.replace("\"size\":\"4096\"", "\"size\":\"511\"");
    let result = luks2_open(&device_with(&metadata), b"open sesame", derive, hash);
    assert_eq!(error_of(result), Error::InvalidArgument);
}

#[test]
fn header_is_checked() {
    let device = device_with(METADATA);
    let header = parse_luks2_header(&device).expect("header");
    assert_eq!(
        header,
        Luks2Header {
            json_offset: 4096,
            json_size: METADATA.len() as u64
        }
    );
    let mut image = vec![0_u8; 512];
    let blank = MemoryBlockDevice::new("blank", image.clone(), true);
    assert_eq!(parse_luks2_header(&blank), Err(Error::InvalidArgument));
    image[0..6].copy_from_slice(&[0x4C, 0x55, 0x4B, 0x53, 0xBA, 0xBE]);
    image[7] = 1;
    let older = MemoryBlockDevice::new("older", image, true);
    assert_eq!(parse_luks2_header(&older), Err(Error::Unsupported));
    let short = MemoryBlockDevice::new("short", Vec::new(), true);
    assert!(parse_luks2_header(&short).is_err());
}

#[test]
fn metadata_fields_are_read() {
    let json = METADATA.as_bytes();
    assert_eq!(get_json_size_from_json(json), Some(600));
    assert_eq!(get_payload_offset_from_json(json), Some(16384));
    let slot = parse_keyslot(json).expect("keyslot");
    assert_eq!(slot.area_offset, 8192);
    assert_eq!(slot.area_size, 4096);
    assert_eq!(slot.kdf_salt, b"salt");
    assert_eq!(slot.kdf_iterations, 1000);
    assert_eq!(slot.key_size, 64);
    assert_eq!(slot.af_stripes, 8);
    assert_eq!(slot.af_hash, "sha256");
    let digest = parse_digest(json).expect("digest");
    assert_eq!(digest.salt, b"digest");
    assert_eq!(digest.iterations, 2000);
    assert_eq!(digest.digest, [1, 2, 3]);
    assert_eq!(digest.hash, "sha256");
}

#[test]
fn the_first_stripe_comes_out() {
    let data: Vec<u8> = (0..12).collect();
    assert_eq!(af_merge(&data, 3, 4, &hash), [0, 1, 2, 3]);
    assert!(af_merge(&data, 4, 4, &hash).is_empty());
    assert!(af_merge(&data, 0, 13, &hash).is_empty());
}

#[test]
fn a_key_is_mixed_into_a_buffer_of_64_bytes() {
    let key = unwrap_key(&[0xF0, 0x0F], &[0xFF, 0xFF]);
    assert_eq!(key.len(), 64);
    assert_eq!(key[0..3], [0x0F, 0xF0, 0]);
    assert!(digest_agrees(&[1, 2, 3], &[1, 2]));
    assert!(!digest_agrees(&[1, 3], &[1, 2]));
}

#[test]
fn payload_without_an_offset_starts_at_the_front() {
    let key = vec![7_u8; 80];
    let volume = match luks2_finish(b"{}", 10, &key, &[1], &[1]) {
        Ok(volume) => volume,
        Err(error) => panic!("finish: {:?}", error),
    };
    assert_eq!(volume.payload_start, 0);
    assert_eq!(volume.payload_blocks, 10);
    assert_eq!(volume.key.len(), 64);
    assert_eq!(
        error_of(luks2_finish(b"{}", 10, &key, &[1], &[2])),
        Error::InvalidCredential
    );
}
