//! Names and labels on foreign media need not be proper text. What cannot be read is
//! replaced.

use kernel_fs::error::Error;
use kernel_fs::iso9660::records::{decode_iso_filename, decode_joliet_filename};
use kernel_fs::ntfs::names::parse_reparse_point;
use kernel_fs::simplefs::constants::{
    DIRENT_KIND_OFFSET, DIRENT_NAME_LEN_OFFSET, DIRENT_NAME_OFFSET,
};
use kernel_fs::simplefs::superblock::parse_label;
use kernel_fs::simplefs::tables::decode_dir_entries;

#[test]
fn file_names_in_bytes() {
    assert_eq!(decode_iso_filename(b"READ\xFFME.TXT;1"), "read\u{fffd}me.txt");
    assert_eq!(decode_iso_filename("gr\u{fc}n".as_bytes()), "gr\u{fc}n");
}

#[test]
fn file_names_in_wide_units() {
    assert_eq!(decode_joliet_filename(&[0, b'A', 0x20, 0xAC, 0, b'b']), "A\u{20ac}b");
    assert_eq!(decode_joliet_filename(&[0xD8, 0x00, 0, b'b']), "\u{fffd}b");
    assert_eq!(decode_joliet_filename(&[0xD8, 0x3D, 0xDE, 0x00]), "\u{1f600}");
}

#[test]
fn link_targets_in_wide_units() {
    // Tag, length, then the target's place and length in the data and the target itself.
    let mut buf = vec![0x0C, 0, 0, 0xA0, 20, 0, 0, 0, 16, 0, 4, 0, 0, 0, 0, 0];
    buf.extend_from_slice(&[0; 8]);
    buf.extend_from_slice(&[0x00, 0xDC, b'x', 0]);
    let (tag, target) = parse_reparse_point(&buf).expect("reparse point");
    assert_eq!(tag, 0xA000_000C);
    assert_eq!(target.as_deref(), Some("\u{fffd}x"));
}

#[test]
fn volume_labels() {
    let mut superblock = vec![0_u8; 512];
    assert_eq!(parse_label(&superblock), "");
    superblock.fill(0xFF);
    let label = parse_label(&superblock);
    assert!(!label.is_empty());
    assert!(label.chars().all(|c| c == '\u{fffd}'));
}

#[test]
fn entry_names() {
    let mut table = vec![0_u8; 512];
    table[DIRENT_KIND_OFFSET] = 1;
    table[DIRENT_NAME_LEN_OFFSET] = 2;
    table[DIRENT_NAME_OFFSET] = b'a';
    table[DIRENT_NAME_OFFSET + 1] = 0xC3;
    let entries = decode_dir_entries(&table, 1).expect("entries");
    assert_eq!(entries[0].name, "a\u{fffd}");
    table[DIRENT_NAME_LEN_OFFSET] = 200;
    assert!(matches!(decode_dir_entries(&table, 1), Err(Error::InvalidArgument)));
    table[DIRENT_KIND_OFFSET] = 99;
    assert!(matches!(decode_dir_entries(&table, 1), Err(Error::InvalidArgument)));
}

#[test]
fn halves_of_wide_characters() {
    // A pair, text, a second half on its own, more text, a first half at the end.
    let units: [u16; 9] = [
        0xD834, 0xDD1E, 0x006D, 0x0075, 0x0073, 0xDD1E, 0x0069, 0x0063, 0xD834,
    ];
    let bytes: Vec<u8> = units.iter().flat_map(|unit| unit.to_be_bytes()).collect();
    assert_eq!(decode_joliet_filename(&bytes), "\u{1d11e}mus\u{fffd}ic\u{fffd}");
    assert_eq!(
        decode_joliet_filename(&[0xD8, 0x3D, 0xD8, 0x3D, 0xDE, 0x00]),
        "\u{fffd}\u{1f600}"
    );
}
