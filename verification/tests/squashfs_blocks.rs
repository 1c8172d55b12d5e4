//! Compressed blocks, attribute tables, directory listings.

use kernel_fs::block::MemoryBlockDevice;
use kernel_fs::error::Error;
use kernel_fs::squashfs::lz4::lz4_decompress;
use kernel_fs::squashfs::metadata::read_metadata_block;
use kernel_fs::squashfs::types::{parse_dir_entries, parse_inode, Inode, Superblock, COMPRESSION_ZSTD};
use kernel_fs::squashfs::volume::extract_name;
use kernel_fs::squashfs::xattrs::{parse_extended_inode_xattr_idx, parse_squashfs_xattrs};

fn decompress(input: &[u8], room: usize) -> Result<Vec<u8>, Error> {
    let mut out = vec![0_u8; room];
    let count = lz4_decompress(input, &mut out)?;
    out.truncate(count);
    Ok(out)
}

#[test]
fn literals_decode_to_themselves() {
    assert_eq!(decompress(b"\x50hello", 16), Ok(b"hello".to_vec()));
    // Fifteen and more go on in further bytes: 15 + 255 + 30.
    let mut long = vec![0xF0, 255, 30];
    long.extend_from_slice(&[7; 300]);
    assert_eq!(decompress(&long, 400), Ok(vec![7; 300]));
    assert_eq!(decompress(b"", 4), Ok(Vec::new()));
}

#[test]
fn copies_repeat_what_came_before() {
    assert_eq!(decompress(b"\x14a\x01\x00", 64), Ok(vec![b'a'; 9]));
    assert_eq!(decompress(b"\x20ab\x02\x00\x10c", 64), Ok(b"abababc".to_vec()));
    assert_eq!(decompress(b"\x14a\x01\x00", 5), Ok(vec![b'a'; 5]));
}

#[test]
fn copies_from_nowhere_are_errors() {
    assert_eq!(decompress(b"\x14a\x00\x00", 64), Err(Error::InvalidArgument));
    assert_eq!(decompress(b"\x14a\x02\x00", 64), Err(Error::InvalidArgument));
}

#[test]
fn attributes_carry_their_prefix() {
    let mut data = vec![0, 0, 3, 0];
    data.extend_from_slice(b"abc");
    data.extend_from_slice(&[2, 0, 0, 0]);
    data.extend_from_slice(b"xy");
    // A security attribute whose value is stored elsewhere.
    data.extend_from_slice(&[2, 1, 1, 0]);
    data.extend_from_slice(b"k");
    data.extend_from_slice(&[0; 8]);
    let list = parse_squashfs_xattrs(&data, 5);
    assert_eq!(
        list,
        [
            (b"user.abc".to_vec(), b"xy".to_vec()),
            (b"security.k".to_vec(), Vec::new()),
        ]
    );
    assert_eq!(parse_squashfs_xattrs(&data, 1).len(), 1);
    assert!(parse_squashfs_xattrs(&data[0..5], 1).is_empty());
}

#[test]
fn listings_replace_what_is_no_text() {
    // One group of one entry: the group's length less one and its inode, then the kind and
    // the name.
    let mut data = vec![4, 0, 0, 0, 9, 0, 0, 0, 2, 0];
    data.extend_from_slice(b"a\xFF\0");
    let list = parse_dir_entries(&data);
    assert_eq!(list.len(), 1);
    assert_eq!(list[0].name, "a\u{fffd}");
    assert_eq!(list[0].inode_offset, 9);
    assert_eq!(list[0].entry_type, 2);
}

#[test]
fn the_name_is_the_last_component() {
    assert_eq!(extract_name("/a/b"), "b");
    assert_eq!(extract_name("plain"), "plain");
}

#[test]
fn an_inode_says_how_many_bytes_it_takes() {
    let mut table = vec![0_u8; 20];
    table.extend_from_slice(&[2, 0, 0, 0, 1, 0, 0, 0, 21, 0, 0, 0, 0, 0, 0, 0]);
    table.extend_from_slice(&[0xFF, 0xFF, 0xFF, 0xFF, 20, 0, 0, 0]);
    let (inode, taken) = parse_inode(&table, 20).expect("inode");
    assert_eq!(taken, 24);
    match inode {
        Inode::File(file) => {
            assert_eq!(file.nlink, 1);
            assert_eq!(file.file_size, 21);
            assert_eq!(file.start_block, 20);
            assert!(file.fragments.is_none());
        }
        _ => panic!("not a file"),
    }
}

#[test]
fn an_extended_inode_names_its_attributes() {
    let mut table = vec![0_u8; 4];
    table.extend_from_slice(&[10, 0, 0, 0, 1, 0, 0, 0, 0, 0]);
    table.extend_from_slice(&[7, 0, 0, 0]);
    assert_eq!(parse_extended_inode_xattr_idx(&table, 4, 10), Some((7, 14)));
    assert_eq!(parse_extended_inode_xattr_idx(&table, 4, 3), None);
}

#[test]
fn packed_metadata_blocks_are_chained() {
    let mut data = vec![3, 0x80, 1, 1, 1, 2, 0x80, 2, 2];
    data.resize(512, 0);
    let device = MemoryBlockDevice::new("chain", data, true);
    let superblock = Superblock {
        magic: 0x7371_7368,
        block_size: 4096,
        compression: COMPRESSION_ZSTD,
        inode_count: 1,
        fragment_entry_count: 0,
        id_table_start: 0,
        xattr_id_table_start: 0,
        root_inode_offset: 0,
        bytes_used: 512,
    };
    let unpack = |packed: &[u8], _limit: usize| -> Result<Vec<u8>, Error> {
        Ok(if packed[0] == 1 {
            vec![7; 8192]
        } else {
            vec![9; 100]
        })
    };
    let bytes = read_metadata_block(&device, &superblock, &unpack, 0, 8292).expect("chain");
    assert_eq!(bytes.len(), 8292);
    assert!(bytes[..8192].iter().all(|b| *b == 7));
    assert!(bytes[8192..].iter().all(|b| *b == 9));
}

#[test]
fn joined_groups_list_one_after_the_other() {
    let group = |inode: u8, name: u8| {
        let entries = [2, 0, name, 0];
        let mut bytes = vec![entries.len() as u8 - 1, 0, 0, 0, inode, 0, 0, 0];
        bytes.extend_from_slice(&entries);
        bytes
    };
    let mut joined = group(5, b'a');
    joined.extend_from_slice(&group(6, b'b'));
    let entries = parse_dir_entries(&joined);
    assert_eq!(entries.len(), 2);
    assert_eq!((entries[0].name.as_str(), entries[0].inode_offset), ("a", 5));
    assert_eq!((entries[1].name.as_str(), entries[1].inode_offset), ("b", 6));
}
