//! Compressed streams, shared extents, checksums.

use kernel_fs::block::MemoryBlockDevice;
use kernel_fs::error::Error;
use kernel_fs::simplefs::compression::{
    chunk_at, decode_file, decode_pages, encode_file, encode_stream, file_page, read_stream_header,
};
use kernel_fs::simplefs::dedup::{
    content_hash, extent_content_matches, DedupChoice, DedupPool,
};
use kernel_fs::simplefs::file_read::compute_data_checksum;
use kernel_fs::simplefs::sharing::follow_choice;
use kernel_fs::simplefs::types::OnDiskInode;
use kernel_fs::simplefs::volume::SimpleFs;

#[test]
fn a_stream_keeps_its_chunks() {
    let chunks = vec![b"first".to_vec(), Vec::new(), b"third one".to_vec()];
    let stream = encode_stream(&chunks).expect("encode");
    assert_eq!(read_stream_header(&stream), Ok(3));
    for (index, chunk) in chunks.iter().enumerate() {
        assert_eq!(chunk_at(&stream, index).as_ref(), Ok(chunk));
    }
    assert_eq!(chunk_at(&stream, 3), Err(Error::InvalidArgument));
    assert_eq!(
        chunk_at(&stream[0..stream.len() - 1], 2),
        Err(Error::InvalidArgument)
    );
    assert_eq!(read_stream_header(&stream[0..7]), Err(Error::InvalidArgument));
    assert_eq!(read_stream_header(&[0; 32]), Err(Error::InvalidArgument));
}

#[test]
fn the_last_page_is_padded_with_zeros() {
    let contents = vec![3_u8; 5000];
    assert_eq!(file_page(&contents, 0), [3; 4096]);
    let last = file_page(&contents, 1);
    assert_eq!(last[0..904], [3; 904]);
    assert_eq!(last[904..], [0; 4096 - 904]);
}

#[test]
fn a_compressed_file_is_read_across_pages() {
    let contents: Vec<u8> = (0..9000).map(|index| (index % 241) as u8).collect();
    let pages: Vec<Vec<u8>> = (0..3).map(|index| file_page(&contents, index)).collect();
    // The chunks stand for what a codec made of the pages.
    let stream = encode_stream(&vec![vec![0], vec![1], vec![2]]).expect("encode");
    let decoded = vec![Some(pages[0].clone()), Some(pages[1].clone())];
    let read = decode_pages(&stream, 4000, 200, &decoded).expect("decode");
    assert_eq!(read, contents[4000..4200]);
    assert_eq!(decode_pages(&stream, 10, 0, &Vec::new()), Ok(Vec::new()));
    assert!(decode_pages(&stream, 4000, 200, &vec![Some(pages[0].clone()), None]).is_err());
    assert!(decode_pages(&stream, 3 * 4096, 1, &vec![Some(pages[2].clone())]).is_err());
}

/// A codec that stores a page without the zeros at its end, and refuses a chunk that starts
/// with 0xFF.
fn shorten(page: &[u8]) -> Vec<u8> {
    let end = page.iter().rposition(|byte| *byte != 0).map_or(0, |at| at + 1);
    page[0..end].to_vec()
}

fn lengthen(chunk: &[u8]) -> Option<Vec<u8>> {
    if chunk.first() == Some(&0xFF) {
        return None;
    }
    let mut page = chunk.to_vec();
    page.resize(4096, 0);
    Some(page)
}

#[test]
fn a_compressed_file_reads_back_as_it_was() {
    let contents: Vec<u8> = (0..9000).map(|index| (index % 241) as u8).collect();
    let stream = encode_file(&contents, shorten).expect("encode");
    assert_eq!(read_stream_header(&stream), Ok(3));
    assert_eq!(decode_file(&stream, 0, 9000, lengthen), Ok(contents.clone()));
    assert_eq!(decode_file(&stream, 4090, 4200, lengthen), Ok(contents[4090..8290].to_vec()));
    assert_eq!(decode_file(&stream, 0, 0, lengthen), Ok(Vec::new()));
    assert_eq!(decode_file(&stream, 0, 3 * 4096 + 1, lengthen), Err(Error::InvalidArgument));
    assert_eq!(decode_file(&stream[0..4], 0, 1, lengthen), Err(Error::InvalidArgument));
    let refused = encode_file(&[0xFF; 10], shorten).expect("encode");
    assert_eq!(decode_file(&refused, 0, 1, lengthen), Err(Error::DeviceError));
    let empty = encode_file(&[], shorten).expect("encode");
    assert_eq!(read_stream_header(&empty), Ok(0));
}

#[test]
fn the_last_user_frees_an_extent() {
    let mut pool = DedupPool::new();
    pool.acquire(10, 2);
    pool.acquire(10, 2);
    pool.acquire(20, 1);
    assert!(!pool.release(10, 2));
    assert!(pool.release(10, 2));
    assert!(pool.release(20, 1));
    // Nobody was counted here.
    assert!(pool.release(30, 1));
}

fn inode_at(data_block: u32, block_count: u32, size: u32) -> OnDiskInode {
    let image = SimpleFs::<MemoryBlockDevice>::build_v4_image_with_headroom("d", &[], 1, 1, 0, 1)
        .expect("image");
    let fs = match SimpleFs::open(MemoryBlockDevice::new("d", image, false), true) {
        Ok(fs) => fs,
        Err(error) => panic!("open: {:?}", error),
    };
    let mut inode = fs.state.inodes[0];
    inode.data_block = data_block;
    inode.block_count = block_count;
    inode.size = size;
    inode
}

#[test]
fn equal_contents_share_an_extent() {
    let mut image = vec![0_u8; 8 * 512];
    image[512..517].copy_from_slice(b"equal");
    image[1024..1029].copy_from_slice(b"equal");
    let device = MemoryBlockDevice::new("d", image, true);
    let mut pool = DedupPool::new();
    let first = inode_at(1, 1, 5);
    let second = inode_at(2, 1, 5);
    assert_eq!(pool.dedup_share_or_pool(&device, first, b"equal"), Ok(DedupChoice::Pool));
    assert_eq!(
        pool.dedup_share_or_pool(&device, second, b"equal"),
        Ok(DedupChoice::Share {
            data_block: 1,
            block_count: 1
        })
    );
    assert!(!pool.release(1, 1));
    assert!(pool.release(1, 1));
    assert_eq!(
        pool.dedup_share_or_pool(&device, inode_at(0, 0, 0), b""),
        Ok(DedupChoice::Nothing)
    );
    assert_eq!(extent_content_matches(&device, 1, 1, b"equal"), Ok(true));
    assert_eq!(extent_content_matches(&device, 1, 1, b"Equal"), Ok(false));
    assert!(extent_content_matches(&device, 100, 1, b"equal").is_err());
}

#[test]
fn hashes_and_checksums_tell_contents_apart() {
    assert_ne!(content_hash(b"a"), content_hash(b"b"));
    assert_eq!(content_hash(b""), 0xcbf2_9ce4_8422_2325);
    assert_eq!(content_hash(b"a"), 0xaf63_dc4c_8601_ec8c);
    assert_eq!(compute_data_checksum(b""), 0);
    assert_eq!(compute_data_checksum(&[1, 2, 3, 4]), 0x0403_0201);
    assert_eq!(compute_data_checksum(&[1, 2]), 0x0201);
    assert_ne!(compute_data_checksum(b"a"), compute_data_checksum(b"b"));
}

#[test]
fn sharing_counts_no_other_extent() {
    let mut image = vec![0_u8; 8 * 512];
    image[512..517].copy_from_slice(b"equal");
    image[1024..1029].copy_from_slice(b"equal");
    image[1536..1541].copy_from_slice(b"other");
    let device = MemoryBlockDevice::new("d", image, true);
    let mut pool = DedupPool::new();
    for (block, contents) in [(1, b"equal"), (3, b"other"), (2, b"equal")] {
        assert!(pool.dedup_share_or_pool(&device, inode_at(block, 1, 5), contents).is_ok());
    }
    assert!(pool.release(3, 1));
    assert!(!pool.release(1, 1));
    assert!(pool.release(1, 1));
}

#[test]
fn counts_are_rebuilt_from_the_marks() {
    let mut first = inode_at(10, 2, 600);
    first.deduped = true;
    let second = first;
    let mut third = inode_at(20, 1, 5);
    third.deduped = true;
    let private = inode_at(30, 1, 5);
    let mut gone = first;
    gone.deleted = true;
    let mut pool = DedupPool::rebuilt(&[first, private, second, gone, third]);
    assert!(!pool.release(10, 2));
    assert!(pool.release(10, 2));
    assert!(pool.release(20, 1));
    let device = MemoryBlockDevice::new("d", vec![0; 8 * 512], true);
    assert_eq!(
        pool.dedup_share_or_pool(&device, private, b"again"),
        Ok(DedupChoice::Pool)
    );
}

#[test]
fn an_inode_follows_the_choice() {
    let private = inode_at(3, 1, 5);
    let share = DedupChoice::Share {
        data_block: 1,
        block_count: 1,
    };
    let (shared, freed) = follow_choice(private, share);
    assert_eq!((shared.data_block, shared.block_count, shared.size), (1, 1, 5));
    assert!(shared.deduped);
    assert_eq!(freed, Some((3, 1)));
    let (pooled, freed) = follow_choice(private, DedupChoice::Pool);
    assert_eq!(pooled.data_block, 3);
    assert!(pooled.deduped);
    assert_eq!(freed, None);
    let (same, freed) = follow_choice(private, DedupChoice::Nothing);
    assert!(!same.deduped);
    assert_eq!(freed, None);
}
