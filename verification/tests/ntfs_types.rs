use kernel_fs::ntfs::attributes::{get_best_filename, parse_index_entries, ParsedAttr};
use kernel_fs::ntfs::names::FileName;
use kernel_fs::ntfs::runs::parse_data_runs;
use kernel_fs::ntfs::types::{BootSector, MftRecordHeader, StandardInfoAttr, ATTR_TYPE_FILENAME};

#[test]
fn parse_bpb_basic() {
    let mut buf = vec![0u8; 84];
    buf[3..7].copy_from_slice(b"NTFS");
    buf[11..13].copy_from_slice(&512u16.to_le_bytes());
    buf[13] = 8; // 8 sectors per cluster = 4096
    buf[64] = (-10i8) as u8;
    buf[68] = (-12i8) as u8;
    let bs = BootSector::parse(&buf).expect("parse");
    assert_eq!(bs.bytes_per_sector, 512);
    assert_eq!(bs.sectors_per_cluster, 8);
}

#[test]
fn parse_mft_record_header() {
    let mut buf = vec![0u8; 48];
    buf[0..4].copy_from_slice(b"FILE");
    buf[20..22].copy_from_slice(&56u16.to_le_bytes());
    buf[22..24].copy_from_slice(&0x0003u16.to_le_bytes());
    let hdr = MftRecordHeader::parse(&buf).expect("parse");
    assert!(hdr.is_dir());
}

#[test]
fn parse_filename_attr() {
    let mut buf = vec![0u8; 66 + 10];
    // Name "test" = 4 chars = 8 bytes UTF-16LE
    buf[64] = 4; // name_len in characters
                 // "test" in UTF-16LE
    let name = "test";
    for (i, ch) in name.encode_utf16().enumerate() {
        let off = 66 + i * 2;
        buf[off..off + 2].copy_from_slice(&ch.to_le_bytes());
    }
    let fn_ = FileName::parse(&buf).expect("parse");
    assert_eq!(fn_.name, "test");
}

#[test]
fn parse_data_runs_basic() {
    // Run: 8 clusters starting at LCN 100.
    // Header: 0x21 (len_bytes=1, off_bytes=2)
    // len: 8
    // off: 100 (LE)
    let mut buf = vec![0u8; 4];
    buf[0] = 0x21; // 1 length byte, 2 offset bytes
    buf[1] = 8; // cluster count
    buf[2] = 100; // offset bytes LE
    buf[3] = 0;
    let runs = parse_data_runs(&buf);
    assert_eq!(runs.len(), 1);
    assert_eq!(runs[0].cluster_count, 8);
    assert_eq!(runs[0].lcn, 100);
}

#[test]
fn parse_data_runs_two_runs() {
    // Run 1: 5 clusters at LCN 10
    // Run 2: 3 clusters at LCN 20
    let mut buf = vec![0u8; 8];
    buf[0] = 0x21;
    buf[1] = 5;
    buf[2] = 10;
    buf[3] = 0;
    buf[4] = 0x21; // delta from prev: 20-10=10
    buf[5] = 3;
    buf[6] = 10;
    buf[7] = 0;
    let runs = parse_data_runs(&buf);
    assert_eq!(runs.len(), 2);
    assert_eq!(runs[0].lcn, 10);
    assert_eq!(runs[1].lcn, 20);
}

#[test]
fn types_get_best_filename_prefers_win32_over_dos() {
    let dos = ParsedAttr {
        attr_type: ATTR_TYPE_FILENAME,
        content: make_filename_body("HELLO~1", 2, 0, 5),
        data_runs_offset: None,
        data_runs: Vec::new(),
        data_size: 0,
    };
    let win32 = ParsedAttr {
        attr_type: ATTR_TYPE_FILENAME,
        content: make_filename_body("hello.txt", 3, 0, 5),
        data_runs_offset: None,
        data_runs: Vec::new(),
        data_size: 0,
    };
    let best = get_best_filename(&[dos, win32]).expect("best filename");
    assert_eq!(best.name, "hello.txt");
    assert_eq!(best.namespace, 3);
}

#[test]
fn types_parse_index_entries_dedups_namespaces() {
    // Two index entries for the same MFT record (42): a pure-DOS 8.3 name and
    // a Win32 long name.  Only the Win32 name should survive.
    let make_entry = |name: &str, namespace: u8| -> Vec<u8> {
        let name_bytes = make_filename_body(name, namespace, 0, 5);
        let entry_len = 16 + name_bytes.len();
        let mut e = vec![0u8; entry_len];
        put_u64_le(&mut e, 0, 42); // MFT ref
        put_u16_le(&mut e, 8, entry_len as u16);
        put_u16_le(&mut e, 10, 16); // content offset
                                    // flags at 12..16 (0 = not last for entry 1; set by caller)
        e[16..16 + name_bytes.len()].copy_from_slice(&name_bytes);
        e
    };
    let mut e1 = make_entry("HELLO~1", 2);
    let e2 = make_entry("hello.txt", 1);
    put_u32_le(&mut e1, 12, 0x02); // last-entry flag on the DOS entry
                                   // Prepend the 16-byte `$INDEX_ROOT` header: first entry at 16, total
                                   // index size spans both entries.
    let mut buf = vec![0u8; 16];
    put_u16_le(&mut buf, 8, 16); // first entry offset
    put_u16_le(&mut buf, 10, (16 + e1.len() + e2.len()) as u16); // index size
    buf.extend_from_slice(&e1);
    buf.extend_from_slice(&e2);

    let entries = parse_index_entries(&buf).expect("parse index");
    assert_eq!(entries.len(), 1);
    assert_eq!(entries[0].0, "hello.txt");
    assert_eq!(entries[0].1, 42);
}

fn put_u16_le(buf: &mut [u8], off: usize, value: u16) {
    buf[off] = value as u8;
    buf[off + 1] = (value >> 8) as u8;
}

fn put_u32_le(buf: &mut [u8], off: usize, value: u32) {
    buf[off] = value as u8;
    buf[off + 1] = (value >> 8) as u8;
    buf[off + 2] = (value >> 16) as u8;
    buf[off + 3] = (value >> 24) as u8;
}

fn put_u64_le(buf: &mut [u8], off: usize, value: u64) {
    for i in 0..8 {
        buf[off + i] = (value >> (i * 8)) as u8;
    }
}

fn make_filename_body(name: &str, namespace: u8, flags: u32, parent: u64) -> Vec<u8> {
    let mut body = vec![0u8; 66 + name.len() * 2];
    put_u64_le(&mut body, 0, parent);
    put_u32_le(&mut body, 56, flags);
    body[64] = name.len() as u8;
    body[65] = namespace;
    for (i, u) in name.encode_utf16().enumerate() {
        body[66 + i * 2] = u as u8;
        body[66 + i * 2 + 1] = (u >> 8) as u8;
    }
    body
}

#[test]
fn standard_info_fields_are_read() {
    let mut body = vec![0u8; 68];
    put_u64_le(&mut body, 0, 133_000_000_000_000_000);
    put_u64_le(&mut body, 8, 133_000_000_100_000_000);
    put_u32_le(&mut body, 32, 0x1000_0000);
    let si = StandardInfoAttr::parse(&body).expect("parse standard info");
    assert!(si.is_directory());
    assert_eq!(si.created, 133_000_000_000_000_000);
    assert_eq!(si.modified, 133_000_000_100_000_000);
    assert!(StandardInfoAttr::parse(&body[..20]).is_none());
}
