use kernel_fs::iso9660::descriptors::{Pvd, SECTOR_SIZE};
use kernel_fs::iso9660::records::{decode_iso_filename, decode_joliet_filename, DirRecord};
use kernel_fs::iso9660::susp::parse_susp_entries;

fn build_pvd_bytes(desc_type: u8, magic: &[u8; 5], bs: u16) -> [u8; SECTOR_SIZE] {
    let mut buf = [0u8; SECTOR_SIZE];
    buf[0] = desc_type;
    buf[1..6].copy_from_slice(magic);
    buf[6] = 0x01; // desc_version
    buf[128..130].copy_from_slice(&bs.to_le_bytes());
    buf[881] = 0x01; // file_structure_version
    buf
}

#[test]
fn pvd_valid() {
    let buf = build_pvd_bytes(0x01, b"CD001", 2048);
    let pvd = Pvd::parse(&buf);
    assert!(pvd.is_valid());
}

#[test]
fn pvd_block_size() {
    let buf = build_pvd_bytes(0x01, b"CD001", 2048);
    let pvd = Pvd::parse(&buf);
    assert_eq!(pvd.block_size(), 2048);
}

#[test]
fn pvd_invalid_type() {
    let buf = build_pvd_bytes(0x02, b"CD001", 2048);
    let pvd = Pvd::parse(&buf);
    assert!(!pvd.is_valid());
}

#[test]
fn pvd_invalid_magic() {
    let buf = build_pvd_bytes(0x01, b"WRONG", 2048);
    let pvd = Pvd::parse(&buf);
    assert!(!pvd.is_valid());
}

fn make_dir_record_raw(extent_loc: u32, extent_size: u32, flags: u8, name: &[u8]) -> Vec<u8> {
    let fi_len = name.len() as u8;
    let pad = if fi_len % 2 == 0 { 0u8 } else { 1u8 };
    let dr_len = 33 + fi_len + pad;
    let mut rec = vec![0u8; dr_len as usize];
    rec[0] = dr_len;
    rec[2..6].copy_from_slice(&extent_loc.to_le_bytes());
    rec[10..14].copy_from_slice(&extent_size.to_le_bytes());
    rec[25] = flags;
    rec[32] = fi_len;
    rec[33..33 + name.len()].copy_from_slice(name);
    rec
}

#[test]
fn dir_record_root_dir() {
    let rec = make_dir_record_raw(20, 2048, 0x02, b"\x00");
    let (parsed, _) = DirRecord::parse(&rec, 0).expect("parse root dir");
    assert!(parsed.is_dir());
    assert_eq!(parsed.extent_location, 20);
    assert_eq!(parsed.extent_size, 2048);
}

#[test]
fn dir_record_file() {
    let rec = make_dir_record_raw(30, 100, 0x00, b"HELLO.TXT;1");
    let (parsed, _) = DirRecord::parse(&rec, 0).expect("parse file");
    assert!(!parsed.is_dir());
    assert_eq!(parsed.extent_location, 30);
    assert_eq!(parsed.extent_size, 100);
    assert_eq!(parsed.identifier, b"HELLO.TXT;1");
}

#[test]
fn dir_record_padding() {
    // Name with odd length should get a padding byte.
    let rec = make_dir_record_raw(10, 50, 0x00, b"ODD"); // 3 bytes → pad
    let (parsed, next) = DirRecord::parse(&rec, 0).expect("parse odd name");
    assert_eq!(parsed.identifier, b"ODD");
    // next should account for padding: 33 + 3 + 1 = 37
    assert_eq!(next, 37);
}

#[test]
fn dir_record_end() {
    let rec = [0u8];
    assert!(DirRecord::parse(&rec, 0).is_none());
}

#[test]
fn susp_px_entry() {
    // Build a SUSP PX entry: sig="PX", len=20, ver=1, mode=0o755, nlink=2,
    // uid=1000, gid=1000
    let mut data = vec![0u8; 20];
    data[0] = b'P';
    data[1] = b'X';
    data[2] = 20;
    data[3] = 1;
    data[4..8].copy_from_slice(&0o755u32.to_le_bytes());
    data[8..12].copy_from_slice(&2u32.to_le_bytes());
    data[12..16].copy_from_slice(&1000u32.to_le_bytes());
    data[16..20].copy_from_slice(&1000u32.to_le_bytes());

    let mut name = None;
    let mut posix = None;
    let mut link = None;
    parse_susp_entries(&data, &mut name, &mut posix, &mut link);
    assert!(posix.is_some());
    let (mode, nlink, uid, gid) = posix.unwrap();
    assert_eq!(mode, 0o755);
    assert_eq!(nlink, 2);
    assert_eq!(uid, 1000);
    assert_eq!(gid, 1000);
}

#[test]
fn susp_nm_entry() {
    // Build NM: sig="NM", len=14, ver=1, flags=0, name="hello.txt"
    let mut data = vec![0u8; 14];
    data[0] = b'N';
    data[1] = b'M';
    data[2] = 14;
    data[3] = 1;
    data[4] = 0; // flags
    data[5..14].copy_from_slice(b"hello.txt");

    let mut name = None;
    let mut posix = None;
    let mut link = None;
    parse_susp_entries(&data, &mut name, &mut posix, &mut link);
    assert_eq!(name, Some("hello.txt".into()));
}

#[test]
fn susp_sl_entry() {
    // Build SL: sig="SL", len fits, ver=1, flags=0 (no CONTINUE), component: "/usr"
    let comp = b"usr";
    let body_len = 1 + 2 + comp.len(); // flags(1) + comp_flags(1)+comp_len(1)+data(3)
    let mut data = vec![0u8; 4 + body_len];
    data[0] = b'S';
    data[1] = b'L';
    data[2] = (4 + body_len) as u8;
    data[3] = 1;
    data[4] = 0; // flags (no CONTINUE)
    data[5] = 0; // comp_flags (0 = normal component)
    data[6] = comp.len() as u8;
    data[7..7 + comp.len()].copy_from_slice(comp);

    let mut name = None;
    let mut posix = None;
    let mut link = None;
    parse_susp_entries(&data, &mut name, &mut posix, &mut link);
    assert!(link.is_some());
    assert_eq!(link.unwrap(), b"usr");
}

#[test]
fn susp_st_terminator() {
    let mut data = vec![0u8; 4];
    data[0] = b'S';
    data[1] = b'T';
    data[2] = 4;
    data[3] = 1;
    // Add some junk after ST to verify parsing stops.
    data.extend_from_slice(&[b'X', b'X', 4, 1]);

    let mut name = Some("should_keep".into());
    let mut posix = None;
    let mut link = None;
    parse_susp_entries(&data, &mut name, &mut posix, &mut link);
    // name should still be "should_keep" since ST stops before XX
    assert_eq!(name, Some("should_keep".into()));
}

#[test]
fn decode_filename_with_version() {
    assert_eq!(decode_iso_filename(b"HELLO.TXT;1"), "hello.txt");
}

#[test]
fn decode_filename_no_version() {
    assert_eq!(decode_iso_filename(b"README"), "readme");
}

#[test]
fn decode_filename_trailing_spaces() {
    assert_eq!(decode_iso_filename(b"FILE    ;1"), "file");
}
