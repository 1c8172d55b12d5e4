//! A mounted CD-ROM volume: directories, paths and files.
use vstd::prelude::*;
use vstd::string::*;

use crate::block::{BlockDevice, bytes_at, law_bytes_are_those_of_the_image, read_exact};
use crate::bytes::{copy_all, put, u16_at, write_bytes};
use crate::error::{Error, Result};
use crate::iso9660::descriptors::{BootEntry, boot_entries_in, catalog_from, find_boot_catalog_lba, joliet_of, label_text, primary_of, pvd_volume_label, read_boot_catalog, read_pvd, read_svd};
use crate::iso9660::records::{DirRecord, RecordView, best_name_of, is_dir_record, record_at, record_kind};
use crate::iso9660::susp::PosixAttributes;
use crate::path::{path_segments, segments};
use crate::simplefs::lookup::walk;
use crate::synthetic::readable;
use crate::text::{lowercase, str_eq, texts, to_lowercase};
use crate::vfs::{DirectoryEntry, Metadata, NodeKind, SecurityDescriptor, VolumeCheckReport};

verus! {

/// The records in a list.
pub open spec fn record_views(v: Seq<DirRecord>) -> Seq<RecordView> {
    Seq::new(v.len(), |i: int| v[i]@)
}

/// Whether a record stands for the directory itself or its parent: the single character
/// 0 or 1.
pub open spec fn is_dot_record(r: RecordView) -> bool {
    if r.joliet {
        r.identifier.len() == 2 && r.identifier[0] == 0 && r.identifier[1] <= 1
    } else {
        r.identifier.len() == 1 && r.identifier[0] <= 1
    }
}

/// The records of a directory from `offset` on. No record crosses a sector; where there
/// is none, the next sector goes on.
pub open spec fn records_from(data: Seq<u8>, offset: int, joliet: bool) -> Seq<RecordView>
    decreases
            (if offset < data.len() {
                data.len() - offset
            } else {
                0
            }),
{
    if offset < 0 || offset >= data.len() {
        seq![]
    } else {
        match record_at(data, offset, joliet) {
            None => records_from(data, (offset / 2048 + 1) * 2048, joliet),
            Some(r) => {
                let rest = records_from(data, offset + data[offset], joliet);
                if is_dot_record(r) {
                    rest
                } else {
                    seq![r] + rest
                }
            },
        }
    }
}

/// The records of the directory in an extent. An extent of more than 16 MiB is refused.
pub open spec fn directory_in<D: BlockDevice>(
    device: D,
    block_size: u16,
    location: u32,
    size: u32,
    joliet: bool,
) -> core::result::Result<Seq<RecordView>, Error> {
    if size > 16 * 1024 * 1024 {
        Err(Error::InvalidArgument)
    } else {
        match bytes_at(device, location * block_size, size as int) {
            Err(e) => Err(e),
            Ok(data) => Ok(records_from(data, 0, joliet)),
        }
    }
}

fn parse_records(data: &Vec<u8>, joliet: bool) -> (r: Vec<DirRecord>)
    requires
        data@.len() <= 16 * 1024 * 1024,
    ensures
        record_views(r@) == records_from(data@, 0, joliet),
{
    let mut records: Vec<DirRecord> = Vec::new();
    let total: usize = data.len();
    let mut offset: usize = 0;
    assert(record_views(records@) =~= seq![]);
    assert(record_views(records@) + records_from(data@, 0, joliet) =~= records_from(
        data@,
        0,
        joliet,
    ));
    while offset < total
        invariant
            total == data@.len() <= 16 * 1024 * 1024,
            records_from(data@, 0, joliet) == record_views(records@) + records_from(
                data@,
                offset as int,
                joliet,
            ),
        decreases
                (if offset < total {
                    total - offset
                } else {
                    0
                }),
    {
        match DirRecord::parse_inner(data.as_slice(), offset, joliet) {
            Some((record, next)) => {
                let id = &record.identifier;
                let skip = if joliet {
                    id.len() == 2 && id[0] == 0 && id[1] <= 1
                } else {
                    id.len() == 1 && id[0] <= 1
                };
                if !skip {
                    let ghost before = record_views(records@);
                    let ghost view = record@;
                    records.push(record);
                    proof {
                        assert(record_views(records@) =~= before.push(view));
                        let rest = records_from(data@, next as int, joliet);
                        assert(before + (seq![view] + rest) =~= before.push(view) + rest);
                    }
                }
                offset = next;
            },
            None => {
                offset = (offset / 2048 + 1) * 2048;
            },
        }
    }
    assert(record_views(records@) + Seq::<RecordView>::empty() =~= record_views(records@));
    records
}

fn read_records<D: BlockDevice>(
    device: &D,
    block_size: u16,
    extent_location: u32,
    extent_size: u32,
    joliet: bool,
) -> (r: Result<Vec<DirRecord>>)
    ensures
        match r {
            Ok(v) => directory_in(*device, block_size, extent_location, extent_size, joliet)
                == Ok::<Seq<RecordView>, Error>(record_views(v@)),
            Err(e) => directory_in(*device, block_size, extent_location, extent_size, joliet)
                == Err::<Seq<RecordView>, Error>(e),
        },
{
    if extent_size > 16 * 1024 * 1024 {
        return Err(Error::InvalidArgument);
    }
    proof {
        lemma_extent_fits(extent_location, block_size);
    }
    let data = read_exact(device, extent_location as u64 * block_size as u64, extent_size as usize)?;
    Ok(parse_records(&data, joliet))
}

proof fn lemma_extent_fits(location: u32, block_size: u16)
    ensures
        0 <= location * block_size <= 0xffff_ffff * 0xffff,
{
    assert(0 <= location * block_size <= 0xffff_ffff * 0xffff) by (nonlinear_arith)
        requires
            0 <= location <= 0xffff_ffff,
            0 <= block_size <= 0xffff,
    ;
}

/// Reads the entries of a directory extent, without `.` and `..`.
pub fn read_directory<D: BlockDevice>(
    device: &D,
    block_size: u16,
    extent_location: u32,
    extent_size: u32,
) -> (r: Result<Vec<DirRecord>>)
    ensures
        match r {
            Ok(v) => directory_in(*device, block_size, extent_location, extent_size, false)
                == Ok::<Seq<RecordView>, Error>(record_views(v@)),
            Err(e) => directory_in(*device, block_size, extent_location, extent_size, false)
                == Err::<Seq<RecordView>, Error>(e),
        },
{
    read_records(device, block_size, extent_location, extent_size, false)
}

/// Reads the entries of a directory extent whose names are in two-byte characters.
pub fn read_joliet_directory<D: BlockDevice>(
    device: &D,
    block_size: u16,
    extent_location: u32,
    extent_size: u32,
) -> (r: Result<Vec<DirRecord>>)
    ensures
        match r {
            Ok(v) => directory_in(*device, block_size, extent_location, extent_size, true)
                == Ok::<Seq<RecordView>, Error>(record_views(v@)),
            Err(e) => directory_in(*device, block_size, extent_location, extent_size, true)
                == Err::<Seq<RecordView>, Error>(e),
        },
{
    read_records(device, block_size, extent_location, extent_size, true)
}

/// What a read from an extent leaves in the buffer, and how much it transferred.
pub open spec fn extent_read<D: BlockDevice>(
    device: D,
    block_size: u16,
    location: u32,
    size: u32,
    offset: int,
    before: Seq<u8>,
    after: Seq<u8>,
    r: Result<usize>,
) -> bool {
    let n = readable(size as int, offset, before.len() as int);
    match bytes_at(device, location * block_size + offset, n) {
        Err(e) => r == Err::<usize, Error>(e) && after == before,
        Ok(data) => r == Ok::<usize, Error>(n as usize) && after == put(before, 0, data),
    }
}

/// A read from an extent gives the bytes that the disk holds from the extent's first block
/// on, `offset` bytes further, as many as were asked for and are there. The rest of the
/// buffer is left alone.
pub proof fn law_extent_is_read_from_the_disk<D: BlockDevice>(
    device: D,
    block_size: u16,
    location: u32,
    size: u32,
    offset: int,
    before: Seq<u8>,
    after: Seq<u8>,
    n: usize,
)
    requires
        0 <= offset,
        before.len() <= usize::MAX,
        extent_read(device, block_size, location, size, offset, before, after, Ok(n)),
    ensures
        n as int == if offset >= size {
            0
        } else if size - offset < before.len() {
            size - offset
        } else {
            before.len() as int
        },
        after.len() == before.len(),
        forall|i: int|
            #![trigger after[i]]
            0 <= i < n ==> after[i] == device.image()[location * block_size + offset + i],
        forall|i: int| #![trigger after[i]] n <= i < after.len() ==> after[i] == before[i],
{
    let m = readable(size as int, offset, before.len() as int);
    let at = location * block_size + offset;
    assert(0 <= location * block_size) by (nonlinear_arith);
    if m > 0 {
        law_bytes_are_those_of_the_image(device, at, m);
    }
}

/// Pieces of a file are pieces of the whole: a read at an offset gives what a read of the
/// whole file has there.
pub proof fn law_extent_pieces<D: BlockDevice>(
    device: D,
    block_size: u16,
    location: u32,
    size: u32,
    blank: Seq<u8>,
    whole: Seq<u8>,
    n: usize,
    offset: int,
    before: Seq<u8>,
    piece: Seq<u8>,
    m: usize,
)
    requires
        0 <= offset,
        size <= blank.len() <= usize::MAX,
        before.len() <= usize::MAX,
        extent_read(device, block_size, location, size, 0, blank, whole, Ok(n)),
        extent_read(device, block_size, location, size, offset, before, piece, Ok(m)),
    ensures
        n == size,
        offset <= size ==> piece.take(m as int) == whole.subrange(offset, offset + m),
        offset + before.len() <= size ==> m == before.len(),
        offset < size <= offset + before.len() ==> offset + m == size,
{
    law_extent_is_read_from_the_disk(device, block_size, location, size, 0, blank, whole, n);
    law_extent_is_read_from_the_disk(device, block_size, location, size, offset, before, piece, m);
    if offset <= size {
        assert forall|i: int| 0 <= i < m implies piece.take(m as int)[i] == whole.subrange(
            offset,
            offset + m,
        )[i] by {
            assert(piece[i] == device.image()[location * block_size + offset + i]);
            assert(whole[offset + i] == device.image()[location * block_size + 0 + (offset + i)]);
        }
        assert(piece.take(m as int) =~= whole.subrange(offset, offset + m));
    }
}

/// Reads file data from a contiguous extent.
pub fn read_extent<D: BlockDevice>(
    device: &D,
    block_size: u16,
    extent_location: u32,
    extent_size: u32,
    file_offset: u64,
    buffer: &mut [u8],
) -> (r: Result<usize>)
    ensures
        extent_read(
            *device,
            block_size,
            extent_location,
            extent_size,
            file_offset as int,
            old(buffer)@,
            final(buffer)@,
            r,
        ),
        r matches Ok(n) ==> forall|i: int|
            #![trigger final(buffer)@[i]]
            0 <= i < n ==> final(buffer)@[i] == device.image()[extent_location * block_size
                + file_offset + i],
{
    if file_offset >= extent_size as u64 {
        assert(put(buffer@, 0, seq![]) =~= buffer@);
        return Ok(0);
    }
    let available: u64 = extent_size as u64 - file_offset;
    let n: usize = if (buffer.len() as u64) < available {
        buffer.len()
    } else {
        available as usize
    };
    proof {
        lemma_extent_fits(extent_location, block_size);
    }
    let start: u64 = extent_location as u64 * block_size as u64 + file_offset;
    let data = read_exact(device, start, n)?;
    write_bytes(buffer, 0, data.as_slice());
    Ok(n)
}

/// Where the first record that goes by a name is, from `i` on. Case is ignored.
pub open spec fn record_named(entries: Seq<RecordView>, name: Seq<char>, i: int) -> Option<int>
    decreases entries.len() - i,
{
    if i < 0 || i >= entries.len() {
        None
    } else if lowercase(best_name_of(entries[i])) == lowercase(name) {
        Some(i)
    } else {
        record_named(entries, name, i + 1)
    }
}

/// Finds the record that goes by a name. Case is ignored.
fn find_in_dir(entries: &Vec<DirRecord>, name: &str) -> (r: Option<usize>)
    ensures
        match r {
            Some(k) => k < entries@.len() && record_named(record_views(entries@), name@, 0) == Some(
                k as int,
            ),
            None => record_named(record_views(entries@), name@, 0) is None,
        },
{
    let lower = to_lowercase(name);
    let mut i: usize = 0;
    while i < entries.len()
        invariant
            i <= entries@.len(),
            lower@ == lowercase(name@),
            record_named(record_views(entries@), name@, 0) == record_named(
                record_views(entries@),
                name@,
                i as int,
            ),
        decreases entries@.len() - i,
    {
        let other = to_lowercase(entries[i].best_name().as_str());
        if str_eq(other.as_str(), lower.as_str()) {
            return Some(i);
        }
        i = i + 1;
    }
    None
}

/// The security descriptor that Rock Ridge attributes give.
pub open spec fn record_security(posix: Option<PosixAttributes>) -> SecurityDescriptor {
    match posix {
        Some((mode, _, uid, gid)) => SecurityDescriptor {
            owner_uid: uid,
            owner_gid: gid,
            mode: mode as u16,
        },
        None => SecurityDescriptor { owner_uid: 0, owner_gid: 0, mode: 0o555 },
    }
}

fn rr_to_security(rr: &Option<PosixAttributes>) -> (r: SecurityDescriptor)
    ensures
        r == record_security(*rr),
{
    match rr {
        Some((mode, _links, uid, gid)) => SecurityDescriptor {
            owner_uid: *uid,
            owner_gid: *gid,
            mode: *mode as u16,
        },
        None => SecurityDescriptor { owner_uid: 0, owner_gid: 0, mode: 0o555 },
    }
}

/// A mounted volume.
pub struct Iso9660Volume<D: BlockDevice> {
    pub device: D,
    pub block_size: u16,
    pub volume_label: String,
    /// The root directory with two-byte names, if the volume has one.
    pub joliet_root: Option<DirRecord>,
}

/// What opening a volume finds: block size, label and Joliet root.
pub open spec fn volume_on<D: BlockDevice>(device: D) -> core::result::Result<
    (u16, Seq<char>, Option<RecordView>),
    Error,
> {
    match primary_of(device) {
        Err(e) => Err(e),
        Ok(primary) => {
            let size = u16_at(primary.subrange(128, 132), 0);
            if size == 0 || size % 2048 != 0 {
                Err(Error::InvalidArgument)
            } else {
                match joliet_of(device) {
                    None => Ok((size, label_text(primary.subrange(40, 72)), None)),
                    Some(s) => match record_at(s.subrange(156, 190), 0, true) {
                        None => Err(Error::InvalidArgument),
                        Some(r) => Ok((size, label_text(s.subrange(40, 72)), Some(r))),
                    },
                }
            }
        },
    }
}

/// The root record in the primary descriptor.
pub open spec fn root_record_on<D: BlockDevice>(device: D) -> core::result::Result<
    RecordView,
    Error,
> {
    match primary_of(device) {
        Err(e) => Err(e),
        Ok(p) => match record_at(p.subrange(156, 190), 0, false) {
            None => Err(Error::InvalidArgument),
            Some(r) => Ok(r),
        },
    }
}

fn read_root_record<D: BlockDevice>(device: &D) -> (r: Result<DirRecord>)
    ensures
        match r {
            Ok(v) => root_record_on(*device) == Ok::<RecordView, Error>(v@),
            Err(e) => root_record_on(*device) == Err::<RecordView, Error>(e),
        },
{
    let pvd = read_pvd(device)?;
    match DirRecord::parse(pvd.root_dir_record.as_slice(), 0) {
        None => Err(Error::InvalidArgument),
        Some((r, _)) => Ok(r),
    }
}

/// A record found by a path, with its entries if it is a directory.
pub type FoundView = (RecordView, Option<Seq<RecordView>>);

impl<D: BlockDevice> Iso9660Volume<D> {
    /// The Joliet root, if the volume has one.
    pub open spec fn joliet(&self) -> Option<RecordView> {
        match self.joliet_root {
            Some(r) => Some(r@),
            None => None,
        }
    }

    /// The entries of the root directory.
    pub open spec fn root_entries(&self) -> core::result::Result<Seq<RecordView>, Error> {
        match self.joliet() {
            Some(r) => directory_in(
                self.device,
                self.block_size,
                r.extent_location,
                r.extent_size,
                true,
            ),
            None => match root_record_on(self.device) {
                Err(e) => Err(e),
                Ok(r) => directory_in(
                    self.device,
                    self.block_size,
                    r.extent_location,
                    r.extent_size,
                    false,
                ),
            },
        }
    }

    /// The entries of a directory of the volume.
    pub open spec fn entries_of(&self, r: RecordView) -> core::result::Result<
        Seq<RecordView>,
        Error,
    > {
        directory_in(
            self.device,
            self.block_size,
            r.extent_location,
            r.extent_size,
            self.joliet() is Some,
        )
    }

    /// Where components from `i` on lead from a directory with the given entries.
    pub open spec fn walk(
        &self,
        entries: Seq<RecordView>,
        parts: Seq<Seq<char>>,
        i: int,
    ) -> core::result::Result<FoundView, Error>
        decreases parts.len() - i,
    {
        if i < 0 || i >= parts.len() {
            Err(Error::NotFound)
        } else {
            match record_named(entries, parts[i], 0) {
                None => Err(Error::NotFound),
                Some(k) => {
                    let r = entries[k];
                    if !is_dir_record(r) {
                        if i == parts.len() - 1 {
                            Ok((r, None))
                        } else {
                            Err(Error::NotFound)
                        }
                    } else {
                        match self.entries_of(r) {
                            Err(e) => Err(e),
                            Ok(sub) => if i == parts.len() - 1 {
                                Ok((r, Some(sub)))
                            } else {
                                self.walk(sub, parts, i + 1)
                            },
                        }
                    }
                },
            }
        }
    }

    /// What a path leads to.
    pub open spec fn resolved(&self, path: Seq<char>) -> core::result::Result<FoundView, Error> {
        let parts = segments(path);
        match self.root_entries() {
            Err(e) => Err(e),
            Ok(entries) => if parts.len() == 0 {
                match root_record_on(self.device) {
                    Err(e) => Err(e),
                    Ok(r) => Ok((r, Some(entries))),
                }
            } else {
                self.walk(entries, parts, 0)
            },
        }
    }

    /// Opens the volume on a device: reads and validates its descriptors.
    pub fn open(device: D) -> (r: Result<Self>)
        ensures
            match r {
                Ok(v) => v.device == device && volume_on(device) == Ok::<
                    (u16, Seq<char>, Option<RecordView>),
                    Error,
                >((v.block_size, v.volume_label@, v.joliet())),
                Err(e) => volume_on(device) == Err::<
                    (u16, Seq<char>, Option<RecordView>),
                    Error,
                >(e),
            },
    {
        let pvd = read_pvd(&device)?;
        let block_size: u16 = pvd.block_size();
        if block_size == 0 || block_size % 2048 != 0 {
            return Err(Error::InvalidArgument);
        }
        match read_svd(&device) {
            Some(svd) => match DirRecord::parse_joliet(svd.root_dir_record.as_slice(), 0) {
                None => Err(Error::InvalidArgument),
                Some((root, _)) => Ok(
                    Iso9660Volume {
                        device,
                        block_size,
                        volume_label: pvd_volume_label(&svd),
                        joliet_root: Some(root),
                    },
                ),
            },
            None => Ok(
                Iso9660Volume {
                    device,
                    block_size,
                    volume_label: pvd_volume_label(&pvd),
                    joliet_root: None,
                },
            ),
        }
    }

    /// The volume label.
    pub fn volume_label(&self) -> (r: &str)
        ensures
            r@ == self.volume_label@,
    {
        self.volume_label.as_str()
    }

    /// The name of the filesystem: the volume label.
    pub fn name(&self) -> (r: &str)
        ensures
            r@ == self.volume_label@,
    {
        self.volume_label.as_str()
    }

    /// The boot entries of a bootable volume; none of any other.
    pub fn boot_entries(&self) -> (r: Vec<BootEntry>)
        ensures
            match catalog_from(self.device, 16) {
                None => r@.len() == 0,
                Some(lba) => match bytes_at(self.device, lba * 2048, 2048) {
                    Err(_) => r@.len() == 0,
                    Ok(sector) => r@ == boot_entries_in(sector),
                },
            },
    {
        match find_boot_catalog_lba(&self.device) {
            None => Vec::new(),
            Some(lba) => match read_boot_catalog(&self.device, lba) {
                Err(_) => Vec::new(),
                Ok(v) => v,
            },
        }
    }

    fn read_root_entries(&self) -> (r: Result<Vec<DirRecord>>)
        ensures
            match r {
                Ok(v) => self.root_entries() == Ok::<Seq<RecordView>, Error>(record_views(v@)),
                Err(e) => self.root_entries() == Err::<Seq<RecordView>, Error>(e),
            },
    {
        match &self.joliet_root {
            Some(root) => read_joliet_directory(
                &self.device,
                self.block_size,
                root.extent_location,
                root.extent_size,
            ),
            None => {
                let root = read_root_record(&self.device)?;
                read_directory(
                    &self.device,
                    self.block_size,
                    root.extent_location,
                    root.extent_size,
                )
            },
        }
    }

    fn read_dir_extent(&self, record: &DirRecord) -> (r: Result<Vec<DirRecord>>)
        ensures
            match r {
                Ok(v) => self.entries_of(record@) == Ok::<Seq<RecordView>, Error>(record_views(v@)),
                Err(e) => self.entries_of(record@) == Err::<Seq<RecordView>, Error>(e),
            },
    {
        read_records(
            &self.device,
            self.block_size,
            record.extent_location,
            record.extent_size,
            self.joliet_root.is_some(),
        )
    }

    /// Resolves a path to a record, and to its entries if it is a directory.
    pub fn resolve(&self, path: &str) -> (r: Result<(DirRecord, Option<Vec<DirRecord>>)>)
        ensures
            match r {
                Ok(v) => self.resolved(path@) == Ok::<FoundView, Error>(found_view(v)),
                Err(e) => self.resolved(path@) == Err::<FoundView, Error>(e),
            },
    {
        let parts = path_segments(path);
        let mut entries = self.read_root_entries()?;
        if parts.len() == 0 {
            let root = read_root_record(&self.device)?;
            return Ok((root, Some(entries)));
        }
        let ghost steps = segments(path@);
        let mut i: usize = 0;
        while i < parts.len()
            invariant
                i <= parts@.len(),
                steps == texts(parts@),
                steps == segments(path@),
                steps.len() > 0,
                self.resolved(path@) == self.walk(record_views(entries@), steps, i as int),
            decreases parts@.len() - i,
        {
            let k: usize = match find_in_dir(&entries, parts[i].as_str()) {
                None => {
                    return Err(Error::NotFound);
                },
                Some(k) => k,
            };
            let record = entries[k].duplicate();
            assert(record@ == record_views(entries@)[k as int]);
            let last = i == parts.len() - 1;
            if !record.is_dir() {
                if last {
                    return Ok((record, None));
                }
                return Err(Error::NotFound);
            }
            let sub = self.read_dir_extent(&record)?;
            if last {
                return Ok((record, Some(sub)));
            }
            entries = sub;
            i = i + 1;
        }
        Err(Error::NotFound)
    }

    /// Looks a path up.
    pub fn lookup<'a>(&'a self, path: &str) -> (r: Result<Iso9660VNode<'a, D>>)
        ensures
            match r {
                Ok(n) => self.resolved(path@) matches Ok(f) && node_of(n, *self, f.0),
                Err(e) => self.resolved(path@) == Err::<FoundView, Error>(e),
            },
    {
        let (record, _) = self.resolve(path)?;
        let kind = if record.is_dir() {
            NodeKind::Directory
        } else if record.rr_symlink.is_some() {
            NodeKind::Symlink
        } else {
            NodeKind::File
        };
        let name = record.best_name();
        Ok(
            Iso9660VNode {
                name,
                kind,
                extent_location: record.extent_location,
                extent_size: record.extent_size,
                rr_posix: record.rr_posix,
                rr_symlink: record.rr_symlink,
                device: &self.device,
                block_size: self.block_size,
            },
        )
    }

    /// The attributes of what a path leads to.
    pub fn stat(&self, path: &str) -> (r: Result<Metadata>)
        ensures
            match r {
                Ok(m) => self.resolved(path@) matches Ok(f) && m == record_metadata(f.0),
                Err(e) => self.resolved(path@) == Err::<FoundView, Error>(e),
            },
    {
        let node = self.lookup(path)?;
        node.metadata()
    }

    /// The entry with a number in the directory that a path leads to.
    pub fn read_dir(&self, path: &str, index: usize) -> (r: Result<DirectoryEntry>)
        ensures
            match self.resolved(path@) {
                Err(e) => r matches Err(e2) && e2 == e,
                Ok((_, None)) => r matches Err(e2) && e2 == Error::InvalidArgument,
                Ok((_, Some(entries))) => if index < entries.len() {
                    let x = entries[index as int];
                    r matches Ok(d) && d.kind == record_kind(x) && d.size == x.extent_size
                        && d.name@ == best_name_of(x) && d.security == record_security(x.rr_posix)
                } else {
                    r matches Err(e2) && e2 == Error::NotFound
                },
            },
    {
        let (_, found) = self.resolve(path)?;
        let entries = match found {
            None => {
                return Err(Error::InvalidArgument);
            },
            Some(v) => v,
        };
        if index >= entries.len() {
            return Err(Error::NotFound);
        }
        let record = &entries[index];
        assert(record@ == record_views(entries@)[index as int]);
        let kind = if record.is_dir() {
            NodeKind::Directory
        } else if record.rr_symlink.is_some() {
            NodeKind::Symlink
        } else {
            NodeKind::File
        };
        Ok(
            DirectoryEntry {
                kind,
                size: record.extent_size as usize,
                name: record.best_name(),
                security: rr_to_security(&record.rr_posix),
            },
        )
    }

    /// Refused: the volume is read-only.
    pub fn rename(&self, _old_path: &str, _new_path: &str) -> (r: Result<()>)
        ensures
            r == Err::<(), Error>(Error::PermissionDenied),
    {
        Err(Error::PermissionDenied)
    }

    /// Refused: the volume is read-only.
    pub fn create_file(&self, _path: &str) -> (r: Result<()>)
        ensures
            r == Err::<(), Error>(Error::PermissionDenied),
    {
        Err(Error::PermissionDenied)
    }

    /// Refused: the volume is read-only.
    pub fn create_dir(&self, _path: &str) -> (r: Result<()>)
        ensures
            r == Err::<(), Error>(Error::PermissionDenied),
    {
        Err(Error::PermissionDenied)
    }

    /// Refused: the volume is read-only.
    pub fn create_symlink(&self, _target: &str, _path: &str) -> (r: Result<()>)
        ensures
            r == Err::<(), Error>(Error::PermissionDenied),
    {
        Err(Error::PermissionDenied)
    }

    /// Refused: the volume is read-only.
    pub fn remove_path(&self, _path: &str) -> (r: Result<()>)
        ensures
            r == Err::<(), Error>(Error::PermissionDenied),
    {
        Err(Error::PermissionDenied)
    }

    /// Refused: the volume is read-only.
    pub fn update_security_descriptor(&self, _path: &str, _security: SecurityDescriptor) -> (r: Result<
        (),
    >)
        ensures
            r == Err::<(), Error>(Error::PermissionDenied),
    {
        Err(Error::PermissionDenied)
    }

    /// Counts what is wrong: a block size of zero, a root that cannot be read.
    pub fn check_and_repair(&self) -> (r: Result<VolumeCheckReport>)
        ensures
            r matches Ok(v) && v == (VolumeCheckReport {
                issues_detected: ((if self.block_size == 0 {
                    1int
                } else {
                    0
                }) + (if self.resolved(seq!['/']) is Err {
                    1int
                } else {
                    0
                })) as usize,
                repairs_applied: 0,
                orphan_data_blocks: 0,
                checksum_failures: 0,
                staging_orphans_cleaned: 0,
                orphan_blocks_cleaned: 0,
                interrupted_commits: 0,
            }),
    {
        proof {
            reveal_strlit("/");
        }
        assert("/"@ =~= seq!['/']);
        let mut issues: usize = 0;
        if self.block_size == 0 {
            issues = issues + 1;
        }
        if self.lookup("/").is_err() {
            issues = issues + 1;
        }
        Ok(
            VolumeCheckReport {
                issues_detected: issues,
                repairs_applied: 0,
                orphan_data_blocks: 0,
                checksum_failures: 0,
                staging_orphans_cleaned: 0,
                orphan_blocks_cleaned: 0,
                interrupted_commits: 0,
            },
        )
    }
}

/// What a resolved path says.
pub open spec fn found_view(v: (DirRecord, Option<Vec<DirRecord>>)) -> FoundView {
    (
        v.0@,
        match v.1 {
            Some(e) => Some(record_views(e@)),
            None => None,
        },
    )
}

/// The attributes of the node that a record describes.
pub open spec fn record_metadata(r: RecordView) -> Metadata {
    Metadata {
        kind: record_kind(r),
        size: r.extent_size as usize,
        security: record_security(r.rr_posix),
        created: 0,
        modified: 0,
        accessed: 0,
    }
}

/// A node of a mounted volume.
pub struct Iso9660VNode<'a, D: BlockDevice> {
    pub name: String,
    pub kind: NodeKind,
    pub extent_location: u32,
    pub extent_size: u32,
    pub rr_posix: Option<PosixAttributes>,
    pub rr_symlink: Option<Vec<u8>>,
    pub device: &'a D,
    pub block_size: u16,
}

/// Whether a node is the one that a record of a volume describes.
pub open spec fn node_of<D: BlockDevice>(
    n: Iso9660VNode<'_, D>,
    v: Iso9660Volume<D>,
    r: RecordView,
) -> bool {
    &&& n.name@ == best_name_of(r)
    &&& n.kind == record_kind(r)
    &&& n.extent_location == r.extent_location
    &&& n.extent_size == r.extent_size
    &&& n.rr_posix == r.rr_posix
    &&& (n.rr_symlink is Some) == (r.rr_symlink is Some)
    &&& n.rr_symlink matches Some(l) ==> r.rr_symlink == Some(l@)
    &&& *n.device == v.device
    &&& n.block_size == v.block_size
}

impl<'a, D: BlockDevice> Iso9660VNode<'a, D> {
    /// The name of the node.
    pub fn name(&self) -> (r: &str)
        ensures
            r@ == self.name@,
    {
        self.name.as_str()
    }

    /// What kind of node it is.
    pub fn kind(&self) -> (r: NodeKind)
        ensures
            r == self.kind,
    {
        self.kind
    }

    /// The size in bytes.
    pub fn size(&self) -> (r: usize)
        ensures
            r == self.extent_size,
    {
        self.extent_size as usize
    }

    /// The attributes of the node.
    pub fn metadata(&self) -> (r: Result<Metadata>)
        ensures
            r == Ok::<Metadata, Error>(
                Metadata {
                    kind: self.kind,
                    size: self.extent_size as usize,
                    security: record_security(self.rr_posix),
                    created: 0,
                    modified: 0,
                    accessed: 0,
                },
            ),
    {
        Ok(
            Metadata {
                kind: self.kind,
                size: self.extent_size as usize,
                security: rr_to_security(&self.rr_posix),
                created: 0,
                modified: 0,
                accessed: 0,
            },
        )
    }

    /// Reads file data. Only files can be read.
    pub fn read(&self, offset: u64, buffer: &mut [u8]) -> (r: Result<usize>)
        ensures
            if self.kind != NodeKind::File {
                r == Err::<usize, Error>(Error::InvalidArgument) && final(buffer)@ == old(buffer)@
            } else {
                extent_read(
                    *self.device,
                    self.block_size,
                    self.extent_location,
                    self.extent_size,
                    offset as int,
                    old(buffer)@,
                    final(buffer)@,
                    r,
                )
            },
    {
        if self.kind != NodeKind::File {
            return Err(Error::InvalidArgument);
        }
        read_extent(
            self.device,
            self.block_size,
            self.extent_location,
            self.extent_size,
            offset,
            buffer,
        )
    }

    /// Refused: the volume is read-only.
    pub fn write(&self, _offset: u64, _data: &[u8]) -> (r: Result<usize>)
        ensures
            r == Err::<usize, Error>(Error::PermissionDenied),
    {
        Err(Error::PermissionDenied)
    }

    /// Refused: the volume is read-only.
    pub fn set_len(&self, _len: u64) -> (r: Result<()>)
        ensures
            r == Err::<(), Error>(Error::PermissionDenied),
    {
        Err(Error::PermissionDenied)
    }

    /// The target of a symbolic link.
    pub fn readlink(&self) -> (r: Result<Vec<u8>>)
        ensures
            match self.rr_symlink {
                Some(l) => r matches Ok(v) && v@ == l@,
                None => r matches Err(e) && e == Error::InvalidArgument,
            },
    {
        match &self.rr_symlink {
            Some(l) => Ok(copy_all(l.as_slice())),
            None => Err(Error::InvalidArgument),
        }
    }
}

} // verus!
