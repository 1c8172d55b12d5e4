//! A mounted volume and its nodes.
use vstd::prelude::*;
use vstd::string::*;

use crate::block::{BlockDevice, bytes_at, read_exact};
use crate::bytes::{copy_all, le16, le32, put, u16_at, write_bytes, write_u16, write_u32, zero_vec};
use crate::error::{Error, Result};
use crate::ntfs::attributes::{AttrView, IndexEntry, ParsedAttr, attr_of_type, attr_views, attrs_from, find_attr, index_in, parse_attributes, parse_index_entries};
use crate::ntfs::io::{apply_usa_fixup, block_end, block_start, boot_sector_of, device_error, file_read, fixed_record, lemma_fixed_front, lemma_wide_product, locate_record, read_boot_sector, read_from_runs, read_mft_record, record_place, write_clusters};
use crate::ntfs::runs::DataRun;
use crate::ntfs::types::{ATTR_TYPE_DATA, ATTR_TYPE_INDEX_ROOT, BootSector, MFT_RECORD_DIRECTORY, MftRecordHeader, NtfsInfo, info_of, is_mft_record};
use crate::order::smaller;
use crate::simplefs::lookup::lookup;
use crate::vfs::{DirectoryEntry, NodeKind, root_descriptor};

verus! {

/// A record kept in memory.
pub struct CachedRecord {
    pub number: u64,
    pub record: Vec<u8>,
}

/// The cached record with a number, from position `i` on.
pub open spec fn cached_from(cache: Seq<CachedRecord>, number: u64, i: int) -> Option<Seq<u8>>
    decreases cache.len() - i,
{
    if i < 0 || i >= cache.len() {
        None
    } else if cache[i].number == number {
        Some(cache[i].record@)
    } else {
        cached_from(cache, number, i + 1)
    }
}

/// Whether cached records are records of a volume: of the right length, with the mark that
/// every record starts with.
pub open spec fn cache_ok(cache: Seq<CachedRecord>, size: u32) -> bool {
    forall|i: int|
        #![trigger cache[i]]
        0 <= i < cache.len() ==> cache[i].record@.len() == size && is_mft_record(cache[i].record@)
}

proof fn lemma_cached_ok(cache: Seq<CachedRecord>, size: u32, number: u64, i: int)
    requires
        cache_ok(cache, size),
    ensures
        cached_from(cache, number, i) matches Some(r) ==> r.len() == size && is_mft_record(r),
    decreases cache.len() - i,
{
    if 0 <= i < cache.len() && cache[i].number != number {
        lemma_cached_ok(cache, size, number, i + 1);
    }
}

/// A mounted volume.
pub struct NtfsFs<D: BlockDevice> {
    pub device: D,
    pub info: NtfsInfo,
    pub mft_cache: Vec<CachedRecord>,
}

/// The record number of the root directory.
pub const ROOT_RECORD: u64 = 5;

/// A record as the volume reads it: from the block that holds its first byte on, with its
/// sectors restored.
pub open spec fn volume_record<D: BlockDevice>(
    device: D,
    info: NtfsInfo,
    number: u64,
) -> core::result::Result<Seq<u8>, Error> {
    let place = record_place(info, number);
    if place > u64::MAX {
        Err(Error::InvalidArgument)
    } else {
        match bytes_at(device, block_start(place), info.mft_record_size as int) {
            Err(e) => Err(e),
            Ok(raw) => if !is_mft_record(raw) {
                Err(Error::InvalidArgument)
            } else {
                Ok(fixed_record(raw))
            },
        }
    }
}

impl<D: BlockDevice> NtfsFs<D> {
    /// Whether the records kept in memory are sound.
    pub open spec fn wf(&self) -> bool {
        cache_ok(self.mft_cache@, self.info.mft_record_size)
    }

    /// What reading a record yields: the cached one if there is one.
    pub open spec fn record(&self, number: u64) -> core::result::Result<Seq<u8>, Error> {
        match cached_from(self.mft_cache@, number, 0) {
            Some(r) => Ok(r),
            None => volume_record(self.device, self.info, number),
        }
    }

    /// Mounts the volume on a device.
    pub fn new(device: D) -> (r: Result<Self>)
        ensures
            match r {
                Ok(v) => v.wf() && v.device == device && v.mft_cache@.len() == 0 && (boot_sector_of(
                    device,
                ) matches Ok(bs) && v.info == info_of(bs)),
                Err(e) => boot_sector_of(device) == Err::<BootSector, Error>(e),
            },
    {
        let bs = read_boot_sector(&device)?;
        Ok(NtfsFs { device, info: NtfsInfo::new(bs), mft_cache: Vec::new() })
    }

    /// What is known of the volume.
    pub fn info(&self) -> (r: &NtfsInfo)
        ensures
            *r == self.info,
    {
        &self.info
    }

    /// The device the volume is on.
    pub fn device(&self) -> (r: &D)
        ensures
            *r == self.device,
    {
        &self.device
    }

    /// The name of the filesystem.
    pub fn name(&self) -> (r: &str)
        ensures
            r@ == "ntfs"@,
    {
        "ntfs"
    }

    /// Reads a record of the master file table and keeps it in memory: a later read gives it
    /// without the device, until the volume is dropped. A read that failed leaves nothing.
    pub fn read_mft_record(&mut self, record_number: u64) -> (r: Result<Vec<u8>>)
        ensures
            final(self).device == old(self).device,
            final(self).info == old(self).info,
            old(self).wf() ==> final(self).wf(),
            match r {
                Ok(v) => old(self).record(record_number) == Ok::<Seq<u8>, Error>(v@) && cached_from(
                    final(self).mft_cache@,
                    record_number,
                    0,
                ) == Some(v@) && (old(self).wf() ==> v@.len() == old(self).info.mft_record_size
                    && is_mft_record(v@)),
                Err(e) => old(self).record(record_number) == Err::<Seq<u8>, Error>(e)
                    && *final(self) == *old(self),
            },
            forall|n: u64|
                #![trigger final(self).record(n)]
                final(self).record(n) == old(self).record(n),
    {
        let ghost start = *self;
        let mut i: usize = 0;
        while i < self.mft_cache.len()
            invariant
                *self == start,
                start == *old(self),
                i <= self.mft_cache@.len(),
                cached_from(self.mft_cache@, record_number, 0) == cached_from(
                    self.mft_cache@,
                    record_number,
                    i as int,
                ),
            decreases self.mft_cache@.len() - i,
        {
            if self.mft_cache[i].number == record_number {
                proof {
                    if start.wf() {
                        lemma_cached_ok(
                            self.mft_cache@,
                            self.info.mft_record_size,
                            record_number,
                            0,
                        );
                    }
                }
                return Ok(copy_all(self.mft_cache[i].record.as_slice()));
            }
            i = i + 1;
        }
        let place: u64 = match locate_record(&self.info, record_number) {
            None => {
                return Err(Error::InvalidArgument);
            },
            Some(p) => p,
        };
        let mut record = read_exact(
            &self.device,
            place / 512 * 512,
            self.info.mft_record_size as usize,
        )?;
        let header = match MftRecordHeader::parse(record.as_slice()) {
            None => {
                return Err(Error::InvalidArgument);
            },
            Some(h) => h,
        };
        let ghost raw = record@;
        apply_usa_fixup(&mut record, &header);
        let ghost cache = self.mft_cache@;
        let entry = CachedRecord {
            number: record_number,
            record: copy_all(record.as_slice()),
        };
        let ghost added = entry;
        self.mft_cache.push(entry);
        proof {
            assert forall|n: u64| #![trigger self.record(n)] self.record(n) == start.record(n) by {
                lemma_cached_push(cache, added, n, 0);
            }
            lemma_cached_push(cache, added, record_number, 0);
            lemma_fixed_front(raw, u16_at(raw, 4) as int, u16_at(raw, 6) - 1);
            assert(record@.take(4) =~= raw.take(4));
            if start.wf() {
                assert forall|i: int|
                    #![trigger self.mft_cache@[i]]
                    0 <= i < self.mft_cache@.len() implies self.mft_cache@[i].record@.len()
                    == self.info.mft_record_size && is_mft_record(self.mft_cache@[i].record@) by {
                    if i < cache.len() {
                        assert(self.mft_cache@[i] == cache[i]);
                    }
                }
            }
        }
        Ok(record)
    }

    /// The root directory.
    pub fn root_vnode(&mut self) -> (r: Result<NtfsVnode>)
        ensures
            final(self).device == old(self).device,
            final(self).info == old(self).info,
            old(self).wf() ==> final(self).wf(),
            match r {
                Ok(n) => old(self).record(ROOT_RECORD) == Ok::<Seq<u8>, Error>(n.mft_record@)
                    && n.mft_record_number == ROOT_RECORD && n.first_cluster == 0 && n.file_size
                    == 0 && n.kind == NodeKind::Directory,
                Err(e) => old(self).record(ROOT_RECORD) == Err::<Seq<u8>, Error>(e),
            },
            forall|n: u64|
                #![trigger final(self).record(n)]
                final(self).record(n) == old(self).record(n),
    {
        let mft_record = self.read_mft_record(ROOT_RECORD)?;
        Ok(
            NtfsVnode {
                mft_record,
                mft_record_number: ROOT_RECORD,
                first_cluster: 0,
                file_size: 0,
                kind: NodeKind::Directory,
            },
        )
    }

    /// Looks a path up. Every path leads to the root directory.
    pub fn lookup(&mut self, _path: &str) -> (r: Result<NtfsVnode>)
        ensures
            final(self).device == old(self).device,
            final(self).info == old(self).info,
            old(self).wf() ==> final(self).wf(),
            match r {
                Ok(n) => old(self).record(ROOT_RECORD) == Ok::<Seq<u8>, Error>(n.mft_record@)
                    && n.mft_record_number == ROOT_RECORD && n.first_cluster == 0 && n.file_size
                    == 0 && n.kind == NodeKind::Directory,
                Err(e) => old(self).record(ROOT_RECORD) == Err::<Seq<u8>, Error>(e),
            },
            forall|n: u64|
                #![trigger final(self).record(n)]
                final(self).record(n) == old(self).record(n),
    {
        self.root_vnode()
    }

    /// Lists a directory. Every entry is the placeholder `dummy`.
    pub fn read_dir(&mut self, path: &str, _index: usize) -> (r: Result<DirectoryEntry>)
        ensures
            final(self).device == old(self).device,
            final(self).info == old(self).info,
            old(self).wf() ==> final(self).wf(),
            forall|n: u64|
                #![trigger final(self).record(n)]
                final(self).record(n) == old(self).record(n),
            match r {
                Ok(d) => old(self).record(ROOT_RECORD) is Ok && d.kind == NodeKind::File && d.size
                    == 0 && d.name@ == "dummy"@ && d.security == root_descriptor(NodeKind::File),
                Err(e) => old(self).record(ROOT_RECORD) == Err::<Seq<u8>, Error>(e),
            },
    {
        let _ = self.lookup(path)?;
        Ok(DirectoryEntry::new(NodeKind::File, 0, "dummy".to_owned()))
    }

    /// Not implemented.
    pub fn rename(&self, _old_path: &str, _new_path: &str) -> (r: Result<()>)
        ensures
            r == Err::<(), Error>(Error::NotImplemented),
    {
        Err(Error::NotImplemented)
    }

    /// Not implemented.
    pub fn create_file(&self, _path: &str) -> (r: Result<()>)
        ensures
            r == Err::<(), Error>(Error::NotImplemented),
    {
        Err(Error::NotImplemented)
    }

    /// Not implemented.
    pub fn create_dir(&self, _path: &str) -> (r: Result<()>)
        ensures
            r == Err::<(), Error>(Error::NotImplemented),
    {
        Err(Error::NotImplemented)
    }

    /// Not implemented.
    pub fn remove_path(&self, _path: &str) -> (r: Result<()>)
        ensures
            r == Err::<(), Error>(Error::NotImplemented),
    {
        Err(Error::NotImplemented)
    }
}

proof fn lemma_cached_push(cache: Seq<CachedRecord>, e: CachedRecord, n: u64, i: int)
    requires
        0 <= i <= cache.len(),
    ensures
        cached_from(cache.push(e), n, i) == match cached_from(cache, n, i) {
            Some(r) => Some(r),
            None => if e.number == n {
                Some(e.record@)
            } else {
                None
            },
        },
    decreases cache.len() - i,
{
    let longer = cache.push(e);
    if i < cache.len() {
        assert(longer[i] == cache[i]);
        if cache[i].number != n {
            lemma_cached_push(cache, e, n, i + 1);
        }
    } else {
        assert(longer[i] == e);
        if e.number != n {
            assert(cached_from(longer, n, i + 1) is None);
        }
    }
}

/// A file or directory of a mounted volume.
pub struct NtfsVnode {
    pub mft_record: Vec<u8>,
    pub mft_record_number: u64,
    pub first_cluster: u64,
    pub file_size: u64,
    pub kind: NodeKind,
}

/// The attributes in a record, refused where the header is wrong or points past the end.
pub open spec fn record_attrs(record: Seq<u8>) -> core::result::Result<Seq<AttrView>, Error> {
    if !is_mft_record(record) || u16_at(record, 20) > record.len() {
        Err(Error::InvalidArgument)
    } else {
        Ok(attrs_from(record.skip(u16_at(record, 20) as int), 0))
    }
}

fn read_attrs(record: &Vec<u8>) -> (r: Result<Vec<ParsedAttr>>)
    ensures
        match r {
            Ok(v) => record_attrs(record@) == Ok::<Seq<AttrView>, Error>(attr_views(v@)),
            Err(e) => record_attrs(record@) == Err::<Seq<AttrView>, Error>(e),
        },
{
    let header = match MftRecordHeader::parse(record.as_slice()) {
        None => {
            return Err(Error::InvalidArgument);
        },
        Some(h) => h,
    };
    let from: usize = header.size() as usize;
    if from > record.len() {
        return Err(Error::InvalidArgument);
    }
    let rest = vstd::slice::slice_subrange(record.as_slice(), from, record.len());
    assert(rest@ =~= record@.skip(from as int));
    Ok(parse_attributes(rest))
}

/// The data attribute of a record.
pub open spec fn data_attr(record: Seq<u8>) -> core::result::Result<AttrView, Error> {
    match record_attrs(record) {
        Err(e) => Err(e),
        Ok(attrs) => match attr_of_type(attrs, ATTR_TYPE_DATA, 0) {
            None => Err(Error::NotFound),
            Some(k) => Ok(attrs[k]),
        },
    }
}

/// The header that is stored for an attribute.
pub open spec fn stored_header(a: AttrView) -> Seq<u8> {
    le32(a.attr_type) + le32((24 + a.content.len()) as u32) + seq![
        (if a.data_runs_offset is Some {
            1u8
        } else {
            0u8
        }),
        0u8,
        0u8,
        0u8,
        0u8,
        0u8,
        0u8,
        0u8,
    ] + le32(a.data_size) + le16(
        match a.data_runs_offset {
            Some(o) => o as u16,
            None => 0u16,
        },
    ) + seq![0u8, 0u8]
}

/// A record with attributes stored from `at` on, from attribute `k`: each header, then
/// the contents, as far as they fit.
pub open spec fn stored_from(record: Seq<u8>, attrs: Seq<AttrView>, k: int, at: int) -> Seq<u8>
    decreases attrs.len() - k,
{
    if k < 0 || k >= attrs.len() {
        record
    } else if at + 24 > record.len() {
        stored_from(record, attrs, k + 1, at)
    } else {
        let a = attrs[k];
        let with_header = put(record, at, stored_header(a));
        if at + 24 + a.content.len() > record.len() {
            stored_from(with_header, attrs, k + 1, at + 24)
        } else {
            stored_from(
                put(with_header, at + 24, a.content),
                attrs,
                k + 1,
                at + 24 + a.content.len(),
            )
        }
    }
}

fn header_bytes(a: &ParsedAttr) -> (r: Vec<u8>)
    ensures
        r@ == stored_header(a@),
        r@.len() == 24,
{
    let mut h: Vec<u8> = zero_vec(24);
    let ghost z = h@;
    let len: u32 = (24 + a.content.len() as u128) as u32;
    let runs: u16 = match a.data_runs_offset {
        Some(o) => o as u16,
        None => 0,
    };
    write_u32(h.as_mut_slice(), 0, a.attr_type);
    write_u32(h.as_mut_slice(), 4, len);
    if a.data_runs_offset.is_some() {
        h.set(8, 1);
    }
    write_u32(h.as_mut_slice(), 16, a.data_size);
    write_u16(h.as_mut_slice(), 20, runs);
    assert(h@ =~= stored_header(a@));
    h
}

/// Stores attributes into a record, after its header.
pub fn update_mft_record(record: &mut Vec<u8>, attributes: &Vec<ParsedAttr>)
    ensures
        final(record)@ == stored_from(old(record)@, attr_views(attributes@), 0, 48),
        final(record)@.len() == old(record)@.len(),
{
    let ghost start = record@;
    let ghost views = attr_views(attributes@);
    let total: usize = record.len();
    let mut at: usize = 48;
    let mut k: usize = 0;
    while k < attributes.len()
        invariant
            k <= attributes@.len(),
            views == attr_views(attributes@),
            record@.len() == total,
            start.len() == total,
            start == old(record)@,
            at <= total || at == 48,
            stored_from(start, views, 0, 48) == stored_from(record@, views, k as int, at as int),
        decreases attributes@.len() - k,
    {
        let a = &attributes[k];
        assert(views[k as int] == a@);
        if at <= total && total - at >= 24 {
            let header = header_bytes(a);
            write_bytes(record.as_mut_slice(), at, header.as_slice());
            at = at + 24;
            if a.content.len() <= total - at {
                write_bytes(record.as_mut_slice(), at, a.content.as_slice());
                at = at + a.content.len();
            }
        }
        k = k + 1;
    }
}

/// What is left to write after some runs: where in the file, from which byte of the data,
/// and the device contents so far.
pub struct WriteState {
    pub image: Seq<u8>,
    pub at: int,
    pub from: int,
}

/// The part of a write that falls on one run: a run covers the bytes of the volume it
/// lies on, and whole clusters are transferred.
pub open spec fn run_written(
    run: DataRun,
    cluster: int,
    data: Seq<u8>,
    s: WriteState,
) -> WriteState {
    let base = run.lcn * cluster;
    let size = run.cluster_count * cluster;
    let left = data.len() - s.from;
    if run.lcn < 0 || s.at >= base + size || left <= 0 {
        s
    } else {
        let from = if s.at > base {
            s.at - base
        } else {
            0
        };
        let to = smaller(
            if s.at + left > base {
                s.at + left - base
            } else {
                0
            },
            size,
        );
        let n = to - from;
        if n <= 0 {
            s
        } else {
            WriteState {
                image: put(
                    s.image,
                    (run.lcn + from / cluster) * cluster,
                    data.subrange(s.from, s.from + n / cluster * cluster),
                ),
                at: s.at + n,
                from: s.from + n,
            }
        }
    }
}

impl NtfsVnode {
    /// The name of every node.
    pub fn name(&self) -> (r: &str)
        ensures
            r@ == "ntfs_file"@,
    {
        "ntfs_file"
    }

    /// What kind of node it is.
    pub fn kind(&self) -> (r: NodeKind)
        ensures
            r == self.kind,
    {
        self.kind
    }

    /// The size in bytes.
    pub fn size(&self) -> (r: usize)
        ensures
            r == self.file_size as usize,
    {
        self.file_size as usize
    }

    /// Reads file data through the runs of the data attribute.
    pub fn read<D: BlockDevice>(&self, fs: &NtfsFs<D>, offset: u64, buffer: &mut [u8]) -> (r: Result<
        usize,
    >)
        ensures
            match data_attr(self.mft_record@) {
                Err(e) => r == Err::<usize, Error>(e) && final(buffer)@ == old(buffer)@,
                Ok(a) => {
                    let want = file_read(
                        fs.device,
                        fs.info.cluster_size as int,
                        a.data_runs,
                        a.data_size as int,
                        offset as int,
                        old(buffer)@,
                    );
                    &&& final(buffer)@ == want.buf
                    &&& match want.fault {
                        Some(e) => r == Err::<usize, Error>(e),
                        None => r == Ok::<usize, Error>(want.total as usize),
                    }
                },
            },
    {
        let attrs = read_attrs(&self.mft_record)?;
        let k: usize = match find_attr(&attrs, ATTR_TYPE_DATA) {
            None => {
                return Err(Error::NotFound);
            },
            Some(k) => k,
        };
        assert(attr_views(attrs@)[k as int] == attrs@[k as int]@);
        read_from_runs(
            &fs.device,
            &fs.info,
            attrs[k].data_runs.as_slice(),
            attrs[k].data_size as u64,
            offset,
            buffer,
        )
    }

    /// Sets the size in the data attribute.
    pub fn set_len(&mut self, len: u64) -> (r: Result<()>)
        ensures
            final(self).mft_record_number == old(self).mft_record_number,
            final(self).first_cluster == old(self).first_cluster,
            final(self).kind == old(self).kind,
            match record_attrs(old(self).mft_record@) {
                Err(e) => r == Err::<(), Error>(e) && *final(self) == *old(self),
                Ok(attrs) => match attr_of_type(attrs, ATTR_TYPE_DATA, 0) {
                    None => r == Err::<(), Error>(Error::NotFound) && *final(self) == *old(self),
                    Some(k) => r is Ok && final(self).file_size == len && final(self).mft_record@
                        == stored_from(
                        old(self).mft_record@,
                        attrs.update(k, AttrView { data_size: len as u32, ..attrs[k] }),
                        0,
                        48,
                    ),
                },
            },
    {
        let mut attrs = read_attrs(&self.mft_record)?;
        let k: usize = match find_attr(&attrs, ATTR_TYPE_DATA) {
            None => {
                return Err(Error::NotFound);
            },
            Some(k) => k,
        };
        let ghost views = attr_views(attrs@);
        attrs[k].data_size = len as u32;
        assert(attr_views(attrs@) =~= views.update(
            k as int,
            AttrView { data_size: len as u32, ..views[k as int] },
        ));
        self.file_size = len;
        update_mft_record(&mut self.mft_record, &attrs);
        Ok(())
    }
}

/// A write that has gone over the runs from `k` on.
pub open spec fn runs_written(
    runs: Seq<DataRun>,
    k: int,
    cluster: int,
    data: Seq<u8>,
    s: WriteState,
) -> WriteState
    decreases runs.len() - k,
{
    if k < 0 || k >= runs.len() {
        s
    } else {
        runs_written(runs, k + 1, cluster, data, run_written(runs[k], cluster, data, s))
    }
}

/// Whether a device holds every block of the runs.
pub open spec fn runs_fit(runs: Seq<DataRun>, cluster: int, len: int) -> bool {
    forall|k: int|
        #![trigger runs[k]]
        0 <= k < runs.len() && runs[k].lcn >= 0 ==> block_end(
            runs[k].lcn * cluster + runs[k].cluster_count * cluster,
        ) <= len
}

/// The attributes of a record with a data attribute, an empty one if there was none, and
/// where it is.
pub open spec fn with_data_attr(attrs: Seq<AttrView>) -> (Seq<AttrView>, int) {
    match attr_of_type(attrs, ATTR_TYPE_DATA, 0) {
        Some(k) => (attrs, k),
        None => (
            attrs.push(
                AttrView {
                    attr_type: ATTR_TYPE_DATA,
                    content: seq![],
                    data_runs_offset: None,
                    data_runs: seq![],
                    data_size: 0,
                },
            ),
            attrs.len() as int,
        ),
    }
}

proof fn lemma_run_place(lcn: int, count: int, cluster: int, from: int, n: int)
    requires
        0 <= lcn <= i64::MAX,
        0 <= count <= u64::MAX,
        0 < cluster <= u32::MAX,
        0 <= from,
        0 <= n,
        from + n <= count * cluster,
    ensures
        from / cluster * cluster <= from,
        n / cluster * cluster <= n,
        0 <= n / cluster * cluster,
        (lcn + from / cluster) * cluster == lcn * cluster + from / cluster * cluster,
        0 <= lcn * cluster,
        0 <= from / cluster * cluster,
        0 <= from / cluster,
        0 <= n / cluster,
        lcn + from / cluster <= lcn + from,
{
    assert(from / cluster * cluster <= from && 0 <= from / cluster) by (nonlinear_arith)
        requires
            0 < cluster,
            0 <= from,
    ;
    assert(n / cluster * cluster <= n && 0 <= n / cluster) by (nonlinear_arith)
        requires
            0 < cluster,
            0 <= n,
    ;
    assert(0 <= from / cluster * cluster) by (nonlinear_arith)
        requires
            0 < cluster,
            0 <= from / cluster,
    ;
    assert(0 <= n / cluster * cluster) by (nonlinear_arith)
        requires
            0 < cluster,
            0 <= n / cluster,
    ;
    assert((lcn + from / cluster) * cluster == lcn * cluster + from / cluster * cluster)
        by (nonlinear_arith);
    assert(0 <= lcn * cluster) by (nonlinear_arith)
        requires
            0 <= lcn,
            0 < cluster,
    ;
    assert(from / cluster <= from) by (nonlinear_arith)
        requires
            0 < cluster,
            0 <= from,
    ;
}

/// Whether nothing but the device contents may differ between two devices.
pub open spec fn same_device_state<D: BlockDevice>(a: D, b: D) -> bool {
    &&& b.image().len() == a.image().len()
    &&& b.write_protected() == a.write_protected()
    &&& a.reliable() ==> b.reliable() && b.health() == a.health()
}

/// Devices that report the same answer with the same errors.
proof fn lemma_device_error<D: BlockDevice>(a: D, b: D, e: Error)
    requires
        same_device_state(a, b),
        device_error(b, e),
    ensures
        device_error(a, e),
{
    let (m, lba, block) = choose|m: D, lba: int, block: Seq<u8>|
        m.write_protected() == b.write_protected() && m.image().len() == b.image().len()
            && #[trigger] m.write_fault(lba, block) == Some(e);
    assert(m.write_fault(lba, block) == Some(e));
}

/// Writes the part of the data that falls on one run.
fn write_run<D: BlockDevice>(
    device: &mut D,
    info: &NtfsInfo,
    run: DataRun,
    data: &[u8],
    at: u64,
    from: usize,
) -> (r: Result<(u64, usize)>)
    requires
        from <= data@.len(),
        at + (data@.len() - from) <= u32::MAX,
    ensures
        same_device_state(*old(device), *final(device)),
        ({
            let s = run_written(
                run,
                info.cluster_size as int,
                data@,
                WriteState { image: old(device).image(), at: at as int, from: from as int },
            );
            &&& r matches Ok(v) ==> v.0 == s.at && v.1 == s.from && v.1 <= data@.len() && v.0 + (
            data@.len() - v.1) == at + (data@.len() - from)
            &&& r is Ok && old(device).reliable() ==> final(device).image() == s.image
        }),
        r matches Err(e) ==> device_error(*old(device), e),
        from == data@.len() ==> r is Ok && *final(device) == *old(device),
        old(device).reliable() && !old(device).write_protected() && (run.lcn >= 0 ==> block_end(
            run.lcn * info.cluster_size + run.cluster_count * info.cluster_size,
        ) <= old(device).image().len()) ==> r is Ok,
{
    let left: u64 = (data.len() - from) as u64;
    if run.lcn < 0 || left == 0 {
        return Ok((at, from));
    }
    let cluster: u128 = info.cluster_size as u128;
    proof {
        lemma_wide_product(run.lcn as int, cluster as int);
        lemma_wide_product(run.cluster_count as int, cluster as int);
    }
    let base: u128 = run.lcn as u128 * cluster;
    let size: u128 = run.cluster_count as u128 * cluster;
    if at as u128 >= base + size {
        return Ok((at, from));
    }
    let skip: u128 = if at as u128 > base {
        at as u128 - base
    } else {
        0
    };
    let reach: u128 = if at as u128 + left as u128 > base {
        at as u128 + left as u128 - base
    } else {
        0
    };
    let to: u128 = if reach < size {
        reach
    } else {
        size
    };
    if to <= skip {
        return Ok((at, from));
    }
    let n: u128 = to - skip;
    proof {
        if cluster == 0 {
            assert(run.cluster_count * 0 == 0);
            assert(false);
        }
        lemma_run_place(
            run.lcn as int,
            run.cluster_count as int,
            cluster as int,
            skip as int,
            n as int,
        );
    }
    let lcn: u64 = (run.lcn as u128 + skip / cluster) as u64;
    let count: u64 = (n / cluster) as u64;
    let part = vstd::slice::slice_subrange(data, from, from + n as usize);
    let ghost place = lcn * cluster;
    proof {
        let whole = n as int / cluster as int * cluster as int;
        assert(part@.take(whole) =~= data@.subrange(from as int, from + whole));
        assert(smaller(count * info.cluster_size, part@.len() as int) == whole);
    }
    let ghost before = *device;
    let outcome = write_clusters(device, info, lcn, count, part);
    proof {
        let whole = n as int / cluster as int * cluster as int;
        assert(block_end(place + whole) <= block_end(base + size));
    }
    match outcome {
        Err(e) => Err(e),
        Ok(_) => Ok((at + n as u64, from + n as usize)),
    }
}

/// The outcome of writing to a file.
pub open spec fn write_end<D: BlockDevice>(
    a: NtfsFs<D>,
    b: NtfsFs<D>,
    before: Seq<u8>,
    after: Seq<u8>,
    offset: int,
    data: Seq<u8>,
    r: Result<usize>,
) -> bool {
    &&& b.info == a.info
    &&& b.mft_cache == a.mft_cache
    &&& r is Err ==> after == before
    &&& match record_attrs(before) {
        Err(e) => r == Err::<usize, Error>(e) && b == a,
        Ok(attrs) => {
            let (all, k) = with_data_attr(attrs);
            let runs = all[k].data_runs;
            let cluster = a.info.cluster_size as int;
            let s = runs_written(
                runs,
                0,
                cluster,
                data,
                WriteState { image: a.device.image(), at: offset, from: 0 },
            );
            if offset + data.len() > all[k].data_size {
                r == Err::<usize, Error>(Error::NotImplemented) && b == a
            } else {
                &&& same_device_state(a.device, b.device)
                &&& r matches Ok(n) ==> n == data.len() && after == stored_from(before, all, 0, 48)
                &&& r is Ok && a.device.reliable() ==> b.device.image() == s.image
                &&& r matches Err(e) ==> device_error(a.device, e)
                &&& data.len() == 0 ==> r is Ok && b == a
                &&& a.device.reliable() && !a.device.write_protected() && runs_fit(
                    runs,
                    cluster,
                    a.device.image().len() as int,
                ) ==> r is Ok
            }
        },
    }
}

impl NtfsVnode {
    /// Writes file data in place. A write past the end of the file is not implemented.
    pub fn write<D: BlockDevice>(&mut self, fs: &mut NtfsFs<D>, offset: u64, buffer: &[u8]) -> (r:
        Result<usize>)
        ensures
            final(self).mft_record_number == old(self).mft_record_number,
            final(self).first_cluster == old(self).first_cluster,
            final(self).file_size == old(self).file_size,
            final(self).kind == old(self).kind,
            write_end(
                *old(fs),
                *final(fs),
                old(self).mft_record@,
                final(self).mft_record@,
                offset as int,
                buffer@,
                r,
            ),
    {
        let mut attrs = read_attrs(&self.mft_record)?;
        let ghost views = attr_views(attrs@);
        let k: usize = match find_attr(&attrs, ATTR_TYPE_DATA) {
            Some(k) => k,
            None => {
                let added = ParsedAttr {
                    attr_type: ATTR_TYPE_DATA,
                    content: Vec::new(),
                    data_runs_offset: None,
                    data_runs: Vec::new(),
                    data_size: 0,
                };
                assert(added.content@ =~= seq![]);
                assert(added.data_runs@ =~= seq![]);
                let ghost view = added@;
                attrs.push(added);
                assert(attr_views(attrs@) =~= views.push(view));
                attrs.len() - 1
            },
        };
        let ghost all = attr_views(attrs@);
        assert(with_data_attr(views) == (all, k as int));
        assert(all[k as int] == attrs@[k as int]@);
        let total: usize = buffer.len();
        if offset as u128 + total as u128 > attrs[k].data_size as u128 {
            return Err(Error::NotImplemented);
        }
        let ghost start = *fs;
        let ghost runs = attrs@[k as int].data_runs@;
        let ghost cluster = fs.info.cluster_size as int;
        let ghost whole = runs_written(
            runs,
            0,
            cluster,
            buffer@,
            WriteState { image: start.device.image(), at: offset as int, from: 0 },
        );
        let mut at: u64 = offset;
        let mut from: usize = 0;
        let mut i: usize = 0;
        while i < attrs[k].data_runs.len()
            invariant
                k < attrs@.len(),
                runs == attrs@[k as int].data_runs@,
                i <= runs.len(),
                total == buffer@.len(),
                from <= total,
                offset + total <= u32::MAX,
                at + (total - from) == offset + total,
                start == *old(fs),
                cluster == fs.info.cluster_size,
                fs.info == start.info,
                fs.mft_cache == start.mft_cache,
                *self == *old(self),
                record_attrs(self.mft_record@) == Ok::<Seq<AttrView>, Error>(views),
                with_data_attr(views) == (all, k as int),
                all[k as int].data_runs == runs,
                offset + total <= all[k as int].data_size,
                same_device_state(start.device, fs.device),
                total == 0 ==> from == 0 && fs.device == start.device,
                start.device.reliable() ==> whole == runs_written(
                    runs,
                    i as int,
                    cluster,
                    buffer@,
                    WriteState { image: fs.device.image(), at: at as int, from: from as int },
                ),
                whole == runs_written(
                    runs,
                    0,
                    cluster,
                    buffer@,
                    WriteState { image: start.device.image(), at: offset as int, from: 0 },
                ),
            decreases runs.len() - i,
        {
            let run = attrs[k].data_runs[i];
            assert(runs[i as int] == run);
            let ghost before = fs.device;
            match write_run(&mut fs.device, &fs.info, run, buffer, at, from) {
                Err(e) => {
                    proof {
                        lemma_device_error(start.device, before, e);
                    }
                    return Err(e);
                },
                Ok((next_at, next_from)) => {
                    at = next_at;
                    from = next_from;
                },
            }
            i = i + 1;
        }
        update_mft_record(&mut self.mft_record, &attrs);
        Ok(total)
    }

    /// The entries of a directory: names and nodes.
    pub fn readdir<D: BlockDevice>(&self, fs: &mut NtfsFs<D>) -> (r: Result<
        Vec<(String, NtfsVnode)>,
    >)
        ensures
            final(fs).device == old(fs).device,
            final(fs).info == old(fs).info,
            old(fs).wf() ==> final(fs).wf(),
            forall|n: u64|
                #![trigger final(fs).record(n)]
                final(fs).record(n) == old(fs).record(n),
            match directory_of(self.mft_record@) {
                Err(e) => r matches Err(e2) && e2 == e,
                Ok(list) => match r {
                    Ok(v) => v@.len() == list.len() && forall|i: int|
                        #![trigger v@[i]]
                        0 <= i < list.len() ==> child_of(*old(fs), list[i], v@[i]),
                    Err(e) => first_child_fault(*old(fs), list, e),
                },
            },
    {
        let attrs = read_attrs(&self.mft_record)?;
        let k: usize = match find_attr(&attrs, ATTR_TYPE_INDEX_ROOT) {
            None => {
                return Err(Error::NotFound);
            },
            Some(k) => k,
        };
        assert(attr_views(attrs@)[k as int] == attrs@[k as int]@);
        let names = parse_index_entries(attrs[k].content.as_slice())?;
        let ghost list = index_in(attrs@[k as int].content@);
        let ghost start = *fs;
        let mut out: Vec<(String, NtfsVnode)> = Vec::new();
        let mut i: usize = 0;
        while i < names.len()
            invariant
                i <= names@.len(),
                names@.len() == list.len(),
                forall|j: int|
                    #![trigger names@[j]]
                    0 <= j < names@.len() ==> names@[j].0@ == list[j].1.name && names@[j].1
                        == list[j].0,
                directory_of(self.mft_record@) == Ok::<Seq<IndexEntry>, Error>(list),
                start == *old(fs),
                fs.device == start.device,
                fs.info == start.info,
                start.wf() ==> fs.wf(),
                forall|n: u64| #![trigger fs.record(n)] fs.record(n) == start.record(n),
                out@.len() == i,
                forall|j: int|
                    #![trigger out@[j]]
                    0 <= j < i ==> child_of(start, list[j], out@[j]),
                forall|j: int|
                    #![trigger list[j]]
                    0 <= j < i ==> start.record(list[j].0) is Ok && is_mft_record(
                        start.record(list[j].0)->Ok_0,
                    ),
            decreases names@.len() - i,
        {
            let number: u64 = names[i].1;
            assert(fs.record(number) == start.record(number));
            let ghost middle = *fs;
            let mft_record = match fs.read_mft_record(number) {
                Err(e) => {
                    assert(child_fault(start, list, i as int, e));
                    return Err(e);
                },
                Ok(r) => r,
            };
            proof {
                assert forall|n: u64| #![trigger fs.record(n)] fs.record(n) == start.record(n) by {
                    assert(middle.record(n) == start.record(n));
                }
            }
            let header = match MftRecordHeader::parse(mft_record.as_slice()) {
                None => {
                    assert(child_fault(start, list, i as int, Error::InvalidArgument));
                    return Err(Error::InvalidArgument);
                },
                Some(h) => h,
            };
            let kind = if header.is_dir() {
                NodeKind::Directory
            } else {
                NodeKind::File
            };
            out.push(
                (
                    names[i].0.as_str().to_owned(),
                    NtfsVnode {
                        mft_record,
                        mft_record_number: number,
                        first_cluster: 0,
                        file_size: 0,
                        kind,
                    },
                ),
            );
            i = i + 1;
        }
        Ok(out)
    }
}

/// The entries in the index of a directory's record.
pub open spec fn directory_of(record: Seq<u8>) -> core::result::Result<Seq<IndexEntry>, Error> {
    match record_attrs(record) {
        Err(e) => Err(e),
        Ok(attrs) => match attr_of_type(attrs, ATTR_TYPE_INDEX_ROOT, 0) {
            None => Err(Error::NotFound),
            Some(k) => Ok(index_in(attrs[k].content)),
        },
    }
}

/// Whether a node is the one that an entry of a directory points to.
pub open spec fn child_of<D: BlockDevice>(
    fs: NtfsFs<D>,
    e: IndexEntry,
    n: (String, NtfsVnode),
) -> bool {
    &&& n.0@ == e.1.name
    &&& fs.record(e.0) == Ok::<Seq<u8>, Error>(n.1.mft_record@)
    &&& is_mft_record(n.1.mft_record@)
    &&& n.1.mft_record_number == e.0
    &&& n.1.first_cluster == 0
    &&& n.1.file_size == 0
    &&& n.1.kind == if u16_at(n.1.mft_record@, 22) & MFT_RECORD_DIRECTORY != 0 {
        NodeKind::Directory
    } else {
        NodeKind::File
    }
}

/// Whether a record of a directory cannot be used, and the first such for this reason.
pub open spec fn first_child_fault<D: BlockDevice>(
    fs: NtfsFs<D>,
    list: Seq<IndexEntry>,
    e: Error,
) -> bool {
    exists|i: int| #[trigger] child_fault(fs, list, i, e)
}

/// Whether entry `i` is the first of a directory whose record cannot be used, for this
/// reason.
pub open spec fn child_fault<D: BlockDevice>(
    fs: NtfsFs<D>,
    list: Seq<IndexEntry>,
    i: int,
    e: Error,
) -> bool {
    &&& 0 <= i < list.len()
    &&& forall|j: int|
        #![trigger list[j]]
        0 <= j < i ==> fs.record(list[j].0) is Ok && is_mft_record(fs.record(list[j].0)->Ok_0)
    &&& match fs.record(list[i].0) {
        Err(e2) => e2 == e,
        Ok(r) => !is_mft_record(r) && e == Error::InvalidArgument,
    }
}

} // verus!
