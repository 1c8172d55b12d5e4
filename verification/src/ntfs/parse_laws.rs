//! What boot sectors, records, attributes and links say, told from the writer's side.
use vstd::prelude::*;
use vstd::string::*;

use crate::block::{BlockDevice, law_bytes_are_those_of_the_image};
use crate::bytes::u16_at;
use crate::error::Error;
use crate::ntfs::attributes::{AttrView, IndexEntry, attr_of_type, attrs_from, best_upto, index_in, names_upto, standard_info_from};
use crate::ntfs::index_laws::at_least_as_good;
use crate::ntfs::io::{block_start, boot_sector_of, lemma_fixed_front, lemma_wide_product};
use crate::ntfs::names::{NameView, USER_PREFIX, XattrView, file_name_in, plain_target, reparse_in, units_le, xattrs_from, xattrs_in};
use crate::ntfs::runs::runs_from;
use crate::ntfs::types::{BootSector, MFT_MAGIC, NTFS_MAGIC, NtfsInfo, StandardInfoAttr, boot_sector_in, clusters_of, info_of, lemma_cluster_fits, standard_info_in};
use crate::ntfs::volume::{ROOT_RECORD, data_attr, directory_of, record_attrs, volume_record};
use crate::spelling::{law_eight_bytes, law_four_bytes, law_two_bytes, lemma_between, lemma_low_first, lemma_part_at, lemma_spelled_at, low_first, spells};
use crate::text::utf16_lossy;

verus! {

/// A boot sector's numbers are read from where they are written. The sizes of a record and of
/// an index are counted in clusters here.
pub proof fn law_boot_sector_is_read(buf: Seq<u8>, bs: BootSector)
    requires
        buf.len() >= 84,
        buf.subrange(3, 7) == seq![78u8, 84u8, 70u8, 83u8],
        spells(buf, 11, bs.bytes_per_sector as int, 2),
        buf[13] == bs.sectors_per_cluster,
        spells(buf, 40, bs.total_sectors as int, 8),
        spells(buf, 48, bs.mft_lcn as int, 8),
        spells(buf, 56, bs.mft_mirr_lcn as int, 8),
        0 < bs.clusters_per_mft_record < 128,
        buf[64] == bs.clusters_per_mft_record,
        0 < bs.clusters_per_index_buffer < 128,
        buf[68] == bs.clusters_per_index_buffer,
        spells(buf, 72, bs.volume_serial as int, 4),
    ensures
        boot_sector_in(buf) == Some(bs),
        info_of(bs).cluster_size == bs.bytes_per_sector * bs.sectors_per_cluster,
        info_of(bs).mft_record_size == bs.clusters_per_mft_record * (bs.bytes_per_sector
            * bs.sectors_per_cluster),
        info_of(bs).index_block_size == bs.clusters_per_index_buffer * (bs.bytes_per_sector
            * bs.sectors_per_cluster),
{
    law_two_bytes(buf, 11, bs.bytes_per_sector);
    law_eight_bytes(buf, 40, bs.total_sectors);
    law_eight_bytes(buf, 48, bs.mft_lcn);
    law_eight_bytes(buf, 56, bs.mft_mirr_lcn);
    law_four_bytes(buf, 72, bs.volume_serial);
    assert(NTFS_MAGIC@ =~= seq![78u8, 84u8, 70u8, 83u8]);
    lemma_cluster_fits(bs.bytes_per_sector, bs.sectors_per_cluster);
    let c = bs.bytes_per_sector * bs.sectors_per_cluster;
    let a = bs.clusters_per_mft_record as int;
    let b = bs.clusters_per_index_buffer as int;
    assert(0 <= a * c <= 127 * (65535 * 255)) by (nonlinear_arith)
        requires
            0 <= a <= 127,
            0 <= c <= 65535 * 255,
    ;
    assert(0 <= b * c <= 127 * (65535 * 255)) by (nonlinear_arith)
        requires
            0 <= b <= 127,
            0 <= c <= 65535 * 255,
    ;
}

/// A sector without the four letters is no boot sector of such a volume.
pub proof fn law_other_boot_sector_is_refused(buf: Seq<u8>)
    requires
        buf.len() >= 7,
        buf.subrange(3, 7) != seq![78u8, 84u8, 70u8, 83u8],
    ensures
        boot_sector_in(buf) is None,
{
    assert(NTFS_MAGIC@ =~= seq![78u8, 84u8, 70u8, 83u8]);
}

/// A size that is given as a negative number is a power of two in bytes.
pub proof fn law_size_as_a_power(exponent: u8, cluster: int)
    requires
        1 <= exponent < 32,
        0 < cluster,
        cluster <= vstd::arithmetic::power2::pow2(exponent as nat),
        vstd::arithmetic::power2::pow2(exponent as nat) as int % cluster == 0,
    ensures
        clusters_of((256 - exponent) as u8, cluster) matches Some(n) && n * cluster
            == vstd::arithmetic::power2::pow2(exponent as nat),
{
    let e = exponent as u32;
    vstd::bits::lemma_u32_pow2_no_overflow(exponent as nat);
    vstd::bits::lemma_u32_shl_is_mul(1u32, e);
    let p = vstd::arithmetic::power2::pow2(exponent as nat) as int;
    assert((1u32 << e) as int == p);
    let n = p / cluster;
    vstd::arithmetic::div_mod::lemma_fundamental_div_mod(p, cluster);
    assert(n >= 1) by (nonlinear_arith)
        requires
            p == cluster * n + p % cluster,
            p % cluster == 0,
            cluster <= p,
            0 < cluster,
    ;
    assert(n * cluster == cluster * n) by (nonlinear_arith);
}

/// A volume's record is what the disk holds where it lies: records follow one another from
/// the table's first cluster on, and the block that a record starts in is read from its start.
pub proof fn law_volume_record_place<D: BlockDevice>(device: D, info: NtfsInfo, number: u64)
    requires
        info.mft_record_size > 0,
        volume_record(device, info, number) is Ok,
    ensures
        ({
            let place = info.bs.mft_lcn * info.cluster_size + number * info.mft_record_size;
            let start = place - place % 512;
            let record = volume_record(device, info, number)->Ok_0;
            &&& start + info.mft_record_size <= device.image().len()
            &&& record.len() == info.mft_record_size
            &&& forall|i: int|
                #![trigger record[i]]
                0 <= i < 510 && i < record.len() ==> record[i] == device.image()[start + i]
        }),
{
    let place = info.bs.mft_lcn * info.cluster_size + number * info.mft_record_size;
    lemma_wide_product(info.bs.mft_lcn as int, info.cluster_size as int);
    lemma_wide_product(number as int, info.mft_record_size as int);
    assert(block_start(place) == place - place % 512);
    law_bytes_are_those_of_the_image(device, block_start(place), info.mft_record_size as int);
    let start = place - place % 512;
    let raw = device.image().subrange(start, start + info.mft_record_size);
    lemma_fixed_front(raw, u16_at(raw, 4) as int, u16_at(raw, 6) - 1);
}

/// The root directory is the fifth record.
pub proof fn law_root_is_the_fifth_record()
    ensures
        ROOT_RECORD == 5,
{
}

// ── Attributes ──

/// An attribute whose header says its type and its length is listed, with its type and size,
/// and the attribute after it follows where it ends.
pub proof fn law_attribute_is_listed(buf: Seq<u8>, at: int, kind: u32, len: u32, size: u32)
    requires
        0 <= at,
        at + 24 <= buf.len(),
        0 < len,
        at + len <= buf.len(),
        kind != 0xFFFF_FFFF,
        spells(buf, at, kind as int, 4),
        spells(buf, at + 4, len as int, 4),
        buf[at + 8] == 0,
        spells(buf, at + 16, size as int, 4),
    ensures
        ({
            let all = attrs_from(buf, at);
            let rest = attrs_from(buf, at + len);
            &&& all.len() == rest.len() + 1
            &&& all[0].attr_type == kind
            &&& all[0].data_size == size
            &&& all[0].data_runs_offset is None
            &&& all.skip(1) == rest
        }),
{
    law_four_bytes(buf, at, kind);
    law_four_bytes(buf, at + 4, len);
    law_four_bytes(buf, at + 16, size);
    let all = attrs_from(buf, at);
    assert(all.skip(1) =~= attrs_from(buf, at + len));
}

/// An attribute that is stored elsewhere is listed with its type, its size and its runs, which
/// are read from where its header says.
pub proof fn law_outlying_attribute_is_listed(
    buf: Seq<u8>,
    at: int,
    kind: u32,
    len: u32,
    size: u32,
    runs: u16,
)
    requires
        0 <= at,
        at + 56 <= buf.len(),
        0 < len,
        at + len <= buf.len(),
        kind != 0xFFFF_FFFF,
        spells(buf, at, kind as int, 4),
        spells(buf, at + 4, len as int, 4),
        buf[at + 8] != 0,
        spells(buf, at + 32, runs as int, 2),
        0 < runs,
        runs + 2 <= buf.len(),
        spells(buf, at + 48, size as int, 8),
    ensures
        ({
            let all = attrs_from(buf, at);
            let rest = attrs_from(buf, at + len);
            &&& all.len() == rest.len() + 1
            &&& all[0].attr_type == kind
            &&& all[0].data_size == size
            &&& all[0].data_runs == runs_from(buf.skip(runs as int), 0, 0)
            &&& all.skip(1) == rest
        }),
{
    law_four_bytes(buf, at, kind);
    law_four_bytes(buf, at + 4, len);
    law_two_bytes(buf, at + 32, runs);
    law_eight_bytes(buf, at + 48, size as u64);
    assert((size as u64) as u32 == size);
    let all = attrs_from(buf, at);
    assert(all.skip(1) =~= attrs_from(buf, at + len));
}

/// A record's attributes start where its header says.
pub proof fn law_attributes_start_after_the_header(record: Seq<u8>, from: u16)
    requires
        record.len() >= 48,
        record.take(4) == seq![70u8, 73u8, 76u8, 69u8],
        spells(record, 20, from as int, 2),
        from <= record.len(),
    ensures
        record_attrs(record) == Ok::<Seq<AttrView>, Error>(attrs_from(record.skip(from as int), 0)),
{
    assert(MFT_MAGIC@ =~= seq![70u8, 73u8, 76u8, 69u8]);
    law_two_bytes(record, 20, from);
}

/// A file's data attribute is the first of type 80 hex, and a directory's index the first of
/// type 90 hex.
pub proof fn law_attributes_have_types(record: Seq<u8>, attrs: Seq<AttrView>, k: int)
    requires
        record_attrs(record) == Ok::<Seq<AttrView>, Error>(attrs),
        0 <= k < attrs.len(),
    ensures
        attrs[k].attr_type == 0x80 && (forall|j: int|
            #![trigger attrs[j]]
            0 <= j < k ==> attrs[j].attr_type != 0x80) ==> data_attr(record) == Ok::<
            AttrView,
            Error,
        >(attrs[k]),
        attrs[k].attr_type == 0x90 && (forall|j: int|
            #![trigger attrs[j]]
            0 <= j < k ==> attrs[j].attr_type != 0x90) ==> directory_of(record) == Ok::<
            Seq<IndexEntry>,
            Error,
        >(index_in(attrs[k].content)),
{
    if forall|j: int| #![trigger attrs[j]] 0 <= j < k ==> attrs[j].attr_type != 0x80 {
        if attrs[k].attr_type == 0x80 {
            lemma_first_of_type(attrs, 0x80, 0, k);
        }
    }
    if forall|j: int| #![trigger attrs[j]] 0 <= j < k ==> attrs[j].attr_type != 0x90 {
        if attrs[k].attr_type == 0x90 {
            lemma_first_of_type(attrs, 0x90, 0, k);
        }
    }
}

proof fn lemma_first_of_type(attrs: Seq<AttrView>, kind: u32, i: int, k: int)
    requires
        0 <= i <= k < attrs.len(),
        attrs[k].attr_type == kind,
        forall|j: int| #![trigger attrs[j]] i <= j < k ==> attrs[j].attr_type != kind,
    ensures
        attr_of_type(attrs, kind, i) == Some(k),
    decreases k - i,
{
    if i < k {
        lemma_first_of_type(attrs, kind, i + 1, k);
    }
}

/// The standard information of a file is read from where it is written.
pub proof fn law_standard_info_is_read(buf: Seq<u8>, s: StandardInfoAttr)
    requires
        buf.len() >= 68,
        spells(buf, 0, s.created as int, 8),
        spells(buf, 8, s.modified as int, 8),
        spells(buf, 16, s.mft_changed as int, 8),
        spells(buf, 24, s.accessed as int, 8),
        spells(buf, 32, s.file_attributes as int, 4),
    ensures
        standard_info_in(buf) == Some(s),
{
    law_eight_bytes(buf, 0, s.created);
    law_eight_bytes(buf, 8, s.modified);
    law_eight_bytes(buf, 16, s.mft_changed);
    law_eight_bytes(buf, 24, s.accessed);
    law_four_bytes(buf, 32, s.file_attributes);
}

/// The best of a file's names is one of them, a Win32 name where there is one, and a DOS name
/// only where there is no other.
pub proof fn law_best_name(names: Seq<NameView>, n: int)
    requires
        0 < n <= names.len(),
    ensures
        best_upto(names, n) matches Some(best) && names.contains(best) && forall|i: int|
            #![trigger names[i]]
            0 <= i < n ==> at_least_as_good(best.namespace, names[i].namespace),
    decreases n,
{
    let f = names[n - 1];
    assert(names.contains(f));
    if n > 1 {
        law_best_name(names, n - 1);
        let before = best_upto(names, n - 1)->0;
        let best = best_upto(names, n)->0;
        assert forall|i: int| #![trigger names[i]] 0 <= i < n implies at_least_as_good(
            best.namespace,
            names[i].namespace,
        ) by {
            if i < n - 1 {
                assert(at_least_as_good(before.namespace, names[i].namespace));
            }
        }
    } else {
        assert(best_upto(names, 0) is None);
        assert(best_upto(names, n) == Some(f));
    }
}

// ── Extended attributes ──

/// An extended attribute as a volume stores it.
pub struct StoredEa {
    pub flags: u8,
    pub name: Seq<u8>,
    pub value: Seq<u8>,
}

pub open spec fn storable_ea(e: StoredEa) -> bool {
    e.name.len() <= 255 && e.value.len() <= 0xffff && e.name.len() + e.value.len() > 0
}

/// The bytes of an attribute: how far the next one is, nothing where it is the last, the flags,
/// the lengths of name and value, and both.
pub open spec fn ea_bytes(e: StoredEa, last: bool) -> Seq<u8> {
    low_first(
        if last {
            0
        } else {
            8int + e.name.len() + e.value.len()
        },
        4,
    ) + seq![e.flags, e.name.len() as u8] + low_first(e.value.len() as int, 2) + e.name + e.value
}

pub open spec fn eas_in_turn(list: Seq<StoredEa>) -> Seq<u8>
    decreases list.len(),
{
    if list.len() == 0 {
        seq![]
    } else {
        ea_bytes(list[0], list.len() == 1) + eas_in_turn(list.skip(1))
    }
}

pub open spec fn eas_shown(list: Seq<StoredEa>) -> Seq<XattrView> {
    Seq::new(
        list.len(),
        |i: int|
            XattrView {
                name: seq![117u8, 115u8, 101u8, 114u8, 46u8] + list[i].name,
                value: list[i].value,
            },
    )
}

proof fn lemma_eas_read(front: Seq<u8>, list: Seq<StoredEa>)
    requires
        list.len() > 0,
        forall|i: int| #![trigger list[i]] 0 <= i < list.len() ==> storable_ea(list[i]),
    ensures
        xattrs_from(front + eas_in_turn(list), front.len() as int) == eas_shown(list),
    decreases list.len(),
{
    let content = front + eas_in_turn(list);
    let at = front.len() as int;
    let e = list[0];
    let last = list.len() == 1;
    let b = ea_bytes(e, last);
    let rest = list.skip(1);
    let n = e.name.len() as int;
    let m = e.value.len() as int;
    let next: int = if last {
        0
    } else {
        8 + n + m
    };
    assert(storable_ea(e));
    lemma_low_first(next, 4);
    lemma_low_first(m, 2);
    assert(b.len() == 8 + n + m);
    assert(b.subrange(0, 4) =~= low_first(next, 4));
    assert(b.subrange(6, 8) =~= low_first(m, 2));
    assert(b.subrange(8, 8 + n) =~= e.name);
    assert(b.subrange(8 + n, b.len() as int) =~= e.value);
    assert(b[5] == n);
    lemma_between(front, b, eas_in_turn(rest));
    lemma_part_at(content, at, b, 0, low_first(next, 4));
    lemma_part_at(content, at, b, 6, low_first(m, 2));
    lemma_part_at(content, at, b, 8, e.name);
    lemma_part_at(content, at, b, 8 + n, e.value);
    assert(content.subrange(at, at + b.len())[5] == content[at + 5]);
    lemma_spelled_at(content, at, next, 4);
    lemma_spelled_at(content, at + 6, m, 2);
    law_four_bytes(content, at, next as u32);
    law_two_bytes(content, at + 6, m as u16);
    assert(USER_PREFIX@ =~= seq![117u8, 115u8, 101u8, 114u8, 46u8]);
    let shown = XattrView {
        name: seq![117u8, 115u8, 101u8, 114u8, 46u8] + e.name,
        value: e.value,
    };
    if last {
        assert(seq![shown] =~= eas_shown(list));
    } else {
        assert forall|i: int| #![trigger rest[i]] 0 <= i < rest.len() implies storable_ea(rest[i]) by {
            assert(rest[i] == list[i + 1]);
        }
        lemma_eas_read(front + b, rest);
        assert(seq![shown] + eas_shown(rest) =~= eas_shown(list));
    }
}

/// Every extended attribute that is stored is read, in order, its name in the user's namespace,
/// with its value.
pub proof fn law_extended_attributes_are_read(total: Seq<u8>, list: Seq<StoredEa>)
    requires
        total.len() == 4,
        list.len() > 0,
        forall|i: int| #![trigger list[i]] 0 <= i < list.len() ==> storable_ea(list[i]),
    ensures
        xattrs_in(total + eas_in_turn(list)) == eas_shown(list),
{
    lemma_eas_read(total, list);
}

// ── Links ──

/// A link's target is the text of its substitute name, without the prefix that only the system
/// understands; the print name counts where there is no substitute.
pub proof fn law_link_target_is_read(
    buf: Seq<u8>,
    tag: u32,
    n: u16,
    off: u16,
    len: u16,
    print_off: u16,
    print_len: u16,
)
    requires
        tag == 0xA000_000C || tag == 0xA000_0003,
        8 <= n,
        buf.len() >= 8 + n,
        spells(buf, 0, tag as int, 4),
        spells(buf, 4, n as int, 2),
        spells(buf, 8, off as int, 2),
        spells(buf, 10, len as int, 2),
        spells(buf, 12, print_off as int, 2),
        spells(buf, 14, print_len as int, 2),
        if len > 0 {
            off + len <= n
        } else {
            0 < print_len && print_off + print_len <= n
        },
    ensures
        ({
            let (from, bytes) = if len > 0 {
                (8 + off as int, len as int)
            } else {
                (8 + print_off as int, print_len as int)
            };
            let text = utf16_lossy(
                Seq::new(
                    (bytes / 2) as nat,
                    |i: int| (buf[from + 2 * i] + 256 * buf[from + 2 * i + 1]) as u16,
                ),
            );
            reparse_in(buf) == Some((tag, Some(without_system_prefix(text))))
        }),
{
    law_four_bytes(buf, 0, tag);
    law_two_bytes(buf, 4, n);
    law_two_bytes(buf, 8, off);
    law_two_bytes(buf, 10, len);
    law_two_bytes(buf, 12, print_off);
    law_two_bytes(buf, 14, print_len);
    let (from, bytes) = if len > 0 {
        (8 + off as int, len as int)
    } else {
        (8 + print_off as int, print_len as int)
    };
    let units = Seq::new(
        (bytes / 2) as nat,
        |i: int| (buf[from + 2 * i] + 256 * buf[from + 2 * i + 1]) as u16,
    );
    assert(units_le(buf, from, bytes / 2) =~= units);
    lemma_prefix(utf16_lossy(units));
}

/// A text without `\??\` or `\DosDevices\` before it.
pub open spec fn without_system_prefix(s: Seq<char>) -> Seq<char> {
    let short = seq!['\\', '?', '?', '\\'];
    let long = seq!['\\', 'D', 'o', 's', 'D', 'e', 'v', 'i', 'c', 'e', 's', '\\'];
    if s.len() >= 4 && s.take(4) == short {
        s.skip(4)
    } else if s.len() >= 12 && s.take(12) == long {
        s.skip(12)
    } else {
        s
    }
}

proof fn lemma_prefix(s: Seq<char>)
    ensures
        plain_target(s) == without_system_prefix(s),
{
    reveal_strlit("\\??\\");
    reveal_strlit("\\DosDevices\\");
    assert("\\??\\"@ =~= seq!['\\', '?', '?', '\\']);
    assert("\\DosDevices\\"@ =~= seq![
        '\\',
        'D',
        'o',
        's',
        'D',
        'e',
        'v',
        'i',
        'c',
        'e',
        's',
        '\\',
    ]);
}

/// A reparse point of another kind has a tag and no target.
pub proof fn law_other_reparse_point(buf: Seq<u8>, tag: u32)
    requires
        buf.len() >= 8,
        spells(buf, 0, tag as int, 4),
        tag != 0xA000_000C,
        tag != 0xA000_0003,
    ensures
        reparse_in(buf) == Some((tag, None::<Seq<char>>)),
{
    law_four_bytes(buf, 0, tag);
}

/// The boot sector is read from the first 512 bytes of the disk.
pub proof fn law_boot_sector_is_that_of_the_disk<D: BlockDevice>(device: D, bs: BootSector)
    requires
        boot_sector_of(device) == Ok::<BootSector, Error>(bs),
    ensures
        device.image().len() >= 512,
        boot_sector_in(device.image().subrange(0, 512)) == Some(bs),
{
    law_bytes_are_those_of_the_image(device, 0, 512);
}

/// The names of a file are those of its attributes of type 30 hex that hold one, in order.
pub proof fn law_names_are_listed_one_by_one(attrs: Seq<AttrView>, n: int)
    requires
        0 <= n < attrs.len(),
    ensures
        names_upto(attrs, 0).len() == 0,
        attrs[n].attr_type == 0x30 ==> (file_name_in(attrs[n].content) matches Some(f)
            ==> names_upto(attrs, n + 1) == names_upto(attrs, n).push(f)),
        attrs[n].attr_type != 0x30 || file_name_in(attrs[n].content) is None ==> names_upto(
            attrs,
            n + 1,
        ) == names_upto(attrs, n),
{
}

/// The standard information of a file is that of its first attribute of type 10 hex that holds
/// any.
pub proof fn law_first_standard_info_counts(
    attrs: Seq<AttrView>,
    i: int,
    k: int,
    s: StandardInfoAttr,
)
    requires
        0 <= i <= k < attrs.len(),
        attrs[k].attr_type == 0x10,
        standard_info_in(attrs[k].content) == Some(s),
        forall|j: int| #![trigger attrs[j]] i <= j < k ==> attrs[j].attr_type != 0x10,
    ensures
        standard_info_from(attrs, i) == Some(s),
    decreases k - i,
{
    if i < k {
        assert(attrs[i].attr_type != 0x10);
        law_first_standard_info_counts(attrs, i + 1, k, s);
    }
}

} // verus!
