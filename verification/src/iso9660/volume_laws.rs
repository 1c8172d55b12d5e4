//! What a volume is, where it lies on the disk, and how paths lead through it.
use vstd::prelude::*;

use crate::block::{BlockDevice, bytes_at, law_bytes_are_those_of_the_image, law_bytes_can_be_read};
use crate::error::Error;
use crate::iso9660::descriptors::{BootEntry, JOLIET_ESCAPE, STANDARD_ID, boot_entries_from, boot_entries_in, boot_entry_at, is_descriptor};
use crate::iso9660::records::{RecordView, best_name_of, is_dir_record, record_at};
use crate::iso9660::volume::{FoundView, Iso9660Volume, directory_in, record_named, records_from, root_record_on, volume_on};
use crate::path::segments;
use crate::simplefs::path_laws::lemma_split_join;
use crate::spelling::{has_at, law_four_bytes, law_two_bytes, lemma_between, lemma_low_first, lemma_part_at, lemma_spelled_at, low_first};
use crate::text::{lowercase, split_on};

verus! {

/// Whether the disk holds a descriptor of a kind in a sector: its kind, the five letters and
/// its version.
pub open spec fn descriptor_on(image: Seq<u8>, sector: int, kind: u8) -> bool {
    &&& (sector + 1) * 2048 <= image.len()
    &&& image[sector * 2048] == kind
    &&& image.subrange(sector * 2048 + 1, sector * 2048 + 6) == seq![67u8, 68u8, 48u8, 48u8, 49u8]
    &&& image[sector * 2048 + 6] == 1
}

pub proof fn lemma_standard_id()
    ensures
        STANDARD_ID@ == seq![67u8, 68u8, 48u8, 48u8, 49u8],
        JOLIET_ESCAPE@ == seq![37u8, 47u8, 64u8],
{
    assert(STANDARD_ID@ =~= seq![67u8, 68u8, 48u8, 48u8, 49u8]);
    assert(JOLIET_ESCAPE@ =~= seq![37u8, 47u8, 64u8]);
}

pub proof fn lemma_sector<D: BlockDevice>(device: D, sector: int)
    requires
        0 <= sector,
    ensures
        bytes_at(device, sector * 2048, 2048) matches Ok(b) ==> (sector + 1) * 2048
            <= device.image().len() && b == device.image().subrange(
            sector * 2048,
            (sector + 1) * 2048,
        ),
        device.reliable() && (sector + 1) * 2048 <= device.image().len() ==> bytes_at(
            device,
            sector * 2048,
            2048,
        ) is Ok,
{
    if bytes_at(device, sector * 2048, 2048) is Ok {
        law_bytes_are_those_of_the_image(device, sector * 2048, 2048);
    }
    if device.reliable() && (sector + 1) * 2048 <= device.image().len() {
        law_bytes_can_be_read(device, sector * 2048, 2048);
    }
}

pub proof fn lemma_is_descriptor(image: Seq<u8>, sector: int, kind: u8)
    requires
        0 <= sector,
        (sector + 1) * 2048 <= image.len(),
    ensures
        is_descriptor(image.subrange(sector * 2048, (sector + 1) * 2048), kind) == descriptor_on(
            image,
            sector,
            kind,
        ),
{
    let b = image.subrange(sector * 2048, (sector + 1) * 2048);
    lemma_standard_id();
    assert(b.subrange(1, 6) =~= image.subrange(sector * 2048 + 1, sector * 2048 + 6));
}

/// A volume is one whose sixteenth sector holds a primary descriptor. Its block size is the
/// number in bytes 128 and 129 of the sector, and its root is the record in bytes 156 to 189.
pub proof fn law_primary_descriptor<D: BlockDevice>(device: D)
    requires
        volume_on(device) is Ok,
    ensures
        ({
            let image = device.image();
            let (size, label, joliet) = volume_on(device)->Ok_0;
            &&& descriptor_on(image, 16, 1)
            &&& size as int == image[32896] + 256 * image[32897]
            &&& size > 0 && size % 2048 == 0
            &&& root_record_on(device) == match record_at(image.subrange(32924, 32958), 0, false) {
                Some(r) => Ok(r),
                None => Err::<RecordView, Error>(Error::InvalidArgument),
            }
        }),
{
    lemma_sector(device, 16);
    let image = device.image();
    lemma_is_descriptor(image, 16, 1);
    let b = image.subrange(32768, 34816);
    assert(b.subrange(156, 190) =~= image.subrange(32924, 32958));
}

/// A disk without a primary descriptor holds no volume, and one with a primary descriptor,
/// a block size that is a multiple of a sector and no Joliet descriptor does.
pub proof fn law_volume_is_recognised<D: BlockDevice>(device: D)
    requires
        device.reliable(),
        device.image().len() >= 18 * 2048,
    ensures
        ({
            let image = device.image();
            let size = image[32896] + 256 * image[32897];
            &&& !descriptor_on(image, 16, 1) ==> volume_on(device) is Err
            &&& descriptor_on(image, 16, 1) && (size == 0 || size % 2048 != 0) ==> volume_on(
                device,
            ) is Err
            &&& descriptor_on(image, 16, 1) && size > 0 && size % 2048 == 0 && !descriptor_on(
                image,
                17,
                2,
            ) ==> volume_on(device) is Ok && volume_on(device)->Ok_0.2 is None
            &&& descriptor_on(image, 16, 1) && size > 0 && size % 2048 == 0 && descriptor_on(
                image,
                17,
                2,
            ) && image.subrange(34904, 34907) == seq![37u8, 47u8, 64u8] ==> match record_at(
                image.subrange(34972, 35006),
                0,
                true,
            ) {
                Some(r) => volume_on(device) is Ok && volume_on(device)->Ok_0.2 == Some(r),
                None => volume_on(device) is Err,
            }
        }),
{
    lemma_sector(device, 16);
    lemma_sector(device, 17);
    lemma_standard_id();
    let image = device.image();
    lemma_is_descriptor(image, 16, 1);
    lemma_is_descriptor(image, 17, 2);
    let a = image.subrange(32768, 34816);
    let b = image.subrange(34816, 36864);
    assert(a.subrange(128, 132)[0] == image[32896]);
    assert(a.subrange(128, 132)[1] == image[32897]);
    assert(b.subrange(88, 91) =~= image.subrange(34904, 34907));
    assert(b.subrange(156, 190) =~= image.subrange(34972, 35006));
}

/// A directory's entries are the records that the disk holds in its extent.
pub proof fn law_directory_is_read_from_the_disk<D: BlockDevice>(
    device: D,
    block_size: u16,
    location: u32,
    size: u32,
    joliet: bool,
)
    requires
        0 < size,
        directory_in(device, block_size, location, size, joliet) is Ok,
    ensures
        location * block_size + size <= device.image().len(),
        directory_in(device, block_size, location, size, joliet)->Ok_0 == records_from(
            device.image().subrange(location * block_size, location * block_size + size),
            0,
            joliet,
        ),
{
    assert(0 <= location * block_size) by (nonlinear_arith);
    law_bytes_are_those_of_the_image(device, location * block_size, size as int);
}

// ── Paths ──

proof fn lemma_record_named(entries: Seq<RecordView>, name: Seq<char>, i: int)
    requires
        0 <= i,
    ensures
        match record_named(entries, name, i) {
            Some(k) => i <= k < entries.len() && lowercase(best_name_of(entries[k])) == lowercase(
                name,
            ) && forall|j: int|
                #![trigger entries[j]]
                i <= j < k ==> lowercase(best_name_of(entries[j])) != lowercase(name),
            None => forall|j: int|
                #![trigger entries[j]]
                i <= j < entries.len() ==> lowercase(best_name_of(entries[j])) != lowercase(name),
        },
    decreases entries.len() - i,
{
    if i < entries.len() && lowercase(best_name_of(entries[i])) != lowercase(name) {
        lemma_record_named(entries, name, i + 1);
    }
}

pub proof fn lemma_segments_join(path: Seq<char>, name: Seq<char>)
    requires
        name.len() > 0,
        !name.contains('/'),
    ensures
        segments(path + seq!['/'] + name) == segments(path).push(name),
{
    lemma_split_join(path, name, '/');
    let pieces = split_on(path, '/');
    assert(pieces.push(name).drop_last() =~= pieces);
}

proof fn lemma_walk_on<D: BlockDevice>(
    v: Iso9660Volume<D>,
    entries: Seq<RecordView>,
    parts: Seq<Seq<char>>,
    i: int,
    name: Seq<char>,
)
    requires
        0 <= i < parts.len(),
    ensures
        v.walk(entries, parts.push(name), i) == match v.walk(entries, parts, i) {
            Err(e) => Err::<FoundView, Error>(e),
            Ok((r, None)) => Err(Error::NotFound),
            Ok((r, Some(sub))) => v.walk(sub, seq![name], 0),
        },
    decreases parts.len() - i,
{
    let all = parts.push(name);
    assert(all[i] == parts[i]);
    lemma_record_named(entries, parts[i], 0);
    match record_named(entries, parts[i], 0) {
        None => {},
        Some(k) => {
            let r = entries[k];
            if is_dir_record(r) {
                match v.entries_of(r) {
                    Err(_) => {},
                    Ok(sub) => {
                        if i == parts.len() - 1 {
                            assert(all[i + 1] == name);
                            lemma_last_step(v, sub, all, i + 1, name);
                        } else {
                            lemma_walk_on(v, sub, parts, i + 1, name);
                        }
                    },
                }
            }
        },
    }
}

proof fn lemma_last_step<D: BlockDevice>(
    v: Iso9660Volume<D>,
    sub: Seq<RecordView>,
    all: Seq<Seq<char>>,
    i: int,
    name: Seq<char>,
)
    requires
        0 <= i == all.len() - 1,
        all[i] == name,
    ensures
        v.walk(sub, all, i) == v.walk(sub, seq![name], 0),
{
}

/// A path one longer leads to the first entry of that name in the directory that the path
/// leads to, whatever the case of its letters; to nothing where there is none. A directory
/// comes with the entries of its own extent.
pub proof fn law_path_leads_to_the_entry<D: BlockDevice>(
    v: Iso9660Volume<D>,
    path: Seq<char>,
    entries: Seq<RecordView>,
    r: RecordView,
    name: Seq<char>,
    k: int,
)
    requires
        v.resolved(path) == Ok::<FoundView, Error>((r, Some(entries))),
        name.len() > 0,
        !name.contains('/'),
        0 <= k <= entries.len(),
        forall|j: int|
            #![trigger entries[j]]
            0 <= j < k ==> lowercase(best_name_of(entries[j])) != lowercase(name),
        k < entries.len() ==> lowercase(best_name_of(entries[k])) == lowercase(name),
    ensures
        ({
            let found = v.resolved(path + seq!['/'] + name);
            if k == entries.len() {
                found == Err::<FoundView, Error>(Error::NotFound)
            } else if entries[k].flags & 2 == 0 {
                found == Ok::<FoundView, Error>((entries[k], None))
            } else {
                match directory_in(
                    v.device,
                    v.block_size,
                    entries[k].extent_location,
                    entries[k].extent_size,
                    v.joliet() is Some,
                ) {
                    Ok(sub) => found == Ok::<FoundView, Error>((entries[k], Some(sub))),
                    Err(e) => found == Err::<FoundView, Error>(e),
                }
            }
        }),
{
    lemma_segments_join(path, name);
    let parts = segments(path);
    let all = parts.push(name);
    lemma_record_named(entries, name, 0);
    if parts.len() > 0 {
        lemma_walk_on(v, v.root_entries()->Ok_0, parts, 0, name);
    } else {
        assert(all =~= seq![name]);
    }
    assert(seq![name][0] == name);
}

/// Nothing lies below what is no directory.
pub proof fn law_nothing_below_a_file<D: BlockDevice>(
    v: Iso9660Volume<D>,
    path: Seq<char>,
    r: RecordView,
    name: Seq<char>,
)
    requires
        v.resolved(path) == Ok::<FoundView, Error>((r, None)),
        name.len() > 0,
        !name.contains('/'),
    ensures
        v.resolved(path + seq!['/'] + name) == Err::<FoundView, Error>(Error::NotFound),
{
    lemma_segments_join(path, name);
    let parts = segments(path);
    if parts.len() > 0 {
        lemma_walk_on(v, v.root_entries()->Ok_0, parts, 0, name);
    }
}

// ── Boot catalogs ──

/// An entry of a boot catalog as a disk holds it.
pub struct StoredBoot {
    pub indicator: u8,
    pub media: u8,
    pub segment: u16,
    pub system: Seq<u8>,
    pub sectors: u16,
    pub place: u32,
    pub rest: Seq<u8>,
}

#[verifier::opaque]
pub open spec fn boot_bytes(b: StoredBoot) -> Seq<u8> {
    seq![b.indicator, b.media] + low_first(b.segment as int, 2) + b.system + low_first(
        b.sectors as int,
        2,
    ) + low_first(b.place as int, 4) + b.rest
}

pub open spec fn storable_boot(b: StoredBoot) -> bool {
    b.system.len() == 2 && b.rest.len() == 20
}

pub open spec fn boots_in_turn(boots: Seq<StoredBoot>) -> Seq<u8>
    decreases boots.len(),
{
    if boots.len() == 0 {
        seq![]
    } else {
        boot_bytes(boots[0]) + boots_in_turn(boots.skip(1))
    }
}

/// What a catalog lists: every entry that is neither empty nor the header of a section.
pub open spec fn shown_boots(boots: Seq<StoredBoot>) -> Seq<BootEntry>
    decreases boots.len(),
{
    if boots.len() == 0 {
        seq![]
    } else {
        let b = boots[0];
        let rest = shown_boots(boots.skip(1));
        if b.indicator == 0 || b.indicator == 0x90 || b.indicator == 0x91 {
            rest
        } else {
            seq![
                BootEntry {
                    bootable: b.indicator == 0x88,
                    media_type: b.media,
                    load_segment: b.segment,
                    sector_count: b.sectors,
                    load_rba: b.place,
                },
            ] + rest
        }
    }
}

proof fn lemma_boot_read(data: Seq<u8>, at: int, b: StoredBoot)
    requires
        storable_boot(b),
        has_at(data, at, boot_bytes(b)),
    ensures
        boot_bytes(b).len() == 32,
        data[at] == b.indicator,
        boot_entry_at(data, at) == (BootEntry {
            bootable: b.indicator == 0x88,
            media_type: b.media,
            load_segment: b.segment,
            sector_count: b.sectors,
            load_rba: b.place,
        }),
{
    reveal(boot_bytes);
    let w = boot_bytes(b);
    lemma_low_first(b.segment as int, 2);
    lemma_low_first(b.sectors as int, 2);
    lemma_low_first(b.place as int, 4);
    assert(w.len() == 32);
    assert(w.subrange(2, 4) =~= low_first(b.segment as int, 2));
    assert(w.subrange(6, 8) =~= low_first(b.sectors as int, 2));
    assert(w.subrange(8, 12) =~= low_first(b.place as int, 4));
    lemma_part_at(data, at, w, 2, low_first(b.segment as int, 2));
    lemma_part_at(data, at, w, 6, low_first(b.sectors as int, 2));
    lemma_part_at(data, at, w, 8, low_first(b.place as int, 4));
    lemma_spelled_at(data, at + 2, b.segment as int, 2);
    lemma_spelled_at(data, at + 6, b.sectors as int, 2);
    lemma_spelled_at(data, at + 8, b.place as int, 4);
    law_two_bytes(data, at + 2, b.segment);
    law_two_bytes(data, at + 6, b.sectors);
    law_four_bytes(data, at + 8, b.place);
    assert(data.subrange(at, at + 32)[0] == data[at]);
    assert(data.subrange(at, at + 32)[1] == data[at + 1]);
}

proof fn lemma_boots_shown(front: Seq<u8>, boots: Seq<StoredBoot>)
    requires
        forall|i: int| #![trigger boots[i]] 0 <= i < boots.len() ==> storable_boot(boots[i]),
    ensures
        boot_entries_from(front + boots_in_turn(boots), front.len() as int) == shown_boots(boots),
    decreases boots.len(),
{
    let data = front + boots_in_turn(boots);
    if boots.len() > 0 {
        let first = boot_bytes(boots[0]);
        let rest = boots.skip(1);
        lemma_between(front, first, boots_in_turn(rest));
        assert(storable_boot(boots[0]));
        lemma_boot_read(data, front.len() as int, boots[0]);
        assert forall|i: int| #![trigger rest[i]] 0 <= i < rest.len() implies storable_boot(rest[i]) by {
            assert(rest[i] == boots[i + 1]);
        }
        lemma_boots_shown(front + first, rest);
    }
}

/// A catalog that starts with a validation entry lists every boot entry after it, in order:
/// whether it can be booted, how, where it is loaded, how much of it and from where.
pub proof fn law_catalog_lists_every_entry(validation: Seq<u8>, boots: Seq<StoredBoot>)
    requires
        validation.len() == 32,
        validation[0] == 1,
        validation[30] == 0x55,
        validation[31] == 0xaa,
        boots.len() > 0,
        forall|i: int| #![trigger boots[i]] 0 <= i < boots.len() ==> storable_boot(boots[i]),
    ensures
        boot_entries_in(validation + boots_in_turn(boots)) == shown_boots(boots),
{
    assert(storable_boot(boots[0]));
    let data = validation + boots_in_turn(boots);
    assert(boots_in_turn(boots).len() >= 32) by {
        reveal(boot_bytes);
        lemma_low_first(boots[0].segment as int, 2);
        lemma_low_first(boots[0].sectors as int, 2);
        lemma_low_first(boots[0].place as int, 4);
    }
    lemma_boots_shown(validation, boots);
}

} // verus!
