//! Labels, the Joliet descriptor, the boot catalog's place, and what nodes show.
use vstd::prelude::*;

use crate::block::{BlockDevice, bytes_at};
use crate::bytes::u32_at;
use crate::iso9660::descriptors::{catalog_from, joliet_of, label_end, label_text};
use crate::iso9660::records::{RecordView, best_name_of, iso_name, joliet_name, record_at};
use crate::iso9660::susp::component_text;
use crate::iso9660::volume::{record_metadata, volume_on};
use crate::iso9660::volume_laws::{descriptor_on, lemma_is_descriptor, lemma_sector, lemma_standard_id};
use crate::spelling::{has_at, law_four_bytes, spells};
use crate::vfs::NodeKind;

verus! {

proof fn lemma_label_end(raw: Seq<u8>, i: int, n: int)
    requires
        0 <= i <= n <= raw.len(),
        forall|k: int| #![trigger raw[k]] i <= k < n ==> raw[k] != 0 && raw[k] != 32,
        n < raw.len() ==> raw[n] == 0 || raw[n] == 32,
    ensures
        label_end(raw, i) == n,
    decreases n - i,
{
    if i < n {
        lemma_label_end(raw, i + 1, n);
    }
}

/// A label is what stands in its field before the first space or zero: each printable
/// character as itself, anything else as an underscore.
pub proof fn law_label_is_read(raw: Seq<u8>, n: int, i: int)
    requires
        0 <= i < n <= raw.len(),
        forall|k: int| #![trigger raw[k]] 0 <= k < n ==> raw[k] != 0 && raw[k] != 32,
        n < raw.len() ==> raw[n] == 0 || raw[n] == 32,
    ensures
        label_text(raw).len() == n,
        33 <= raw[i] <= 126 ==> label_text(raw)[i] as int == raw[i],
        !(33 <= raw[i] <= 126) ==> label_text(raw)[i] == '_',
{
    lemma_label_end(raw, 0, n);
}

/// A volume with a second descriptor in its seventeenth sector that has the escape sequence in
/// bytes 88 to 90 goes by that descriptor's names, label and root; any other goes without.
pub proof fn law_joliet_descriptor<D: BlockDevice>(device: D)
    requires
        device.reliable(),
        18 * 2048 <= device.image().len(),
    ensures
        ({
            let at = 17 * 2048int;
            let sector = device.image().subrange(at, at + 2048);
            let joliet = descriptor_on(device.image(), 17, 2) && has_at(
                sector,
                88,
                seq![37u8, 47u8, 64u8],
            );
            &&& joliet ==> joliet_of(device) == Some(sector)
            &&& !joliet ==> joliet_of(device) is None
        }),
{
    lemma_standard_id();
    lemma_sector(device, 17);
    let at = 17 * 2048int;
    let sector = device.image().subrange(at, at + 2048);
    lemma_is_descriptor(device.image(), 17, 2);
    assert(sector =~= device.image().subrange(17 * 2048int, 18 * 2048int));
}

/// A volume with such a descriptor has its label and its root from there.
pub proof fn law_joliet_volume<D: BlockDevice>(device: D, sector: Seq<u8>, root: RecordView)
    requires
        volume_on(device) is Ok,
        joliet_of(device) == Some(sector),
        sector.len() == 2048,
        record_at(sector.subrange(156, 190), 0, true) == Some(root),
    ensures
        volume_on(device)->Ok_0.1 == label_text(sector.subrange(40, 72)),
        volume_on(device)->Ok_0.2 == Some(root),
{
}

/// The boot catalog lies where the first boot record among the descriptors says, in bytes 71
/// to 74; a terminator before it means that there is none.
pub proof fn law_boot_catalog_place<D: BlockDevice>(device: D, s: int, place: u32)
    requires
        16 <= s < 48,
        bytes_at(device, s * 2048, 2048) is Ok,
    ensures
        descriptor_on(device.image(), s, 0) && spells(
            device.image(),
            s * 2048 + 71,
            place as int,
            4,
        ) && place > 0 ==> catalog_from(device, s) == Some(place),
        device.image()[s * 2048] == 0xff ==> catalog_from(device, s) is None,
        device.image()[s * 2048] != 0xff && device.image()[s * 2048] != 0 ==> catalog_from(
            device,
            s,
        ) == catalog_from(device, s + 1),
{
    lemma_standard_id();
    lemma_sector(device, s);
    let image = device.image();
    let at = s * 2048;
    let sector = image.subrange(at, (s + 1) * 2048);
    lemma_is_descriptor(image, s, 0);
    if spells(image, at + 71, place as int, 4) {
        law_four_bytes(image, at + 71, place);
        assert(sector[71] == image[at + 71] && sector[72] == image[at + 72] && sector[73]
            == image[at + 73] && sector[74] == image[at + 74]);
        assert(u32_at(sector, 71) == u32_at(image, at + 71));
    }
    assert(sector[0] == image[at]);
}

/// A record with the second flag is a directory's, one with a link's target a link's, and any
/// other a file's. Its size is that of its extent; its owner, group and mode are the stored
/// ones, or root's and readable for all.
pub proof fn law_node_shows_its_record(r: RecordView)
    ensures
        ({
            let m = record_metadata(r);
            &&& r.flags as int / 2 % 2 == 1 ==> m.kind == NodeKind::Directory
            &&& r.flags as int / 2 % 2 == 0 && r.rr_symlink is Some ==> m.kind == NodeKind::Symlink
            &&& r.flags as int / 2 % 2 == 0 && r.rr_symlink is None ==> m.kind == NodeKind::File
            &&& m.size == r.extent_size
            &&& r.rr_posix matches Some((mode, links, uid, gid)) ==> m.security.owner_uid == uid
                && m.security.owner_gid == gid && (mode < 0x1_0000 ==> m.security.mode == mode)
            &&& r.rr_posix is None ==> m.security.owner_uid == 0 && m.security.owner_gid == 0
                && m.security.mode == 0o555
        }),
{
    let f = r.flags;
    assert((f & 2 != 0) == (f / 2 % 2 == 1)) by (bit_vector);
}

/// A record goes by the name in full that it was given, and by its identifier without one.
pub proof fn law_name_of_a_record(r: RecordView)
    ensures
        r.rr_name matches Some(n) ==> best_name_of(r) == n,
        r.rr_name is None && r.joliet ==> best_name_of(r) == joliet_name(r.identifier),
        r.rr_name is None && !r.joliet ==> best_name_of(r) == iso_name(r.identifier),
{
}

/// A component of a link stands for the root, for the directory above or for the directory
/// itself where its flags say so, and for its name and a slash otherwise.
pub proof fn law_link_components(name: Seq<u8>)
    ensures
        component_text(8, name) == seq![47u8],
        component_text(4, name) == seq![46u8, 46u8],
        component_text(2, name) == seq![46u8],
        component_text(0, name) == name + seq![47u8],
        component_text(1, name) == name + seq![47u8],
{
    assert(8u8 & 8 != 0 && 4u8 & 8 == 0 && 4u8 & 4 != 0 && 2u8 & 8 == 0 && 2u8 & 4 == 0 && 2u8 & 2
        != 0 && 0u8 & 8 == 0 && 0u8 & 4 == 0 && 0u8 & 2 == 0 && 1u8 & 8 == 0 && 1u8 & 4 == 0 && 1u8
        & 2 == 0) by (bit_vector);
    assert(name.push(47) =~= name + seq![47u8]);
}

} // verus!
