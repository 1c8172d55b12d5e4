//! What unlocking a volume takes from its disk and gives back.
use vstd::prelude::*;
use vstd::utf8::{encode_utf8, encode_utf8_decode_utf8, encode_utf8_valid_utf8};

use crate::block::{BlockDevice, area_read, device_read, law_area_is_that_of_the_image};
use crate::bytes::{u16_be_at, u64_be_at};
use crate::error::{Error, Result};
use crate::luks2::json_laws::{counts_under, in_base64, key_mark, law_base64_is_found, law_missing_key, law_number_is_found, law_object_is_found, law_quoted_value_is_found, object_under, quotes_under};
use crate::luks2::open::{Luks2Volume, RequestView, agrees, completed, derives, merged, metadata_text, open_end, payload_of, stripes_of, unlocked, unwrapped, wrapped_of};
use crate::luks2::params::{DigestView, KeyslotView, LUKS2_MAGIC, Luks2Header, SlotView, digest_in, header_of, json_size_in, keyslot_from, keyslot_in, payload_offset_in, slot_in};
use crate::spelling::{has_at, law_eight_bytes_be, law_two_bytes_be, spells_be};
use crate::text::decimal;

verus! {

// ── The header and the areas ──

/// A header with its magic number, its version, its size and the place of the JSON area is
/// read as written.
pub proof fn law_header_is_read<D: BlockDevice>(device: D, size: u64, place: u64)
    requires
        device_read(device, 0, 512) is Ok,
        has_at(device.image(), 0, seq![0x4Cu8, 0x55u8, 0x4Bu8, 0x53u8, 0xBAu8, 0xBEu8]),
        spells_be(device.image(), 6, 2, 2),
        spells_be(device.image(), 8, size as int, 8),
        spells_be(device.image(), 16, place as int, 8),
    ensures
        header_of(device) == Ok::<Luks2Header, Error>(
            (Luks2Header { json_offset: place, json_size: size }),
        ),
{
    device.lemma_read_fits(0, 512);
    let image = device.image();
    let block = image.subrange(0, 512);
    let magic = seq![0x4Cu8, 0x55u8, 0x4Bu8, 0x53u8, 0xBAu8, 0xBEu8];
    assert(block.take(6) =~= image.subrange(0, 6));
    assert(LUKS2_MAGIC@ =~= magic);
    law_two_bytes_be(image, 6, 2);
    law_eight_bytes_be(image, 8, size);
    law_eight_bytes_be(image, 16, place);
    assert(block[6] == image[6] && block[7] == image[7]);
    assert(forall|j: int| 0 <= j < 512 ==> #[trigger] block[j] == image[j]);
    assert(u16_be_at(block, 6) == u16_be_at(image, 6));
    assert(u64_be_at(block, 8) == u64_be_at(image, 8));
    assert(u64_be_at(block, 16) == u64_be_at(image, 16));
}

/// A device that starts otherwise is not taken for a volume, nor is one of another version.
pub proof fn law_other_header_is_refused<D: BlockDevice>(device: D, i: int, version: u16)
    requires
        device_read(device, 0, 512) is Ok,
        0 <= i < 6,
        spells_be(device.image(), 6, version as int, 2),
    ensures
        device.image()[i] != seq![0x4Cu8, 0x55u8, 0x4Bu8, 0x53u8, 0xBAu8, 0xBEu8][i] ==> header_of(
            device,
        ) == Err::<Luks2Header, Error>(Error::InvalidArgument),
        version != 2 ==> header_of(device) is Err,
{
    device.lemma_read_fits(0, 512);
    let image = device.image();
    let block = image.subrange(0, 512);
    let magic = seq![0x4Cu8, 0x55u8, 0x4Bu8, 0x53u8, 0xBAu8, 0xBEu8];
    assert(LUKS2_MAGIC@ =~= magic);
    assert(block.take(6)[i] == image[i]);
    law_two_bytes_be(image, 6, version);
    assert(block[6] == image[6] && block[7] == image[7]);
    assert(u16_be_at(block, 6) == u16_be_at(image, 6));
}

/// The metadata text starts with the bytes of the disk from the place the header gives on, as
/// many as the header says.
pub proof fn law_metadata_is_read_from_the_disk<D: BlockDevice>(device: D, header: Luks2Header)
    requires
        header.json_size > 0,
        metadata_text(device, header) is Ok,
    ensures
        ({
            let text = metadata_text(device, header)->Ok_0;
            let (at, n) = (header.json_offset as int, header.json_size as int);
            &&& n <= text.len()
            &&& at + n <= device.image().len()
            &&& text.take(n) == device.image().subrange(at, at + n)
        }),
{
    let (at, n) = (header.json_offset as int, header.json_size as int);
    let first = area_read(device, at / 512, at % 512, n)->Ok_0;
    law_area_is_that_of_the_image(device, at / 512, at % 512, n);
    let text = metadata_text(device, header)->Ok_0;
    assert(text.take(n) =~= first.0);
}

/// Where a header ends at a sector and its JSON asks for more, the text goes on with the bytes
/// that follow on the disk, as many as the JSON says.
pub proof fn law_longer_metadata_goes_on<D: BlockDevice>(device: D, header: Luks2Header, size: u64)
    requires
        header.json_size > 0,
        (header.json_offset + header.json_size) % 512 == 0,
        metadata_text(device, header) is Ok,
        json_size_in(
            device.image().subrange(
                header.json_offset as int,
                header.json_offset + header.json_size,
            ),
        ) == Some(size),
        size > header.json_size,
    ensures
        header.json_offset + size <= device.image().len(),
        metadata_text(device, header)->Ok_0 == device.image().subrange(
            header.json_offset as int,
            header.json_offset + size,
        ),
{
    let (at, n) = (header.json_offset as int, header.json_size as int);
    law_area_is_that_of_the_image(device, at / 512, at % 512, n);
    let (raw, next) = area_read(device, at / 512, at % 512, n)->Ok_0;
    assert(next * 512 == at + n);
    law_area_is_that_of_the_image(device, next, 0, size - n);
    let more = area_read(device, next, 0, size - n)->Ok_0.0;
    assert(raw + more =~= device.image().subrange(at, at + size));
}

/// The stripes of a key are the bytes of the disk from where the keyslot's area starts, as
/// many as there are stripes times the size of a key.
pub proof fn law_stripes_are_read_from_the_disk<D: BlockDevice>(device: D, slot: KeyslotView)
    requires
        stripes_of(device, slot) is Ok,
        slot.af_stripes * slot.key_size > 0,
    ensures
        ({
            let at = slot.area_offset as int;
            let total = slot.af_stripes * slot.key_size;
            &&& total <= slot.area_size
            &&& at + total <= device.image().len()
            &&& stripes_of(device, slot)->Ok_0 == device.image().subrange(at, at + total)
        }),
{
    let at = slot.area_offset as int;
    let total = slot.af_stripes * slot.key_size;
    let sector = at / 512;
    let skip = at % 512;
    device.lemma_read_fits(sector, total);
    let image = device.image();
    if skip > 0 {
        device.lemma_read_fits(sector, total + 512);
        let more = image.subrange(sector * 512, sector * 512 + total + 512);
        assert(more.subrange(skip, skip + total) =~= image.subrange(at, at + total));
    } else {
        assert(sector * 512 == at);
    }
}

// ── What the JSON says ──

/// The JSON that holds, in its object of that name, the size of the metadata says that size.
pub proof fn law_json_size(json: Seq<u8>, config: Seq<u8>, size: u64)
    requires
        object_under(json, encode_utf8("config"@), config),
        counts_under(
            seq![123u8] + config + seq![125u8],
            encode_utf8("json_size"@),
            size as int,
        ),
    ensures
        json_size_in(json) == Some(size),
{
    law_object_is_found(json, "config"@, config);
    law_number_is_found(seq![123u8] + config + seq![125u8], "json_size"@, size as int);
}

/// The data starts where the first segment says.
pub proof fn law_payload_offset(json: Seq<u8>, segments: Seq<u8>, segment: Seq<u8>, offset: u64)
    requires
        object_under(json, encode_utf8("segments"@), segments),
        object_under(seq![123u8] + segments + seq![125u8], encode_utf8("0"@), segment),
        counts_under(
            seq![123u8] + segment + seq![125u8],
            encode_utf8("offset"@),
            offset as int,
        ),
    ensures
        payload_offset_in(json) == Some(offset),
{
    law_object_is_found(json, "segments"@, segments);
    law_object_is_found(seq![123u8] + segments + seq![125u8], "0"@, segment);
    law_number_is_found(seq![123u8] + segment + seq![125u8], "offset"@, offset as int);
}

/// What is between the braces of an object, with them.
pub open spec fn braced(inner: Seq<u8>) -> Seq<u8> {
    seq![123u8] + inner + seq![125u8]
}

/// Whether an object says all that a keyslot of this format does.
pub open spec fn says_slot(
    slot: Seq<u8>,
    area: Seq<u8>,
    kdf: Seq<u8>,
    af: Seq<u8>,
    k: KeyslotView,
) -> bool {
    &&& quotes_under(slot, encode_utf8("type"@), encode_utf8("luks2"@))
    &&& counts_under(slot, encode_utf8("key_size"@), k.key_size as int)
    &&& k.key_size <= 0xFFFF_FFFF
    &&& object_under(slot, encode_utf8("area"@), area)
    &&& counts_under(braced(area), encode_utf8("offset"@), k.area_offset as int)
    &&& counts_under(braced(area), encode_utf8("size"@), k.area_size as int)
    &&& object_under(slot, encode_utf8("kdf"@), kdf)
    &&& quotes_under(braced(kdf), encode_utf8("type"@), encode_utf8("pbkdf2"@))
    &&& quotes_under(braced(kdf), encode_utf8("salt"@), in_base64(k.kdf_salt))
    &&& counts_under(braced(kdf), encode_utf8("iterations"@), k.kdf_iterations as int)
    &&& object_under(slot, encode_utf8("af"@), af)
    &&& counts_under(braced(af), encode_utf8("stripes"@), k.af_stripes as int)
    &&& quotes_under(braced(af), encode_utf8("hash"@), encode_utf8(k.af_hash))
}

/// A keyslot that says where its area is, how its key is derived and how it is split is read
/// as it says.
#[verifier::spinoff_prover]
pub proof fn law_keyslot_is_read(
    slot: Seq<u8>,
    area: Seq<u8>,
    kdf: Seq<u8>,
    af: Seq<u8>,
    k: KeyslotView,
)
    requires
        says_slot(slot, area, kdf, af, k),
    ensures
        slot_in(slot) == Some(SlotView::Used(k)),
{
    law_quoted_value_is_found(slot, "type"@, encode_utf8("luks2"@));
    law_number_is_found(slot, "key_size"@, k.key_size as int);
    law_object_is_found(slot, "area"@, area);
    law_number_is_found(braced(area), "offset"@, k.area_offset as int);
    law_number_is_found(braced(area), "size"@, k.area_size as int);
    law_object_is_found(slot, "kdf"@, kdf);
    law_quoted_value_is_found(braced(kdf), "type"@, encode_utf8("pbkdf2"@));
    law_base64_is_found(braced(kdf), "salt"@, k.kdf_salt);
    law_number_is_found(braced(kdf), "iterations"@, k.kdf_iterations as int);
    law_object_is_found(slot, "af"@, af);
    law_number_is_found(braced(af), "stripes"@, k.af_stripes as int);
    law_quoted_value_is_found(braced(af), "hash"@, encode_utf8(k.af_hash));
    encode_utf8_valid_utf8(k.af_hash);
    encode_utf8_decode_utf8(k.af_hash);
}

/// The first keyslot is taken where it is of this format.
pub proof fn law_first_keyslot_is_taken(
    json: Seq<u8>,
    slots: Seq<u8>,
    slot: Seq<u8>,
    area: Seq<u8>,
    kdf: Seq<u8>,
    af: Seq<u8>,
    k: KeyslotView,
)
    requires
        object_under(json, encode_utf8("keyslots"@), slots),
        object_under(braced(slots), encode_utf8(seq!['0']), slot),
        says_slot(braced(slot), area, kdf, af, k),
    ensures
        keyslot_in(json) == Some(k),
{
    law_object_is_found(json, "keyslots"@, slots);
    assert(decimal(0) =~= seq!['0']);
    law_object_is_found(braced(slots), seq!['0'], slot);
    law_keyslot_is_read(braced(slot), area, kdf, af, k);
}

/// A keyslot of another type is passed over for the one that follows.
pub proof fn law_other_keyslot_is_passed_over(slots: Seq<u8>, id: int, slot: Seq<u8>, kind: Seq<u8>)
    requires
        0 <= id < 0x1_0000_0000,
        object_under(slots, encode_utf8(decimal(id as nat)), slot),
        quotes_under(braced(slot), encode_utf8("type"@), kind),
        kind != encode_utf8("luks2"@),
    ensures
        keyslot_from(slots, id) == keyslot_from(slots, id + 1),
{
    law_object_is_found(slots, decimal(id as nat), slot);
    law_quoted_value_is_found(braced(slot), "type"@, kind);
}

/// A missing number ends the search for a keyslot.
pub proof fn law_keyslots_end_at_a_gap(slots: Seq<u8>, id: int)
    requires
        0 <= id < 0x1_0000_0000,
        forall|j: int| !#[trigger] has_at(slots, j, key_mark(encode_utf8(decimal(id as nat)))),
    ensures
        keyslot_from(slots, id) is None,
{
    law_missing_key(slots, decimal(id as nat));
}

/// The first digest is read as it says, where it is made with the supported derivation.
#[verifier::spinoff_prover]
pub proof fn law_first_digest_is_read(
    json: Seq<u8>,
    digests: Seq<u8>,
    digest: Seq<u8>,
    d: DigestView,
)
    requires
        object_under(json, encode_utf8("digests"@), digests),
        object_under(braced(digests), encode_utf8(seq!['0']), digest),
        quotes_under(braced(digest), encode_utf8("type"@), encode_utf8("pbkdf2"@)),
        quotes_under(braced(digest), encode_utf8("salt"@), in_base64(d.salt)),
        counts_under(braced(digest), encode_utf8("iterations"@), d.iterations as int),
        quotes_under(braced(digest), encode_utf8("digest"@), in_base64(d.digest)),
        quotes_under(braced(digest), encode_utf8("hash"@), encode_utf8(d.hash)),
    ensures
        digest_in(json) == Some(d),
{
    reveal(digest_in);
    law_object_is_found(json, "digests"@, digests);
    assert(decimal(0) =~= seq!['0']);
    law_object_is_found(braced(digests), seq!['0'], digest);
    let o = braced(digest);
    law_quoted_value_is_found(o, "type"@, encode_utf8("pbkdf2"@));
    law_base64_is_found(o, "salt"@, d.salt);
    law_number_is_found(o, "iterations"@, d.iterations as int);
    law_base64_is_found(o, "digest"@, d.digest);
    law_quoted_value_is_found(o, "hash"@, encode_utf8(d.hash));
    encode_utf8_valid_utf8(d.hash);
    encode_utf8_decode_utf8(d.hash);
}

// ── The key ──

/// The first stripe of a split key is the wrapped key.
pub proof fn law_first_stripe_is_the_wrapped_key(data: Seq<u8>, stripes: int, size: int)
    requires
        0 <= stripes,
        0 <= size,
    ensures
        ({
            let key = merged(data, stripes, size);
            &&& (data.len() >= stripes * size && data.len() >= size) ==> key.len() == size
                && forall|j: int| 0 <= j < size ==> #[trigger] key[j] == data[j]
            &&& (data.len() < stripes * size || data.len() < size) ==> key.len() == 0
        }),
{
}

/// Mixing the derived key in twice gives back the wrapped key, and what a short key leaves of
/// its 64 bytes is zero.
pub proof fn law_mixing_undoes_itself(wrapped: Seq<u8>, derived: Seq<u8>, j: int)
    requires
        derived.len() == wrapped.len(),
        0 <= j < 64 || 0 <= j < wrapped.len(),
    ensures
        ({
            let key = unwrapped(wrapped, derived);
            &&& key.len() >= 64 && key.len() >= wrapped.len()
            &&& key.len() == 64 || key.len() == wrapped.len()
            &&& j < wrapped.len() ==> key[j] ^ derived[j] == wrapped[j] && key[j] ^ wrapped[j]
                == derived[j]
            &&& j >= wrapped.len() ==> key[j] == 0
        }),
{
    if j < wrapped.len() {
        let (w, d) = (wrapped[j], derived[j]);
        assert((w ^ d) ^ d == w && (w ^ d) ^ w == d) by (bit_vector);
    }
}

/// A key of 32 bytes is followed by its hash; any other key stays as it is.
pub proof fn law_short_key_is_completed(key: Seq<u8>, size: int, second: Seq<u8>, j: int)
    requires
        key.len() >= 64,
        second.len() == 32,
        0 <= j < key.len(),
    ensures
        completed(key, size, second).len() == key.len(),
        completed(key, size, second)[j] == if size == 32 && 32 <= j < 64 {
            second[j - 32]
        } else {
            key[j]
        },
{
}

/// A check value as long as the digest agrees with it only where it is the digest.
pub proof fn law_only_the_digest_agrees(check: Seq<u8>, digest: Seq<u8>)
    requires
        check.len() == digest.len(),
    ensures
        agrees(check, digest) <==> check == digest,
{
    if agrees(check, digest) {
        assert forall|j: int| 0 <= j < check.len() implies check[j] == digest[j] by {
            let _ = digest[j];
        }
        assert(check =~= digest);
    }
}

/// The data fills the device from the sector that holds its offset to the end.
pub proof fn law_data_fills_the_rest(json: Seq<u8>, blocks: int, offset: u64)
    requires
        0 <= blocks,
        payload_offset_in(json) == Some(offset),
    ensures
        ({
            let (start, count) = payload_of(json, blocks);
            &&& start * 512 <= offset < (start + 1) * 512
            &&& start <= blocks ==> start + count == blocks
            &&& start > blocks ==> count == 0
        }),
{
}

/// A volume is handed out only for a key whose check value is the digest, and then with the
/// first 64 bytes of that key; otherwise the credential is refused.
pub proof fn law_wrong_key_is_refused(
    json: Seq<u8>,
    blocks: int,
    key: Seq<u8>,
    digest: Seq<u8>,
    check: Seq<u8>,
    r: Result<Luks2Volume>,
)
    requires
        key.len() >= 64,
        check.len() == digest.len(),
        unlocked(json, blocks, key, digest, check, r),
    ensures
        check != digest ==> (r matches Err(e) && e == Error::InvalidCredential),
        check == digest ==> (r matches Ok(v) && v.key@.len() == 64 && forall|j: int|
            0 <= j < 64 ==> #[trigger] v.key@[j] == key[j]),
{
    law_only_the_digest_agrees(check, digest);
}

/// What unlocking a volume with a key of 64 bytes comes to: the key is the wrapped key with
/// what the derivation makes of the passphrase, the salt and the count of the keyslot mixed in;
/// it is handed out where what the derivation makes of its first 32 bytes, the salt and the
/// count of the digest is the digest, and refused otherwise.
pub proof fn law_passphrase_opens_the_volume<
    K: Fn(&[u8], &[u8], u32, usize) -> Vec<u8>,
    H: Fn(&[u8]) -> [u8; 32],
>(
    q: RequestView,
    blocks: int,
    passphrase: Seq<u8>,
    kdf: K,
    hash: H,
    derived: Seq<u8>,
    second: Seq<u8>,
    check: Seq<u8>,
    r: Result<Luks2Volume>,
    d: DigestView,
)
    requires
        open_end(q, blocks, passphrase, kdf, hash, derived, second, check, r),
        q.slot.key_size == 64,
        q.wrapped.len() == 64,
        derived.len() == 64,
        digest_in(q.json) == Some(d),
        d.hash == "sha256"@,
        d.digest.len() <= 0xFFFF_FFFF,
        check.len() == d.digest.len(),
    ensures
        derives(kdf, passphrase, q.slot.kdf_salt, q.slot.kdf_iterations, 64, derived),
        check != d.digest ==> (r matches Err(e) && e == Error::InvalidCredential),
        check == d.digest ==> (r matches Ok(v) && v.key@.len() == 64 && (forall|j: int|
            0 <= j < 64 ==> #[trigger] v.key@[j] == q.wrapped[j] ^ derived[j]) && derives(
            kdf,
            v.key@.subrange(0, 32),
            d.salt,
            d.iterations,
            d.digest.len() as usize,
            check,
        )),
{
    let key = unwrapped(q.wrapped, derived);
    law_only_the_digest_agrees(check, d.digest);
    if check == d.digest {
        let v = r->Ok_0;
        assert(v.key@ =~= key.take(64));
        assert(key.take(32) =~= v.key@.subrange(0, 32));
    }
}

/// A keyslot whose split key is not hashed with the one supported hash is refused, and so is a
/// volume without a keyslot.
pub proof fn law_other_keyslots_are_refused<D: BlockDevice>(device: D, json: Seq<u8>)
    ensures
        keyslot_in(json) is None ==> wrapped_of(device, json) == Err::<RequestView, Error>(
            Error::NotFound,
        ),
        keyslot_in(json) matches Some(k) ==> k.af_hash != "sha256"@ ==> wrapped_of(device, json)
            == Err::<RequestView, Error>(Error::Unsupported),
{
}

/// The wrapped key that a request holds is the bytes of the disk from where the keyslot's area
/// starts.
pub proof fn law_request_holds_the_key_of_the_disk<D: BlockDevice>(device: D, json: Seq<u8>)
    requires
        wrapped_of(device, json) is Ok,
        wrapped_of(device, json)->Ok_0.slot.af_stripes > 0,
        wrapped_of(device, json)->Ok_0.slot.key_size > 0,
    ensures
        ({
            let q = wrapped_of(device, json)->Ok_0;
            let at = q.slot.area_offset as int;
            &&& keyslot_in(json) == Some(q.slot)
            &&& q.wrapped.len() == q.slot.key_size
            &&& at + q.slot.key_size <= device.image().len()
            &&& q.wrapped == device.image().subrange(at, at + q.slot.key_size)
        }),
{
    let q = wrapped_of(device, json)->Ok_0;
    let (n, k) = (q.slot.af_stripes as int, q.slot.key_size as int);
    assert(n * k >= k && n * k > 0) by (nonlinear_arith)
        requires
            n >= 1,
            k >= 1,
    ;
    law_stripes_are_read_from_the_disk(device, q.slot);
    let at = q.slot.area_offset as int;
    let data = stripes_of(device, q.slot)->Ok_0;
    assert(data.take(k) =~= device.image().subrange(at, at + k));
}

} // verus!
