//! What the binary header and the JSON metadata say.
use vstd::prelude::*;
use vstd::utf8::{decode_utf8, encode_utf8, valid_utf8};

use crate::block::{BlockDevice, device_read, read_vec};
use crate::bytes::{bytes_eq, copy_range, get_u16_be, get_u64_be, u16_be_at, u64_be_at};
use crate::error::{Error, Result};
use crate::luks2::base64::{base64_decode, decoded_from};
use crate::luks2::json::{decimal_value, json_find_object, json_find_string, json_object, json_string, parse_decimal};
use crate::text::{decimal, from_utf8, to_decimal};

verus! {

/// The six bytes that every volume starts with.
pub const LUKS2_MAGIC: [u8; 6] = [0x4C, 0x55, 0x4B, 0x53, 0xBA, 0xBE];

/// The format version.
pub const LUKS2_VERSION: u16 = 2;

/// Where the binary header says that the JSON area is.
#[derive(Debug, Clone, Copy, PartialEq, Eq, Structural)]
pub struct Luks2Header {
    pub json_offset: u64,
    pub json_size: u64,
}

/// What the first block of a device says.
pub open spec fn header_in(block: Seq<u8>) -> core::result::Result<Luks2Header, Error> {
    if block.take(6) != LUKS2_MAGIC@ {
        Err(Error::InvalidArgument)
    } else if u16_be_at(block, 6) != LUKS2_VERSION {
        Err(Error::Unsupported)
    } else {
        Ok(Luks2Header { json_offset: u64_be_at(block, 16), json_size: u64_be_at(block, 8) })
    }
}

/// What the header of a device says.
pub open spec fn header_of<D: BlockDevice>(device: D) -> core::result::Result<Luks2Header, Error> {
    match device_read(device, 0, 512) {
        Err(e) => Err(e),
        Ok(block) => header_in(block),
    }
}

/// Reads the binary header.
pub fn parse_luks2_header<D: BlockDevice>(device: &D) -> (r: Result<Luks2Header>)
    ensures
        r == header_of(*device),
{
    let block = read_vec(device, 0, 512)?;
    let head = copy_range(block.as_slice(), 0, 6);
    assert(head@ =~= block@.take(6));
    if !bytes_eq(head.as_slice(), LUKS2_MAGIC.as_slice()) {
        return Err(Error::InvalidArgument);
    }
    if get_u16_be(block.as_slice(), 6) != LUKS2_VERSION {
        return Err(Error::Unsupported);
    }
    Ok(
        Luks2Header {
            json_offset: get_u64_be(block.as_slice(), 16),
            json_size: get_u64_be(block.as_slice(), 8),
        },
    )
}

/// The number under a key.
pub open spec fn json_number(text: Seq<u8>, key: Seq<char>) -> Option<u64> {
    match json_string(text, key) {
        None => None,
        Some(s) => decimal_value(s),
    }
}

/// The bytes that the base64 text under a key encodes.
pub open spec fn json_base64(text: Seq<u8>, key: Seq<char>) -> Option<Seq<u8>> {
    match json_string(text, key) {
        None => None,
        Some(s) => decoded_from(s, 0),
    }
}

/// The text under a key.
pub open spec fn json_text(text: Seq<u8>, key: Seq<char>) -> Option<Seq<char>> {
    match json_string(text, key) {
        None => None,
        Some(s) => if valid_utf8(s) {
            Some(decode_utf8(s))
        } else {
            None
        },
    }
}

fn find_number(text: &[u8], key: &str) -> (r: Option<u64>)
    ensures
        r == json_number(text@, key@),
{
    match json_find_string(text, key) {
        None => None,
        Some(s) => parse_decimal(s),
    }
}

fn find_base64(text: &[u8], key: &str) -> (r: Option<Vec<u8>>)
    ensures
        match r {
            Some(v) => json_base64(text@, key@) == Some(v@),
            None => json_base64(text@, key@) is None,
        },
{
    match json_find_string(text, key) {
        None => None,
        Some(s) => base64_decode(s),
    }
}

fn find_text(text: &[u8], key: &str) -> (r: Option<String>)
    ensures
        match r {
            Some(v) => json_text(text@, key@) == Some(v@),
            None => json_text(text@, key@) is None,
        },
{
    match json_find_string(text, key) {
        None => None,
        Some(s) => from_utf8(s),
    }
}

/// Whether the value under a key is this text. Nothing where there is no value.
pub open spec fn json_says(text: Seq<u8>, key: Seq<char>, value: Seq<char>) -> Option<bool> {
    match json_string(text, key) {
        None => None,
        Some(s) => Some(s == encode_utf8(value)),
    }
}

fn find_says(text: &[u8], key: &str, value: &str) -> (r: Option<bool>)
    ensures
        r == json_says(text@, key@, value@),
{
    match json_find_string(text, key) {
        None => None,
        Some(s) => Some(bytes_eq(s, value.as_bytes())),
    }
}

/// The size of the JSON area as the JSON itself gives it.
pub open spec fn json_size_in(json: Seq<u8>) -> Option<u64> {
    match json_object(json, "config"@) {
        None => None,
        Some(config) => json_number(config, "json_size"@),
    }
}

/// The size of the JSON area as the JSON itself gives it.
pub fn get_json_size_from_json(json: &[u8]) -> (r: Option<u64>)
    ensures
        r == json_size_in(json@),
{
    match json_find_object(json, "config") {
        None => None,
        Some(config) => find_number(config, "json_size"),
    }
}

/// Where the first segment, the encrypted data, starts, in bytes.
pub open spec fn payload_offset_in(json: Seq<u8>) -> Option<u64> {
    match json_object(json, "segments"@) {
        None => None,
        Some(segments) => match json_object(segments, "0"@) {
            None => None,
            Some(segment) => json_number(segment, "offset"@),
        },
    }
}

/// Where the first segment, the encrypted data, starts, in bytes.
pub fn get_payload_offset_from_json(json: &[u8]) -> (r: Option<u64>)
    ensures
        r == payload_offset_in(json@),
{
    match json_find_object(json, "segments") {
        None => None,
        Some(segments) => match json_find_object(segments, "0") {
            None => None,
            Some(segment) => find_number(segment, "offset"),
        },
    }
}

/// How one keyslot protects the volume key.
pub struct KeyslotParams {
    pub area_offset: u64,
    pub area_size: u64,
    pub kdf_salt: Vec<u8>,
    pub kdf_iterations: u32,
    pub key_size: usize,
    pub af_stripes: u32,
    pub af_hash: String,
}

/// What a keyslot says.
pub struct KeyslotView {
    pub area_offset: u64,
    pub area_size: u64,
    pub kdf_salt: Seq<u8>,
    pub kdf_iterations: u32,
    pub key_size: usize,
    pub af_stripes: u32,
    pub af_hash: Seq<char>,
}

impl View for KeyslotParams {
    type V = KeyslotView;

    open spec fn view(&self) -> KeyslotView {
        KeyslotView {
            area_offset: self.area_offset,
            area_size: self.area_size,
            kdf_salt: self.kdf_salt@,
            kdf_iterations: self.kdf_iterations,
            key_size: self.key_size,
            af_stripes: self.af_stripes,
            af_hash: self.af_hash@,
        }
    }
}

/// What becomes of one keyslot: it is of another kind, or it is used.
pub enum SlotView {
    Other,
    Used(KeyslotView),
}

/// What one keyslot object says: nothing where something that must be there is missing.
/// A slot that is not of this format's type, or whose key derivation is not PBKDF2, is
/// of another kind; of the latter only the fields before its key derivation are needed.
pub open spec fn slot_in(slot: Seq<u8>) -> Option<SlotView> {
    match json_says(slot, "type"@, "luks2"@) {
        None => None,
        Some(false) => Some(SlotView::Other),
        Some(true) => match (
            json_number(slot, "key_size"@),
            json_object(slot, "area"@),
            json_object(slot, "kdf"@),
        ) {
            (Some(key_size), Some(area), Some(kdf)) => match (
                json_number(area, "offset"@),
                json_number(area, "size"@),
                json_says(kdf, "type"@, "pbkdf2"@),
            ) {
                (Some(area_offset), Some(area_size), Some(derived)) => if !derived {
                    Some(SlotView::Other)
                } else {
                    match (
                        json_base64(kdf, "salt"@),
                        json_number(kdf, "iterations"@),
                        json_object(slot, "af"@),
                    ) {
                        (Some(salt), Some(iterations), Some(af)) => match (
                            json_number(af, "stripes"@),
                            json_text(af, "hash"@),
                        ) {
                            (Some(stripes), Some(hash)) => Some(
                                SlotView::Used(
                                    KeyslotView {
                                        area_offset,
                                        area_size,
                                        kdf_salt: salt,
                                        kdf_iterations: iterations as u32,
                                        key_size: key_size as usize,
                                        af_stripes: stripes as u32,
                                        af_hash: hash,
                                    },
                                ),
                            ),
                            _ => None,
                        },
                        _ => None,
                    }
                },
                _ => None,
            },
            _ => None,
        },
    }
}

/// The first usable keyslot from number `id` on. A gap in the numbers ends the search.
pub open spec fn keyslot_from(slots: Seq<u8>, id: int) -> Option<KeyslotView>
    decreases 0x1_0000_0000 - id,
{
    if !(0 <= id < 0x1_0000_0000) {
        None
    } else {
        match json_object(slots, decimal(id as nat)) {
            None => None,
            Some(slot) => match slot_in(slot) {
                None => None,
                Some(SlotView::Other) => keyslot_from(slots, id + 1),
                Some(SlotView::Used(k)) => Some(k),
            },
        }
    }
}

/// The keyslot that the metadata offers.
pub open spec fn keyslot_in(json: Seq<u8>) -> Option<KeyslotView> {
    match json_object(json, "keyslots"@) {
        None => None,
        Some(slots) => keyslot_from(slots, 0),
    }
}

/// A keyslot as it was read.
enum SlotRead {
    Other,
    Used(KeyslotParams),
}

spec fn slot_read(r: SlotRead) -> SlotView {
    match r {
        SlotRead::Other => SlotView::Other,
        SlotRead::Used(k) => SlotView::Used(k@),
    }
}

fn read_slot(slot: &[u8]) -> (r: Option<SlotRead>)
    ensures
        match r {
            Some(s) => slot_in(slot@) == Some(slot_read(s)),
            None => slot_in(slot@) is None,
        },
{
    if !find_says(slot, "type", "luks2")? {
        return Some(SlotRead::Other);
    }
    let key_size: u64 = find_number(slot, "key_size")?;
    let area = json_find_object(slot, "area")?;
    let area_offset: u64 = find_number(area, "offset")?;
    let area_size: u64 = find_number(area, "size")?;
    let kdf = json_find_object(slot, "kdf")?;
    if !find_says(kdf, "type", "pbkdf2")? {
        return Some(SlotRead::Other);
    }
    let kdf_salt = find_base64(kdf, "salt")?;
    let iterations: u64 = find_number(kdf, "iterations")?;
    let af = json_find_object(slot, "af")?;
    let stripes: u64 = find_number(af, "stripes")?;
    let af_hash = find_text(af, "hash")?;
    Some(
        SlotRead::Used(
            KeyslotParams {
                area_offset,
                area_size,
                kdf_salt,
                kdf_iterations: iterations as u32,
                key_size: key_size as usize,
                af_stripes: stripes as u32,
                af_hash,
            },
        ),
    )
}

/// Finds the first keyslot of this format whose key derivation is PBKDF2.
pub fn parse_keyslot(json: &[u8]) -> (r: Option<KeyslotParams>)
    ensures
        match r {
            Some(k) => keyslot_in(json@) == Some(k@),
            None => keyslot_in(json@) is None,
        },
{
    let slots = json_find_object(json, "keyslots")?;
    let mut id: u64 = 0;
    while id < 0x1_0000_0000
        invariant
            id <= 0x1_0000_0000,
            json_object(json@, "keyslots"@) == Some(slots@),
            keyslot_from(slots@, 0) == keyslot_from(slots@, id as int),
        decreases 0x1_0000_0000 - id,
    {
        let key = to_decimal(id);
        let slot = json_find_object(slots, key.as_str())?;
        match read_slot(slot)? {
            SlotRead::Other => {
                id = id + 1;
            },
            SlotRead::Used(k) => {
                return Some(k);
            },
        }
    }
    None
}

/// How a recovered key is checked.
pub struct DigestParams {
    pub salt: Vec<u8>,
    pub iterations: u32,
    pub digest: Vec<u8>,
    pub hash: String,
}

/// What a digest says.
pub struct DigestView {
    pub salt: Seq<u8>,
    pub iterations: u32,
    pub digest: Seq<u8>,
    pub hash: Seq<char>,
}

impl View for DigestParams {
    type V = DigestView;

    open spec fn view(&self) -> DigestView {
        DigestView {
            salt: self.salt@,
            iterations: self.iterations,
            digest: self.digest@,
            hash: self.hash@,
        }
    }
}

/// What a digest object of the supported type says.
pub open spec fn digest_fields(digest: Seq<u8>) -> Option<DigestView> {
    match (
        json_base64(digest, "salt"@),
        json_number(digest, "iterations"@),
        json_base64(digest, "digest"@),
        json_text(digest, "hash"@),
    ) {
        (Some(salt), Some(iterations), Some(value), Some(hash)) => Some(
            DigestView { salt, iterations: iterations as u32, digest: value, hash },
        ),
        _ => None,
    }
}

/// The first digest of the supported type from number `id` on.
pub open spec fn digest_from(digests: Seq<u8>, id: int) -> Option<DigestView>
    decreases 0x1_0000_0000 - id,
{
    if !(0 <= id < 0x1_0000_0000) {
        None
    } else {
        match json_object(digests, decimal(id as nat)) {
            None => None,
            Some(digest) => match json_says(digest, "type"@, "pbkdf2"@) {
                None => None,
                Some(false) => digest_from(digests, id + 1),
                Some(true) => digest_fields(digest),
            },
        }
    }
}

/// The digest that the metadata offers.
#[verifier::opaque]
pub open spec fn digest_in(json: Seq<u8>) -> Option<DigestView> {
    match json_object(json, "digests"@) {
        None => None,
        Some(digests) => digest_from(digests, 0),
    }
}

fn read_digest(digest: &[u8]) -> (r: Option<DigestParams>)
    ensures
        match r {
            Some(d) => digest_fields(digest@) == Some(d@),
            None => digest_fields(digest@) is None,
        },
{
    let salt = find_base64(digest, "salt")?;
    let iterations: u64 = find_number(digest, "iterations")?;
    let value = find_base64(digest, "digest")?;
    let hash = find_text(digest, "hash")?;
    Some(DigestParams { salt, iterations: iterations as u32, digest: value, hash })
}

/// Finds the first digest made with PBKDF2.
pub fn parse_digest(json: &[u8]) -> (r: Option<DigestParams>)
    ensures
        match r {
            Some(d) => digest_in(json@) == Some(d@),
            None => digest_in(json@) is None,
        },
{
    proof {
        reveal(digest_in);
    }
    let digests = json_find_object(json, "digests")?;
    let mut id: u64 = 0;
    while id < 0x1_0000_0000
        invariant
            id <= 0x1_0000_0000,
            digest_in(json@) == digest_from(digests@, id as int),
        decreases 0x1_0000_0000 - id,
    {
        let key = to_decimal(id);
        let digest = json_find_object(digests, key.as_str())?;
        if find_says(digest, "type", "pbkdf2")? {
            return read_digest(digest);
        }
        id = id + 1;
    }
    None
}

} // verus!
