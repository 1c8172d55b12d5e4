//! Unlocking a volume with a passphrase.
//!
//! The key derivation and the hash are the caller's. What they return is turned into the
//! volume key, checked against the digest, and handed out with the place of the
//! encrypted data.
use vstd::prelude::*;

use crate::block::{BlockDevice, area_read, device_read, read_area, read_vec};
use crate::bytes::copy_range;
use crate::error::{Error, Result};
use crate::luks2::params::{KeyslotParams, KeyslotView, Luks2Header, digest_in, get_json_size_from_json, get_payload_offset_from_json, header_of, json_size_in, keyslot_in, parse_digest, parse_keyslot, parse_luks2_header, payload_offset_in};
use crate::text::str_eq;

verus! {

/// The JSON metadata of a device. Where the JSON names a larger size than the header,
/// the sectors that follow are part of it.
pub open spec fn metadata_text<D: BlockDevice>(device: D, header: Luks2Header) -> core::result::Result<
    Seq<u8>,
    Error,
> {
    match area_read(
        device,
        header.json_offset as int / 512,
        header.json_offset as int % 512,
        header.json_size as int,
    ) {
        Err(e) => Err(e),
        Ok((raw, next)) => match json_size_in(raw) {
            None => Ok(raw),
            Some(size) => if size <= raw.len() {
                Ok(raw)
            } else {
                match area_read(device, next, 0, size - raw.len()) {
                    Err(e) => Err(e),
                    Ok((more, _)) => Ok(raw + more),
                }
            },
        },
    }
}

fn read_metadata_text<D: BlockDevice>(device: &D, header: Luks2Header) -> (r: Result<Vec<u8>>)
    ensures
        match r {
            Ok(v) => metadata_text(*device, header) == Ok::<Seq<u8>, Error>(v@),
            Err(e) => metadata_text(*device, header) == Err::<Seq<u8>, Error>(e),
        },
{
    let (mut raw, next) = read_area(
        device,
        header.json_offset / 512,
        (header.json_offset % 512) as usize,
        header.json_size,
    )?;
    match get_json_size_from_json(raw.as_slice()) {
        None => {},
        Some(size) => {
            let held: u64 = raw.len() as u64;
            if size > held {
                let (mut more, _) = read_area(device, next, 0, size - held)?;
                raw.append(&mut more);
            }
        },
    }
    Ok(raw)
}

/// The stripes of a split key as they are stored.
pub open spec fn stripes_of<D: BlockDevice>(device: D, slot: KeyslotView) -> core::result::Result<
    Seq<u8>,
    Error,
> {
    let total = slot.af_stripes * slot.key_size;
    let sector = slot.area_offset as int / 512;
    let skip = slot.area_offset as int % 512;
    if total > slot.area_size {
        Err(Error::InvalidArgument)
    } else if total > usize::MAX - 512 {
        Err(Error::OutOfMemory)
    } else {
        match device_read(device, sector, total) {
            Err(e) => Err(e),
            Ok(data) => if skip == 0 {
                Ok(data)
            } else {
                match device_read(device, sector, total + 512) {
                    Err(e) => Err(e),
                    Ok(more) => Ok(more.subrange(skip, skip + total)),
                }
            },
        }
    }
}

proof fn lemma_product_fits(a: u32, b: usize)
    ensures
        0 <= a * b <= u128::MAX,
{
    assert(0 <= a * b <= 0xffff_ffff * 0xffff_ffff_ffff_ffff) by (nonlinear_arith)
        requires
            0 <= a <= 0xffff_ffff,
            0 <= b <= 0xffff_ffff_ffff_ffff,
    ;
}

fn read_stripes<D: BlockDevice>(device: &D, slot: &KeyslotParams) -> (r: Result<Vec<u8>>)
    ensures
        match r {
            Ok(v) => stripes_of(*device, slot@) == Ok::<Seq<u8>, Error>(v@) && v@.len()
                == slot.af_stripes * slot.key_size,
            Err(e) => stripes_of(*device, slot@) == Err::<Seq<u8>, Error>(e),
        },
{
    proof {
        lemma_product_fits(slot.af_stripes, slot.key_size);
    }
    let wide: u128 = slot.af_stripes as u128 * slot.key_size as u128;
    if wide > slot.area_size as u128 {
        return Err(Error::InvalidArgument);
    }
    if wide > (usize::MAX - 512) as u128 {
        return Err(Error::OutOfMemory);
    }
    let total: usize = wide as usize;
    let sector: u64 = slot.area_offset / 512;
    let skip: usize = (slot.area_offset % 512) as usize;
    let data = read_vec(device, sector, total)?;
    if skip == 0 {
        return Ok(data);
    }
    let more = read_vec(device, sector, total + 512)?;
    Ok(copy_range(more.as_slice(), skip, skip + total))
}

/// The wrapped key in a split key. The chain runs forward and rewrites the stripes after
/// the first, so that the first one comes out as it is stored. Nothing where the data is
/// too short.
pub open spec fn merged(data: Seq<u8>, stripes: int, key_size: int) -> Seq<u8> {
    if data.len() < stripes * key_size || data.len() < key_size {
        seq![]
    } else {
        data.take(key_size)
    }
}

/// Merges the stripes of a split key: the hash of each stripe is mixed into the next.
pub fn af_merge<H: Fn(&[u8]) -> [u8; 32]>(
    af_data: &[u8],
    stripes: u32,
    key_size: usize,
    sha256: &H,
) -> (r: Vec<u8>)
    requires
        forall|bytes: &[u8]| #[trigger] call_requires(*sha256, (bytes,)),
    ensures
        r@ == merged(af_data@, stripes as int, key_size as int),
{
    let count: usize = af_data.len();
    proof {
        lemma_product_fits(stripes, key_size);
    }
    if (count as u128) < stripes as u128 * key_size as u128 || count < key_size {
        return Vec::new();
    }
    let mut result = copy_range(af_data, 0, count);
    let mut i: u32 = 1;
    while i < stripes
        invariant
            1 <= i,
            count == af_data@.len() == result@.len(),
            stripes * key_size <= count,
            key_size <= count,
            result@.take(key_size as int) == af_data@.take(key_size as int),
            forall|bytes: &[u8]| #[trigger] call_requires(*sha256, (bytes,)),
        decreases stripes - i,
    {
        proof {
            assert(i * key_size + key_size <= stripes * key_size) by (nonlinear_arith)
                requires
                    1 <= i < stripes,
                    0 <= key_size,
            ;
            assert(i * key_size >= key_size) by (nonlinear_arith)
                requires
                    1 <= i,
                    0 <= key_size,
            ;
            assert((i - 1) * key_size == i * key_size - key_size) by (nonlinear_arith);
        }
        proof {
            lemma_product_fits(i, key_size);
        }
        let current: usize = (i as u128 * key_size as u128) as usize;
        let previous: usize = current - key_size;
        let stripe = copy_range(result.as_slice(), previous, current);
        let hash = sha256(stripe.as_slice());
        let mut j: usize = 0;
        while j < key_size
            invariant
                count == af_data@.len() == result@.len(),
                key_size <= current,
                current + key_size <= count,
                result@.take(key_size as int) == af_data@.take(key_size as int),
            decreases key_size - j,
        {
            let mixed: u8 = result[current + j] ^ hash[j % 32];
            let ghost before = result@;
            result.set(current + j, mixed);
            assert(result@.take(key_size as int) =~= before.take(key_size as int));
            j = j + 1;
        }
        i = i + 1;
    }
    copy_range(result.as_slice(), 0, key_size)
}

/// What is needed before a key can be derived: the metadata, the keyslot and the wrapped
/// key.
pub struct Luks2Request {
    pub json: Vec<u8>,
    pub slot: KeyslotParams,
    pub wrapped: Vec<u8>,
}

/// The contents of a request.
pub struct RequestView {
    pub json: Seq<u8>,
    pub slot: KeyslotView,
    pub wrapped: Seq<u8>,
}

impl View for Luks2Request {
    type V = RequestView;

    open spec fn view(&self) -> RequestView {
        RequestView { json: self.json@, slot: self.slot@, wrapped: self.wrapped@ }
    }
}

/// The wrapped key of a keyslot, refused where its hash or its sizes are.
pub open spec fn wrapped_of<D: BlockDevice>(device: D, json: Seq<u8>) -> core::result::Result<
    RequestView,
    Error,
> {
    match keyslot_in(json) {
        None => Err(Error::NotFound),
        Some(slot) => if slot.af_hash != "sha256"@ {
            Err(Error::Unsupported)
        } else {
            match stripes_of(device, slot) {
                Err(e) => Err(e),
                Ok(data) => {
                    let wrapped = merged(data, slot.af_stripes as int, slot.key_size as int);
                    if wrapped.len() != slot.key_size {
                        Err(Error::InvalidCredential)
                    } else {
                        Ok(RequestView { json, slot, wrapped })
                    }
                },
            }
        },
    }
}

/// What a device gives before a key is derived.
#[verifier::opaque]
pub open spec fn request_of<D: BlockDevice>(device: D) -> core::result::Result<RequestView, Error> {
    match header_of(device) {
        Err(e) => Err(e),
        Ok(header) => match metadata_text(device, header) {
            Err(e) => Err(e),
            Ok(json) => wrapped_of(device, json),
        },
    }
}

/// Reads everything that is needed before a key can be derived.
pub fn luks2_request<D: BlockDevice, H: Fn(&[u8]) -> [u8; 32]>(device: &D, sha256: &H) -> (r: Result<
    Luks2Request,
>)
    requires
        forall|bytes: &[u8]| #[trigger] call_requires(*sha256, (bytes,)),
    ensures
        match r {
            Ok(q) => request_of(*device) == Ok::<RequestView, Error>(q@) && q.wrapped@.len()
                == q.slot.key_size,
            Err(e) => request_of(*device) == Err::<RequestView, Error>(e),
        },
{
    proof {
        reveal(request_of);
    }
    let header = parse_luks2_header(device)?;
    let json = read_metadata_text(device, header)?;
    let slot = match parse_keyslot(json.as_slice()) {
        None => {
            return Err(Error::NotFound);
        },
        Some(s) => s,
    };
    if !str_eq(slot.af_hash.as_str(), "sha256") {
        return Err(Error::Unsupported);
    }
    let data = read_stripes(device, &slot)?;
    let wrapped = af_merge(data.as_slice(), slot.af_stripes, slot.key_size, sha256);
    if wrapped.len() != slot.key_size {
        return Err(Error::InvalidCredential);
    }
    Ok(Luks2Request { json, slot, wrapped })
}

/// The length of the buffer that holds a volume key.
pub open spec fn key_room(key_size: int) -> int {
    if key_size < 64 {
        64
    } else {
        key_size
    }
}

/// The wrapped key with the derived key mixed in, in a buffer of at least 64 bytes.
pub open spec fn unwrapped(wrapped: Seq<u8>, derived: Seq<u8>) -> Seq<u8> {
    Seq::new(
        key_room(wrapped.len() as int) as nat,
        |j: int|
            if j < wrapped.len() {
                wrapped[j] ^ derived[j]
            } else {
                0u8
            },
    )
}

/// Mixes the derived key into the wrapped key.
pub fn unwrap_key(wrapped: &[u8], derived: &[u8]) -> (r: Vec<u8>)
    requires
        derived@.len() == wrapped@.len(),
    ensures
        r@ == unwrapped(wrapped@, derived@),
{
    let room: usize = if wrapped.len() < 64 {
        64
    } else {
        wrapped.len()
    };
    let mut key: Vec<u8> = Vec::new();
    let mut j: usize = 0;
    while j < room
        invariant
            j <= room,
            room == key_room(wrapped@.len() as int),
            derived@.len() == wrapped@.len(),
            key@.len() == j,
            forall|k: int| #![trigger key@[k]] 0 <= k < j ==> key@[k] == unwrapped(wrapped@, derived@)[k],
        decreases room - j,
    {
        if j < wrapped.len() {
            key.push(wrapped[j] ^ derived[j]);
        } else {
            key.push(0);
        }
        j = j + 1;
    }
    assert(key@ =~= unwrapped(wrapped@, derived@));
    key
}

/// A volume key completed: of a 32-byte key the second half is its hash.
pub open spec fn completed(key: Seq<u8>, key_size: int, second: Seq<u8>) -> Seq<u8> {
    if key_size == 32 {
        key.take(32) + second + key.skip(64)
    } else {
        key
    }
}

/// Whether two keys agree as far as both go.
pub open spec fn agrees(check: Seq<u8>, digest: Seq<u8>) -> bool {
    forall|j: int|
        #![trigger digest[j]]
        0 <= j < check.len() && j < digest.len() ==> check[j] == digest[j]
}

/// Compares without stopping at the first difference.
pub fn digest_agrees(check: &[u8], digest: &[u8]) -> (r: bool)
    ensures
        r == agrees(check@, digest@),
{
    let mut diff: u8 = 0;
    let mut j: usize = 0;
    while j < check.len() && j < digest.len()
        invariant
            j <= check@.len(),
            j <= digest@.len(),
            diff == 0 <==> forall|k: int|
                #![trigger digest@[k]]
                0 <= k < j ==> check@[k] == digest@[k],
        decreases check@.len() - j,
    {
        let a: u8 = check[j];
        let b: u8 = digest[j];
        proof {
            assert((diff | (a ^ b)) == 0 <==> (diff == 0 && a == b)) by (bit_vector);
        }
        diff = diff | (a ^ b);
        j = j + 1;
        proof {
            assert(digest@[j - 1] == b);
        }
    }
    diff == 0
}

/// An unlocked volume: where its data lies, and the key that decrypts it.
pub struct Luks2Volume {
    pub payload_start: u64,
    pub payload_blocks: u64,
    pub key: Vec<u8>,
}

/// Where the encrypted data of a volume lies: first block and number of blocks.
pub open spec fn payload_of(json: Seq<u8>, blocks: int) -> (int, int) {
    let start = match payload_offset_in(json) {
        Some(bytes) => bytes as int / 512,
        None => 0,
    };
    (
        start,
        if blocks > start {
            blocks - start
        } else {
            0
        },
    )
}

/// The outcome once the check value of the candidate key is known.
pub open spec fn unlocked(
    json: Seq<u8>,
    blocks: int,
    key: Seq<u8>,
    digest: Seq<u8>,
    check: Seq<u8>,
    r: Result<Luks2Volume>,
) -> bool {
    if !agrees(check, digest) {
        r matches Err(e) && e == Error::InvalidCredential
    } else {
        r matches Ok(v) && (v.payload_start as int, v.payload_blocks as int) == payload_of(
            json,
            blocks,
        ) && v.key@ == key.take(64)
    }
}

/// Hands out the volume if the check value agrees with the digest.
pub fn luks2_finish(json: &[u8], blocks: u64, key: &[u8], digest: &[u8], check: &[u8]) -> (r: Result<
    Luks2Volume,
>)
    requires
        key@.len() >= 64,
    ensures
        unlocked(json@, blocks as int, key@, digest@, check@, r),
{
    if !digest_agrees(check, digest) {
        return Err(Error::InvalidCredential);
    }
    let start: u64 = match get_payload_offset_from_json(json) {
        Some(bytes) => bytes / 512,
        None => 0,
    };
    let payload_blocks: u64 = if blocks > start {
        blocks - start
    } else {
        0
    };
    let head = copy_range(key, 0, 64);
    assert(head@ =~= key@.take(64));
    Ok(Luks2Volume { payload_start: start, payload_blocks, key: head })
}

/// Whether a key derivation can return `out` for these arguments.
pub open spec fn derives<K: Fn(&[u8], &[u8], u32, usize) -> Vec<u8>>(
    kdf: K,
    secret: Seq<u8>,
    salt: Seq<u8>,
    iterations: u32,
    len: usize,
    out: Seq<u8>,
) -> bool {
    exists|p: &[u8], s: &[u8], o: Vec<u8>|
        p@ == secret && s@ == salt && o@ == out && #[trigger] call_ensures(
            kdf,
            (p, s, iterations, len),
            o,
        )
}

/// Whether a hash can return `out` for these bytes.
pub open spec fn hashes<H: Fn(&[u8]) -> [u8; 32]>(hash: H, bytes: Seq<u8>, out: Seq<u8>) -> bool {
    exists|b: &[u8], o: [u8; 32]|
        b@ == bytes && o@ == out && #[trigger] call_ensures(hash, (b,), o)
}

/// The outcome of checking a candidate key, given the check value derived from it.
pub open spec fn digest_end<K: Fn(&[u8], &[u8], u32, usize) -> Vec<u8>>(
    json: Seq<u8>,
    blocks: int,
    key: Seq<u8>,
    size: usize,
    kdf: K,
    check: Seq<u8>,
    r: Result<Luks2Volume>,
) -> bool {
    match digest_in(json) {
        None => r matches Err(e) && e == Error::NotFound,
        Some(d) => if d.hash != "sha256"@ {
            r matches Err(e) && e == Error::Unsupported
        } else {
            let part = key.take(
                if size < 32 {
                    size as int
                } else {
                    32
                },
            );
            &&& derives(kdf, part, d.salt, d.iterations, d.digest.len() as usize, check)
            &&& unlocked(json, blocks, key, d.digest, check, r)
        },
    }
}

/// The outcome of unlocking, given what the key derivation and the hash return: `derived`
/// for the passphrase, `second` for a 32-byte key, `check` for the candidate key.
pub open spec fn open_end<
    K: Fn(&[u8], &[u8], u32, usize) -> Vec<u8>,
    H: Fn(&[u8]) -> [u8; 32],
>(
    q: RequestView,
    blocks: int,
    passphrase: Seq<u8>,
    kdf: K,
    hash: H,
    derived: Seq<u8>,
    second: Seq<u8>,
    check: Seq<u8>,
    r: Result<Luks2Volume>,
) -> bool {
    let size = q.slot.key_size;
    let key = completed(unwrapped(q.wrapped, derived), size as int, second);
    &&& derives(kdf, passphrase, q.slot.kdf_salt, q.slot.kdf_iterations, size, derived)
    &&& size == 32 ==> hashes(hash, unwrapped(q.wrapped, derived).take(32), second)
    &&& digest_end(q.json, blocks, key, size, kdf, check, r)
}

/// The outcome of unlocking, whatever the key derivation and the hash return.
pub open spec fn opened<K: Fn(&[u8], &[u8], u32, usize) -> Vec<u8>, H: Fn(&[u8]) -> [u8; 32]>(
    q: RequestView,
    blocks: int,
    passphrase: Seq<u8>,
    kdf: K,
    hash: H,
    r: Result<Luks2Volume>,
) -> bool {
    exists|derived: Seq<u8>, second: Seq<u8>, check: Seq<u8>| #[trigger]
        open_end(q, blocks, passphrase, kdf, hash, derived, second, check, r)
}

/// Completes a volume key: of a 32-byte key the second half is its hash.
fn complete_key<H: Fn(&[u8]) -> [u8; 32]>(plain: &Vec<u8>, size: usize, sha256: &H) -> (r: (
    Vec<u8>,
    Ghost<Seq<u8>>,
))
    requires
        plain@.len() == key_room(size as int),
        forall|bytes: &[u8]| #[trigger] call_requires(*sha256, (bytes,)),
    ensures
        r.0@ == completed(plain@, size as int, r.1@),
        r.0@.len() == plain@.len(),
        size == 32 ==> hashes(*sha256, plain@.take(32), r.1@),
{
    let mut key = copy_range(plain.as_slice(), 0, plain.len());
    assert(key@ =~= plain@);
    if size != 32 {
        return (key, Ghost(Seq::empty()));
    }
    let head = copy_range(plain.as_slice(), 0, 32);
    let hash = sha256(head.as_slice());
    let mut j: usize = 0;
    while j < 32
        invariant
            j <= 32,
            key@.len() == plain@.len() == 64,
            forall|k: int| #![trigger key@[k]] 0 <= k < 32 ==> key@[k] == plain@[k],
            forall|k: int| #![trigger key@[k]] 32 <= k < 32 + j ==> key@[k] == hash@[k - 32],
        decreases 32 - j,
    {
        key.set(32 + j, hash[j]);
        j = j + 1;
    }
    assert(head@ =~= plain@.take(32));
    assert(key@ =~= completed(plain@, size as int, hash@));
    (key, Ghost(hash@))
}

/// Checks a candidate key against the digest in the metadata.
fn check_key<K: Fn(&[u8], &[u8], u32, usize) -> Vec<u8>>(
    json: &[u8],
    blocks: u64,
    key: &[u8],
    size: usize,
    pbkdf2: &K,
) -> (r: (Result<Luks2Volume>, Ghost<Seq<u8>>))
    requires
        key@.len() == key_room(size as int),
        forall|p: &[u8], s: &[u8], n: u32, len: usize| #[trigger]
            call_requires(*pbkdf2, (p, s, n, len)),
    ensures
        digest_end(json@, blocks as int, key@, size, *pbkdf2, r.1@, r.0),
{
    let digest = match parse_digest(json) {
        None => {
            return (Err(Error::NotFound), Ghost(Seq::empty()));
        },
        Some(d) => d,
    };
    if !str_eq(digest.hash.as_str(), "sha256") {
        return (Err(Error::Unsupported), Ghost(Seq::empty()));
    }
    let checked: usize = if size < 32 {
        size
    } else {
        32
    };
    let head = copy_range(key, 0, checked);
    assert(head@ =~= key@.take(checked as int));
    let check = pbkdf2(
        head.as_slice(),
        digest.salt.as_slice(),
        digest.iterations,
        digest.digest.len(),
    );
    assert(derives(
        *pbkdf2,
        key@.take(checked as int),
        digest@.salt,
        digest@.iterations,
        digest@.digest.len() as usize,
        check@,
    ));
    let r = luks2_finish(
        json,
        blocks,
        key,
        digest.digest.as_slice(),
        check.as_slice(),
    );
    (r, Ghost(check@))
}

/// Unlocks a volume with a passphrase: derives a key from it, mixes it into the wrapped
/// key of the first usable keyslot, and checks the result against the digest.
///
/// `pbkdf2` takes the secret, the salt, the number of iterations and the length wanted.
pub fn luks2_open<
    D: BlockDevice,
    K: Fn(&[u8], &[u8], u32, usize) -> Vec<u8>,
    H: Fn(&[u8]) -> [u8; 32],
>(device: &D, passphrase: &[u8], pbkdf2: K, sha256: H) -> (r: Result<Luks2Volume>)
    requires
        forall|bytes: &[u8]| #[trigger] call_requires(sha256, (bytes,)),
        forall|p: &[u8], s: &[u8], n: u32, len: usize| #[trigger]
            call_requires(pbkdf2, (p, s, n, len)),
        forall|p: &[u8], s: &[u8], n: u32, len: usize, o: Vec<u8>| #[trigger]
            call_ensures(pbkdf2, (p, s, n, len), o) ==> o@.len() == len,
    ensures
        match request_of(*device) {
            Err(e) => r matches Err(e2) && e2 == e,
            Ok(q) => opened(
                q,
                device.image().len() as int / 512,
                passphrase@,
                pbkdf2,
                sha256,
                r,
            ),
        },
{
    let q = luks2_request(device, &sha256)?;
    let size: usize = q.slot.key_size;
    let derived = pbkdf2(passphrase, q.slot.kdf_salt.as_slice(), q.slot.kdf_iterations, size);
    let plain = unwrap_key(q.wrapped.as_slice(), derived.as_slice());
    let (key, Ghost(second)) = complete_key(&plain, size, &sha256);
    assert(derives(pbkdf2, passphrase@, q@.slot.kdf_salt, q@.slot.kdf_iterations, size, derived@));
    let (r, Ghost(check)) = check_key(
        q.json.as_slice(),
        device.block_count(),
        key.as_slice(),
        size,
        &pbkdf2,
    );
    assert(open_end(
        q@,
        device.image().len() as int / 512,
        passphrase@,
        pbkdf2,
        sha256,
        derived@,
        second,
        check,
        r,
    ));
    r
}

} // verus!
