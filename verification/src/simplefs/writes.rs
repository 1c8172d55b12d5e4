//! Writing blocks one after the other, up to the first failure.
use vstd::prelude::*;

use crate::block::BlockDevice;
use crate::bytes::put;
use crate::error::Result;
use crate::simplefs::commit::writable;
use crate::simplefs::volume::{same_device, same_outside, write_blocks_cached};

verus! {

/// One write: where it starts, in blocks, and what is written.
pub struct BlockWrite {
    pub block: u32,
    pub data: Vec<u8>,
}

/// A write as the device sees it: from which byte on, and which bytes.
pub type WriteView = (int, Seq<u8>);

/// The writes in a list.
pub open spec fn write_views(v: Seq<BlockWrite>) -> Seq<WriteView> {
    Seq::new(v.len(), |i: int| (v[i].block * 512, v[i].data@))
}

/// An image after the first `k` writes.
pub open spec fn done(image: Seq<u8>, writes: Seq<WriteView>, k: int) -> Seq<u8>
    decreases k,
{
    if k <= 0 {
        image
    } else {
        put(done(image, writes, k - 1), writes[k - 1].0, writes[k - 1].1)
    }
}

/// Whether `after` is `before` with the first `k` writes done and the next one failed: that
/// one may have left anything in its own range, and nothing elsewhere.
pub open spec fn cut_off(before: Seq<u8>, after: Seq<u8>, writes: Seq<WriteView>, k: int) -> bool {
    &&& 0 <= k < writes.len()
    &&& same_outside(
        done(before, writes, k),
        after,
        writes[k].0,
        writes[k].0 + writes[k].1.len(),
    )
}

/// Whether a device has room for every write.
pub open spec fn writes_fit(writes: Seq<WriteView>, len: nat) -> bool {
    forall|k: int|
        #![trigger writes[k]]
        0 <= k < writes.len() ==> writes[k].1.len() % 512 == 0 && writes[k].0 + writes[k].1.len()
            <= len
}

pub proof fn lemma_done_len(image: Seq<u8>, writes: Seq<WriteView>, k: int)
    ensures
        done(image, writes, k).len() == image.len(),
    decreases k,
{
    if k > 0 {
        lemma_done_len(image, writes, k - 1);
    }
}

/// A byte that none of the first `k` writes covers is as it was.
pub proof fn lemma_done_elsewhere(image: Seq<u8>, writes: Seq<WriteView>, k: int, i: int)
    requires
        0 <= i < image.len(),
        k <= writes.len(),
        forall|j: int|
            #![trigger writes[j]]
            0 <= j < k ==> !(writes[j].0 <= i < writes[j].0 + writes[j].1.len()),
    ensures
        done(image, writes, k)[i] == image[i],
        done(image, writes, k).len() == image.len(),
    decreases k,
{
    if k > 0 {
        lemma_done_elsewhere(image, writes, k - 1, i);
        assert(!(writes[k - 1].0 <= i < writes[k - 1].0 + writes[k - 1].1.len()));
    }
}

/// Writes blocks one after the other. The first failure ends it.
pub fn write_in_turn<D: BlockDevice>(device: &mut D, writes: &Vec<BlockWrite>) -> (r: Result<()>)
    ensures
        same_device(*old(device), *final(device)),
        match r {
            Ok(_) => final(device).image() == done(
                old(device).image(),
                write_views(writes@),
                writes@.len() as int,
            ),
            Err(_) => exists|k: int| #[trigger]
                cut_off(old(device).image(), final(device).image(), write_views(writes@), k),
        },
        writable(*old(device)) && writes_fit(write_views(writes@), old(device).image().len())
            ==> r is Ok,
{
    let ghost before = device.image();
    let ghost views = write_views(writes@);
    let mut k: usize = 0;
    while k < writes.len()
        invariant
            k <= writes@.len(),
            views == write_views(writes@),
            before == old(device).image(),
            same_device(*old(device), *device),
            device.image() == done(before, views, k as int),
        decreases writes@.len() - k,
    {
        let ghost here = device.image();
        proof {
            assert(views[k as int] == (writes@[k as int].block * 512, writes@[k as int].data@));
            lemma_done_len(before, views, k as int);
            if writable(*device) && writes_fit(views, before.len()) {
                device.lemma_reliable_write(
                    writes@[k as int].block as int,
                    writes@[k as int].data@,
                );
            }
        }
        let r = write_blocks_cached(device, writes[k].block as u64, writes[k].data.as_slice());
        match r {
            Ok(_) => {},
            Err(e) => {
                assert(cut_off(before, device.image(), views, k as int));
                return Err(e);
            },
        }
        k = k + 1;
    }
    Ok(())
}

} // verus!
