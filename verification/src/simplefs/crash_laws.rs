//! What a mount finds of a commit that was cut off.
use vstd::prelude::*;
use vstd::string::*;

use crate::block::BlockDevice;
use crate::simplefs::commit::{counts_fit, lemma_part_lens, lemma_write_of};
use crate::simplefs::encode::all_as_stored;
use crate::simplefs::mount::mountable;
use crate::simplefs::mount_laws::{describes, law_interrupted_commit_is_atomic, lemma_commit_places, slot_holds, tree_storable, xattr_table_apart};
use crate::simplefs::settle::lemma_layout_swaps;
use crate::simplefs::state::{RestView, TableSlot, TreeView};
use crate::simplefs::superblock::{law_superblock_round_trip, record_valid, stored_superblock, superblock_contents};
use crate::simplefs::tree::VolumeGeometry;
use crate::simplefs::types::SuperblockRecord;
use crate::simplefs::volume::{CommitParts, commit_parts, commit_steps, commit_writes, committed, geometry_ok, is_pending_mark, rest_committed, slot_on_device};
use crate::simplefs::writes::{WriteView, cut_off, done, lemma_done_elsewhere, lemma_done_len};

verus! {

/// The last of the first `k` writes that fills exactly the `len` bytes from `at` on.
pub open spec fn last_over(writes: Seq<WriteView>, at: int, len: int, k: int) -> Option<int>
    decreases k,
{
    if k <= 0 {
        None
    } else if writes[k - 1].0 == at && writes[k - 1].1.len() == len {
        Some(k - 1)
    } else {
        last_over(writes, at, len, k - 1)
    }
}

/// Whether a write keeps clear of the `len` bytes from `at` on.
pub open spec fn keeps_clear(w: WriteView, at: int, len: int) -> bool {
    w.0 + w.1.len() <= at || at + len <= w.0
}

/// Whether each write fills exactly these bytes or keeps clear of them.
pub open spec fn fills_or_clear(writes: Seq<WriteView>, at: int, len: int) -> bool {
    forall|j: int|
        #![trigger writes[j]]
        0 <= j < writes.len() ==> (writes[j].0 == at && writes[j].1.len() == len) || keeps_clear(
            writes[j],
            at,
            len,
        )
}

proof fn lemma_last_over(writes: Seq<WriteView>, at: int, len: int, k: int)
    requires
        k <= writes.len(),
    ensures
        match last_over(writes, at, len, k) {
            Some(j) => 0 <= j < k && writes[j].0 == at && writes[j].1.len() == len,
            None => forall|j: int|
                #![trigger writes[j]]
                0 <= j < k ==> !(writes[j].0 == at && writes[j].1.len() == len),
        },
    decreases k,
{
    if k > 0 {
        lemma_last_over(writes, at, len, k - 1);
    }
}

/// What stands where writes filled exactly a range or kept clear of it.
proof fn lemma_done_piece(before: Seq<u8>, writes: Seq<WriteView>, at: int, len: int, k: int)
    requires
        0 <= at,
        0 <= len,
        at + len <= before.len(),
        k <= writes.len(),
        fills_or_clear(writes, at, len),
    ensures
        done(before, writes, k).len() == before.len(),
        done(before, writes, k).subrange(at, at + len) == (match last_over(writes, at, len, k) {
            Some(j) => writes[j].1,
            None => before.subrange(at, at + len),
        }),
    decreases k,
{
    if k > 0 {
        lemma_done_piece(before, writes, at, len, k - 1);
        let w = writes[k - 1];
        let now = done(before, writes, k);
        let then = done(before, writes, k - 1);
        if w.0 == at && w.1.len() == len {
            assert(now.subrange(at, at + len) =~= w.1);
        } else {
            assert(keeps_clear(w, at, len));
            assert(now.subrange(at, at + len) =~= then.subrange(at, at + len));
        }
    }
}

/// What stands there when the next write was cut off and keeps clear of it too.
proof fn lemma_cut_piece(
    before: Seq<u8>,
    after: Seq<u8>,
    writes: Seq<WriteView>,
    at: int,
    len: int,
    k: int,
)
    requires
        0 <= at,
        0 <= len,
        at + len <= before.len(),
        fills_or_clear(writes, at, len),
        cut_off(before, after, writes, k),
        keeps_clear(writes[k], at, len),
    ensures
        after.len() == before.len(),
        after.subrange(at, at + len) == (match last_over(writes, at, len, k) {
            Some(j) => writes[j].1,
            None => before.subrange(at, at + len),
        }),
{
    lemma_done_piece(before, writes, at, len, k);
    assert(after.subrange(at, at + len) =~= done(before, writes, k).subrange(at, at + len));
}

/// Whether the attribute tables of both slots keep clear of the superblocks, of each other
/// and of the other tables.
pub open spec fn xattr_tables_apart(g: VolumeGeometry, r: RestView) -> bool {
    g.format_version.stores_xattrs() ==> {
        let n = g.xattr_table_blocks;
        let active_end = r.active.dirent_block + g.dirent_table_blocks;
        let shadow_end = r.shadow.dirent_block + g.dirent_table_blocks;
        &&& xattr_table_apart(r.active, g)
        &&& xattr_table_apart(r.shadow, g)
        &&& r.active.xattr_block + n <= r.shadow.xattr_block || r.shadow.xattr_block + n
            <= r.active.xattr_block
        &&& r.active.xattr_block + n <= r.shadow.inode_block || shadow_end <= r.active.xattr_block
        &&& r.shadow.xattr_block + n <= r.active.inode_block || active_end <= r.shadow.xattr_block
    }
}

/// Whether a superblock shows a tree whose tables are in a slot.
pub open spec fn superblock_shows(
    s: Seq<u8>,
    g: VolumeGeometry,
    t: TreeView,
    slot: TableSlot,
) -> bool {
    superblock_contents(s) matches Ok(c) && describes(c.1, g, t, slot)
}

/// Whether an image holds a volume whose committed tree is `t`: its tables are in the active
/// slot, and both superblocks show them.
pub open spec fn volume_on_disk(
    image: Seq<u8>,
    g: VolumeGeometry,
    t: TreeView,
    r: RestView,
) -> bool {
    &&& 1024 <= image.len()
    &&& superblock_shows(image.subrange(0, 512), g, t, r.active)
    &&& superblock_shows(image.subrange(512, 1024), g, t, r.active)
    &&& slot_holds(image, r.active, g, t)
}

/// What a commit leaves on the device is a volume whose committed tree is the new one.
pub proof fn law_commit_leaves_volume(
    before: Seq<u8>,
    after: Seq<u8>,
    g: VolumeGeometry,
    t: TreeView,
    r: RestView,
)
    requires
        r.generation < u32::MAX,
        before.len() == after.len(),
        counts_fit(t),
        committed(before, after, g, t, r),
        slot_on_device(r.shadow, g, after.len()),
        record_valid(g.record_of(t, r)),
        xattr_table_apart(r.shadow, g),
    ensures
        volume_on_disk(after, g, t, rest_committed(r)),
{
    let p = choose|p: CommitParts| #[trigger] commit_steps(before, after, g, t, r, p);
    lemma_commit_places(
        after,
        g,
        r,
        p.publish,
        before,
        p.inode_table,
        p.dirent_table,
        p.xattr_table,
    );
    lemma_layout_swaps(g, t, t, r);
    law_superblock_round_trip(
        p.publish,
        g.label@,
        g.format_version,
        g.published_record(t, r, (r.generation + 1) as u32),
    );
}

/// The mark of a pending commit still shows the committed tree.
proof fn lemma_mark_shows(s: Seq<u8>, g: VolumeGeometry, base: TreeView, r: RestView)
    requires
        g.format_version.stores_security(),
        counts_fit(base),
        record_valid(g.record_of(base, r)),
        is_pending_mark(s, g, base, r),
    ensures
        superblock_shows(s, g, base, r.active),
{
    law_superblock_round_trip(
        s,
        g.label@,
        g.format_version,
        (SuperblockRecord { pending_commit: (r.generation + 1) as u32, ..g.record_of(base, r) }),
    );
}

proof fn lemma_publish_shows(g: VolumeGeometry, t: TreeView, r: RestView, p: CommitParts)
    requires
        counts_fit(t),
        r.generation < u32::MAX,
        record_valid(g.record_of(t, r)),
        commit_parts(g, t, r, p),
    ensures
        superblock_shows(p.publish, g, t, r.shadow),
{
    lemma_layout_swaps(g, t, t, r);
    law_superblock_round_trip(
        p.publish,
        g.label@,
        g.format_version,
        g.published_record(t, r, (r.generation + 1) as u32),
    );
}

/// Whether a write that failed on a superblock is found out: the block is as it was, is what
/// was to be written, or cannot be read.
pub open spec fn tear_is_found_out(
    before: Seq<u8>,
    after: Seq<u8>,
    writes: Seq<WriteView>,
    k: int,
) -> bool {
    let (at, data) = writes[k];
    at == 0 || at == 512 ==> {
        let block = after.subrange(at, at + 512);
        ||| block == done(before, writes, k).subrange(at, at + 512)
        ||| block == data
        ||| superblock_contents(block) is Err
    }
}

/// The places of a commit's writes.
proof fn lemma_writes_apart(
    g: VolumeGeometry,
    base: TreeView,
    t: TreeView,
    r: RestView,
    p: CommitParts,
)
    requires
        commit_parts(g, t, r, p),
        is_pending_mark(p.pending, g, base, r),
        record_valid(g.record_of(t, r)),
        xattr_tables_apart(g, r),
    ensures
        ({
            let writes = commit_writes(g, r, p);
            &&& fills_or_clear(writes, 0, 512)
            &&& fills_or_clear(writes, 512, 512)
            &&& fills_or_clear(writes, r.shadow.inode_block * 512, g.inode_table_blocks * 512)
            &&& fills_or_clear(writes, r.shadow.dirent_block * 512, g.dirent_table_blocks * 512)
            &&& g.format_version.stores_xattrs() ==> fills_or_clear(
                writes,
                r.shadow.xattr_block * 512,
                g.xattr_table_blocks * 512,
            )
        }),
{
    let writes = commit_writes(g, r, p);
    lemma_part_lens(g, base, t, r, p);
    assert forall|j: int| #![trigger writes[j]] 0 <= j < writes.len() implies (writes[j].0 == 0
        && writes[j].1.len() == 512) || keeps_clear(writes[j], 0, 512) by {
        lemma_write_of(g, r, p, j);
    }
    assert forall|j: int| #![trigger writes[j]] 0 <= j < writes.len() implies (writes[j].0 == 512
        && writes[j].1.len() == 512) || keeps_clear(writes[j], 512, 512) by {
        lemma_write_of(g, r, p, j);
    }
    let at = r.shadow.inode_block * 512;
    let len = g.inode_table_blocks * 512;
    assert forall|j: int| #![trigger writes[j]] 0 <= j < writes.len() implies (writes[j].0 == at
        && writes[j].1.len() == len) || keeps_clear(writes[j], at, len) by {
        lemma_write_of(g, r, p, j);
    }
    let at = r.shadow.dirent_block * 512;
    let len = g.dirent_table_blocks * 512;
    assert forall|j: int| #![trigger writes[j]] 0 <= j < writes.len() implies (writes[j].0 == at
        && writes[j].1.len() == len) || keeps_clear(writes[j], at, len) by {
        lemma_write_of(g, r, p, j);
    }
    if g.format_version.stores_xattrs() {
        let at = r.shadow.xattr_block * 512;
        let len = g.xattr_table_blocks * 512;
        assert forall|j: int| #![trigger writes[j]] 0 <= j < writes.len() implies (writes[j].0 == at
            && writes[j].1.len() == len) || keeps_clear(writes[j], at, len) by {
            lemma_write_of(g, r, p, j);
        }
    }
}

/// No write of a commit touches a table of the active slot.
proof fn lemma_active_clear(
    g: VolumeGeometry,
    base: TreeView,
    t: TreeView,
    r: RestView,
    p: CommitParts,
    j: int,
)
    requires
        commit_parts(g, t, r, p),
        is_pending_mark(p.pending, g, base, r),
        record_valid(g.record_of(t, r)),
        xattr_tables_apart(g, r),
        0 <= j < commit_writes(g, r, p).len(),
    ensures
        ({
            let w = commit_writes(g, r, p)[j];
            &&& keeps_clear(w, r.active.inode_block * 512, g.inode_table_blocks * 512)
            &&& keeps_clear(w, r.active.dirent_block * 512, g.dirent_table_blocks * 512)
            &&& g.format_version.stores_xattrs() ==> keeps_clear(
                w,
                r.active.xattr_block * 512,
                g.xattr_table_blocks * 512,
            )
        }),
{
    lemma_part_lens(g, base, t, r, p);
    lemma_write_of(g, r, p, j);
}

/// Bytes that every write keeps clear of are as they were.
proof fn lemma_clear_piece(
    before: Seq<u8>,
    after: Seq<u8>,
    writes: Seq<WriteView>,
    at: int,
    len: int,
    k: int,
)
    requires
        0 <= at,
        0 <= len,
        at + len <= before.len(),
        cut_off(before, after, writes, k),
        forall|j: int|
            #![trigger writes[j]]
            0 <= j < writes.len() ==> keeps_clear(writes[j], at, len),
    ensures
        after.len() == before.len(),
        after.subrange(at, at + len) == before.subrange(at, at + len),
{
    lemma_done_len(before, writes, k);
    assert forall|i: int| at <= i < at + len implies after[i] == before[i] by {
        assert forall|j: int| #![trigger writes[j]] 0 <= j < k implies !(writes[j].0 <= i
            < writes[j].0 + writes[j].1.len()) by {
            assert(keeps_clear(writes[j], at, len));
        }
        lemma_done_elsewhere(before, writes, k, i);
        assert(keeps_clear(writes[k], at, len));
        assert(after[i] == done(before, writes, k)[i]);
    }
    assert(after.subrange(at, at + len) =~= before.subrange(at, at + len));
}

/// The active slot holds the committed tree however far a commit got.
proof fn lemma_active_kept(
    before: Seq<u8>,
    after: Seq<u8>,
    g: VolumeGeometry,
    base: TreeView,
    t: TreeView,
    r: RestView,
    p: CommitParts,
    k: int,
)
    requires
        cut_off(before, after, commit_writes(g, r, p), k),
        commit_parts(g, t, r, p),
        is_pending_mark(p.pending, g, base, r),
        record_valid(g.record_of(t, r)),
        xattr_tables_apart(g, r),
        slot_holds(before, r.active, g, base),
    ensures
        after.len() == before.len(),
        slot_holds(after, r.active, g, base),
{
    let writes = commit_writes(g, r, p);
    let inode_at = r.active.inode_block * 512;
    let dirent_at = r.active.dirent_block * 512;
    assert forall|j: int| #![trigger writes[j]] 0 <= j < writes.len() implies keeps_clear(
        writes[j],
        inode_at,
        g.inode_table_blocks * 512,
    ) && keeps_clear(writes[j], dirent_at, g.dirent_table_blocks * 512) by {
        lemma_active_clear(g, base, t, r, p, j);
    }
    lemma_clear_piece(before, after, writes, inode_at, g.inode_table_blocks * 512, k);
    lemma_clear_piece(before, after, writes, dirent_at, g.dirent_table_blocks * 512, k);
    if g.format_version.stores_xattrs() {
        let xattr_at = r.active.xattr_block * 512;
        assert forall|j: int| #![trigger writes[j]] 0 <= j < writes.len() implies keeps_clear(
            writes[j],
            xattr_at,
            g.xattr_table_blocks * 512,
        ) by {
            lemma_active_clear(g, base, t, r, p, j);
        }
        lemma_clear_piece(before, after, writes, xattr_at, g.xattr_table_blocks * 512, k);
    }
}

/// How many writes mark a commit as pending.
pub open spec fn mark_count(g: VolumeGeometry) -> int {
    if g.format_version.stores_security() {
        2
    } else {
        0
    }
}

/// The writes of a commit by their numbers.
#[verifier::spinoff_prover]
proof fn lemma_write_numbers(g: VolumeGeometry, r: RestView, p: CommitParts)
    ensures
        ({
            let writes = commit_writes(g, r, p);
            let s = mark_count(g);
            let n = writes.len() as int;
            &&& n == s + 4 + (if g.format_version.stores_xattrs() {
                1int
            } else {
                0
            })
            &&& s == 2 ==> writes[0] == (512int, p.pending) && writes[1] == (0int, p.pending)
            &&& writes[s] == (r.shadow.inode_block * 512, p.inode_table)
            &&& writes[s + 1] == (r.shadow.dirent_block * 512, p.dirent_table)
            &&& g.format_version.stores_xattrs() ==> writes[s + 2] == (
                r.shadow.xattr_block * 512,
                p.xattr_table,
            )
            &&& writes[n - 2] == (512int, p.publish)
            &&& writes[n - 1] == (0int, p.publish)
        }),
{
}

/// Each table is written once: every other write keeps clear of it.
#[verifier::spinoff_prover]
proof fn lemma_written_once(
    g: VolumeGeometry,
    base: TreeView,
    t: TreeView,
    r: RestView,
    p: CommitParts,
    writes: Seq<WriteView>,
    i: int,
)
    requires
        writes == commit_writes(g, r, p),
        commit_parts(g, t, r, p),
        is_pending_mark(p.pending, g, base, r),
        record_valid(g.record_of(t, r)),
        xattr_tables_apart(g, r),
        0 <= i < writes.len(),
    ensures
        i != mark_count(g) ==> keeps_clear(
            writes[i],
            r.shadow.inode_block * 512,
            g.inode_table_blocks * 512,
        ),
        i != mark_count(g) + 1 ==> keeps_clear(
            writes[i],
            r.shadow.dirent_block * 512,
            g.dirent_table_blocks * 512,
        ),
        g.format_version.stores_xattrs() && i != mark_count(g) + 2 ==> keeps_clear(
            writes[i],
            r.shadow.xattr_block * 512,
            g.xattr_table_blocks * 512,
        ),
{
    lemma_part_lens(g, base, t, r, p);
    lemma_write_numbers(g, r, p);
}

/// Where a commit is in its last two writes: the tables are in place.
proof fn lemma_tables_in_place(
    before: Seq<u8>,
    after: Seq<u8>,
    g: VolumeGeometry,
    base: TreeView,
    t: TreeView,
    r: RestView,
    p: CommitParts,
    k: int,
)
    requires
        cut_off(before, after, commit_writes(g, r, p), k),
        commit_parts(g, t, r, p),
        is_pending_mark(p.pending, g, base, r),
        record_valid(g.record_of(t, r)),
        xattr_tables_apart(g, r),
        slot_on_device(r.shadow, g, before.len()),
        k >= commit_writes(g, r, p).len() - 2,
    ensures
        slot_holds(after, r.shadow, g, t),
{
    let writes = commit_writes(g, r, p);
    let s = mark_count(g);
    lemma_part_lens(g, base, t, r, p);
    lemma_writes_apart(g, base, t, r, p);
    lemma_write_numbers(g, r, p);
    assert forall|i: int| #![trigger writes[i]] 0 <= i < writes.len() && i != s implies keeps_clear(
        writes[i],
        r.shadow.inode_block * 512,
        g.inode_table_blocks * 512,
    ) by {
        lemma_written_once(g, base, t, r, p, writes, i);
    }
    lemma_one_filled(
        before,
        after,
        writes,
        r.shadow.inode_block * 512,
        g.inode_table_blocks * 512,
        k,
        s,
    );
    assert forall|i: int| #![trigger writes[i]] 0 <= i < writes.len() && i != s + 1 implies keeps_clear(
        writes[i],
        r.shadow.dirent_block * 512,
        g.dirent_table_blocks * 512,
    ) by {
        lemma_written_once(g, base, t, r, p, writes, i);
    }
    lemma_one_filled(
        before,
        after,
        writes,
        r.shadow.dirent_block * 512,
        g.dirent_table_blocks * 512,
        k,
        s + 1,
    );
    if g.format_version.stores_xattrs() {
        assert forall|i: int| #![trigger writes[i]] 0 <= i < writes.len() && i != s
            + 2 implies keeps_clear(
            writes[i],
            r.shadow.xattr_block * 512,
            g.xattr_table_blocks * 512,
        ) by {
            lemma_written_once(g, base, t, r, p, writes, i);
        }
        lemma_one_filled(
            before,
            after,
            writes,
            r.shadow.xattr_block * 512,
            g.xattr_table_blocks * 512,
            k,
            s + 2,
        );
    }
}

/// A range that one write filled, and no other touched, holds what that one wrote.
proof fn lemma_one_filled(
    before: Seq<u8>,
    after: Seq<u8>,
    writes: Seq<WriteView>,
    at: int,
    len: int,
    k: int,
    j: int,
)
    requires
        0 <= at,
        0 <= len,
        at + len <= before.len(),
        fills_or_clear(writes, at, len),
        cut_off(before, after, writes, k),
        0 <= j < k,
        writes[j].0 == at,
        writes[j].1.len() == len,
        keeps_clear(writes[k], at, len),
        len > 0 ==> forall|i: int|
            #![trigger writes[i]]
            0 <= i < writes.len() && i != j ==> keeps_clear(writes[i], at, len),
    ensures
        after.len() == before.len(),
        after.subrange(at, at + len) == writes[j].1,
{
    lemma_cut_piece(before, after, writes, at, len, k);
    lemma_last_over(writes, at, len, k);
    let l = last_over(writes, at, len, k)->0;
    if len > 0 && l != j {
        assert(keeps_clear(writes[l], at, len));
    }
    if len == 0 {
        assert(after.subrange(at, at + len) =~= writes[j].1);
    }
}

/// What a superblock shows of a commit that was cut off, where the write that failed is not
/// its own.
proof fn lemma_other_superblock(
    before: Seq<u8>,
    after: Seq<u8>,
    g: VolumeGeometry,
    base: TreeView,
    t: TreeView,
    r: RestView,
    p: CommitParts,
    k: int,
    at: int,
)
    requires
        at == 0 || at == 512,
        cut_off(before, after, commit_writes(g, r, p), k),
        commit_writes(g, r, p)[k].0 != at,
        commit_parts(g, t, r, p),
        is_pending_mark(p.pending, g, base, r),
        counts_fit(base),
        counts_fit(t),
        r.generation < u32::MAX,
        record_valid(g.record_of(base, r)),
        record_valid(g.record_of(t, r)),
        xattr_tables_apart(g, r),
        1024 <= before.len(),
        superblock_shows(before.subrange(at, at + 512), g, base, r.active),
    ensures
        after.len() == before.len(),
        superblock_shows(after.subrange(at, at + 512), g, base, r.active) || (superblock_shows(
            after.subrange(at, at + 512),
            g,
            t,
            r.shadow,
        ) && k == commit_writes(g, r, p).len() - 1),
{
    let writes = commit_writes(g, r, p);
    lemma_part_lens(g, base, t, r, p);
    lemma_writes_apart(g, base, t, r, p);
    lemma_write_numbers(g, r, p);
    lemma_cut_piece(before, after, writes, at, 512, k);
    lemma_last_over(writes, at, 512, k);
    lemma_publish_shows(g, t, r, p);
    if g.format_version.stores_security() {
        lemma_mark_shows(p.pending, g, base, r);
    }
    match last_over(writes, at, 512, k) {
        None => {},
        Some(j) => {
            lemma_superblock_write(g, base, t, r, p, writes, j, at);
        },
    }
}

/// A write at a superblock is a mark, or one of the last two writes.
#[verifier::spinoff_prover]
proof fn lemma_superblock_write(
    g: VolumeGeometry,
    base: TreeView,
    t: TreeView,
    r: RestView,
    p: CommitParts,
    writes: Seq<WriteView>,
    j: int,
    at: int,
)
    requires
        writes == commit_writes(g, r, p),
        at == 0 || at == 512,
        0 <= j < writes.len(),
        writes[j].0 == at,
        record_valid(g.record_of(t, r)),
        xattr_tables_apart(g, r),
    ensures
        (g.format_version.stores_security() && j < 2 && writes[j].1 == p.pending) || (writes[j].1
            == p.publish && j == writes.len() - (if at == 512 {
            2int
        } else {
            1
        })),
{
    lemma_write_numbers(g, r, p);
}

/// However far a commit got before a write failed, the next mount finds the tree that was
/// committed before, or the new one, and nothing in between. This is said of a torn
/// superblock that is found out, as its checksum is there for.
pub proof fn law_cut_off_commit_mounts<D: BlockDevice>(
    before: Seq<u8>,
    device: D,
    g: VolumeGeometry,
    base: TreeView,
    t: TreeView,
    r: RestView,
    p: CommitParts,
    k: int,
)
    requires
        device.reliable(),
        geometry_ok(g),
        r.generation < u32::MAX,
        tree_storable(g, base, (device.image().len() / 512) as int),
        tree_storable(g, t, (device.image().len() / 512) as int),
        record_valid(g.record_of(base, r)),
        xattr_tables_apart(g, r),
        slot_on_device(r.shadow, g, before.len()),
        volume_on_disk(before, g, base, r),
        commit_parts(g, t, r, p),
        is_pending_mark(p.pending, g, base, r),
        cut_off(before, device.image(), commit_writes(g, r, p), k),
        tear_is_found_out(before, device.image(), commit_writes(g, r, p), k),
    ensures
        mountable(device, g.case_sensitive) is Ok,
        ({
            let v = mountable(device, g.case_sensitive)->Ok_0;
            ||| v.inodes == all_as_stored(base.inodes, g.format_version) && v.entries
                == base.entries
            ||| v.inodes == all_as_stored(t.inodes, g.format_version) && v.entries == t.entries
        }),
{
    let after = device.image();
    let writes = commit_writes(g, r, p);
    lemma_layout_swaps(g, base, t, r);
    lemma_active_kept(before, after, g, base, t, r, p, k);
    if k >= writes.len() - 2 {
        lemma_tables_in_place(before, after, g, base, t, r, p, k);
    }
    device.lemma_reliable_read(0, 512);
    device.lemma_reliable_read(1, 512);
    assert(stored_superblock(device, 0) == superblock_contents(after.subrange(0, 512)));
    assert(stored_superblock(device, 1) == superblock_contents(after.subrange(512, 1024)));
    lemma_one_superblock(before, after, g, base, t, r, p, k, 0);
    lemma_one_superblock(before, after, g, base, t, r, p, k, 512);
    law_interrupted_commit_is_atomic(device, g, base, r.active, t, r.shadow);
}

/// A superblock of a commit that was cut off shows the old tree, or the new one once its
/// tables are in place, or cannot be read; and it can be read where the write that failed is
/// not its own.
proof fn lemma_one_superblock(
    before: Seq<u8>,
    after: Seq<u8>,
    g: VolumeGeometry,
    base: TreeView,
    t: TreeView,
    r: RestView,
    p: CommitParts,
    k: int,
    at: int,
)
    requires
        at == 0 || at == 512,
        r.generation < u32::MAX,
        counts_fit(base),
        counts_fit(t),
        record_valid(g.record_of(base, r)),
        record_valid(g.record_of(t, r)),
        xattr_tables_apart(g, r),
        volume_on_disk(before, g, base, r),
        commit_parts(g, t, r, p),
        is_pending_mark(p.pending, g, base, r),
        cut_off(before, after, commit_writes(g, r, p), k),
        tear_is_found_out(before, after, commit_writes(g, r, p), k),
    ensures
        ({
            let block = after.subrange(at, at + 512);
            &&& commit_writes(g, r, p)[k].0 != at ==> superblock_contents(block) is Ok
            &&& superblock_contents(block) is Err || superblock_shows(block, g, base, r.active) || (
            superblock_shows(block, g, t, r.shadow) && k >= commit_writes(g, r, p).len() - 2)
        }),
{
    let writes = commit_writes(g, r, p);
    let block = after.subrange(at, at + 512);
    if writes[k].0 != at {
        lemma_other_superblock(before, after, g, base, t, r, p, k, at);
    } else {
        lemma_part_lens(g, base, t, r, p);
        lemma_writes_apart(g, base, t, r, p);
        lemma_write_numbers(g, r, p);
        lemma_done_piece(before, writes, at, 512, k);
        lemma_last_over(writes, at, 512, k);
        lemma_publish_shows(g, t, r, p);
        lemma_superblock_write(g, base, t, r, p, writes, k, at);
        if g.format_version.stores_security() {
            lemma_mark_shows(p.pending, g, base, r);
        }
        match last_over(writes, at, 512, k) {
            None => {},
            Some(j) => {
                lemma_superblock_write(g, base, t, r, p, writes, j, at);
            },
        }
    }
}

} // verus!
