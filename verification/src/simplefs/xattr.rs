//! Attributes of mounted nodes.
use vstd::prelude::*;

use crate::bytes::{bytes_eq, copy_range, zeros};
use crate::error::{Error, Result};
use crate::simplefs::constants::{XATTR_NAME_MAX, XATTR_STATUS_DELETED, XATTR_STATUS_LIVE, XATTR_VALUE_MAX};
use crate::simplefs::state::{SimpleFsState, TreeView, lemma_replay_covered, lemma_replay_past_cut, lemma_replayed_len, undo_kept, undo_ok};
use crate::simplefs::tree::VolumeGeometry;
use crate::simplefs::tree_steps::lemma_kept_trans;
use crate::simplefs::types::{XattrRecord, XattrView};
use crate::vfs::XattrEntry;

verus! {

/// `s` followed by zeros up to `n` bytes.
pub open spec fn zero_padded(s: Seq<u8>, n: int) -> Seq<u8> {
    s + zeros((n - s.len()) as nat)
}

/// Whether a record is the attribute `name` of an inode.
pub open spec fn xattr_is(x: XattrView, inode_index: int, name: Seq<u8>) -> bool {
    &&& x.status == XATTR_STATUS_LIVE
    &&& x.inode_index == inode_index
    &&& x.name_len == name.len()
    &&& name.len() <= XATTR_NAME_MAX
    &&& x.name.take(name.len() as int) == name
}

/// Whether a record belongs to an inode.
pub open spec fn xattr_of(x: XattrView, inode_index: int) -> bool {
    x.status == XATTR_STATUS_LIVE && x.inode_index == inode_index
}

/// The first record from `from` on that is the attribute `name` of an inode.
pub open spec fn find_xattr(
    xs: Seq<XattrView>,
    inode_index: int,
    name: Seq<u8>,
    from: int,
) -> Option<int>
    decreases xs.len() - from,
{
    if from >= xs.len() {
        None
    } else if xattr_is(xs[from], inode_index, name) {
        Some(from)
    } else {
        find_xattr(xs, inode_index, name, from + 1)
    }
}

/// The first deleted record from `from` on.
pub open spec fn find_deleted(xs: Seq<XattrView>, from: int) -> Option<int>
    decreases xs.len() - from,
{
    if from >= xs.len() {
        None
    } else if xs[from].status == XATTR_STATUS_DELETED {
        Some(from)
    } else {
        find_deleted(xs, from + 1)
    }
}

/// A live record.
pub open spec fn live_xattr(inode_index: int, name: Seq<u8>, value: Seq<u8>) -> XattrView {
    XattrView {
        inode_index: inode_index as u32,
        name_len: name.len() as u32,
        value_len: value.len() as u32,
        status: XATTR_STATUS_LIVE,
        name: zero_padded(name, XATTR_NAME_MAX as int),
        value: zero_padded(value, XATTR_VALUE_MAX as int),
    }
}

/// A record after its attribute was removed: nothing of it is left.
pub open spec fn erased_xattr(x: XattrView) -> XattrView {
    XattrView {
        name_len: 0,
        value_len: 0,
        status: XATTR_STATUS_DELETED,
        name: zeros(XATTR_NAME_MAX as nat),
        value: zeros(XATTR_VALUE_MAX as nat),
        ..x
    }
}

/// The value a record carries.
pub open spec fn xattr_value(x: XattrView) -> Seq<u8> {
    if x.value_len <= XATTR_VALUE_MAX {
        x.value.take(x.value_len as int)
    } else {
        x.value
    }
}

/// The name a record carries.
pub open spec fn xattr_name(x: XattrView) -> Seq<u8> {
    if x.name_len <= XATTR_NAME_MAX {
        x.name.take(x.name_len as int)
    } else {
        x.name
    }
}

/// The value of an attribute, if it is set.
pub open spec fn xattr_lookup(xs: Seq<XattrView>, inode_index: int, name: Seq<u8>) -> Option<
    Seq<u8>,
> {
    match find_xattr(xs, inode_index, name, 0) {
        Some(k) => Some(xattr_value(xs[k])),
        None => None,
    }
}

/// What setting an attribute comes to: the new list of records, or why not.
pub open spec fn xattr_set(
    xs: Seq<XattrView>,
    inode_index: int,
    inode_count: int,
    capacity: int,
    name: Seq<u8>,
    value: Seq<u8>,
) -> core::result::Result<Seq<XattrView>, Error> {
    if name.len() == 0 || name.len() > XATTR_NAME_MAX || value.len() > XATTR_VALUE_MAX
        || inode_index >= inode_count {
        Err(Error::InvalidArgument)
    } else {
        match find_xattr(xs, inode_index, name, 0) {
            Some(k) => Ok(
                xs.update(
                    k,
                    XattrView {
                        value_len: value.len() as u32,
                        value: zero_padded(value, XATTR_VALUE_MAX as int),
                        ..xs[k]
                    },
                ),
            ),
            None => match find_deleted(xs, 0) {
                Some(k) => Ok(xs.update(k, live_xattr(inode_index, name, value))),
                None => if xs.len() >= capacity {
                    Err(Error::OutOfMemory)
                } else {
                    Ok(xs.push(live_xattr(inode_index, name, value)))
                },
            },
        }
    }
}

/// The records after an inode's attributes were all removed.
pub open spec fn xattrs_cleared(xs: Seq<XattrView>, inode_index: int) -> Seq<XattrView> {
    Seq::new(
        xs.len(),
        |i: int|
            if xattr_of(xs[i], inode_index) {
                erased_xattr(xs[i])
            } else {
                xs[i]
            },
    )
}

/// The attributes of an inode among the first records, in table order.
pub open spec fn xattrs_listed(xs: Seq<XattrView>, inode_index: int) -> Seq<(Seq<u8>, Seq<u8>)>
    decreases xs.len(),
{
    if xs.len() == 0 {
        Seq::empty()
    } else {
        let before = xattrs_listed(xs.drop_last(), inode_index);
        if xattr_of(xs.last(), inode_index) {
            before.push((xattr_name(xs.last()), xattr_value(xs.last())))
        } else {
            before
        }
    }
}

fn padded_name(name: &[u8]) -> (r: [u8; 64])
    requires
        name@.len() <= 64,
    ensures
        r@ == zero_padded(name@, 64),
{
    let mut out: [u8; 64] = [0u8; 64];
    let mut i: usize = 0;
    while i < name.len()
        invariant
            i <= name@.len() <= 64,
            forall|j: int| 0 <= j < 64 ==> out@[j] == if j < i {
                name@[j]
            } else {
                0
            },
        decreases name@.len() - i,
    {
        out[i] = name[i];
        i = i + 1;
    }
    assert(out@ =~= zero_padded(name@, 64));
    out
}

fn padded_value(value: &[u8]) -> (r: [u8; 256])
    requires
        value@.len() <= 256,
    ensures
        r@ == zero_padded(value@, 256),
{
    let mut out: [u8; 256] = [0u8; 256];
    let mut i: usize = 0;
    while i < value.len()
        invariant
            i <= value@.len() <= 256,
            forall|j: int| 0 <= j < 256 ==> out@[j] == if j < i {
                value@[j]
            } else {
                0
            },
        decreases value@.len() - i,
    {
        out[i] = value[i];
        i = i + 1;
    }
    assert(out@ =~= zero_padded(value@, 256));
    out
}

fn record_is(record: &XattrRecord, inode_index: usize, name: &[u8]) -> (r: bool)
    ensures
        r == xattr_is(record@, inode_index as int, name@),
{
    if record.status != XATTR_STATUS_LIVE || record.inode_index as usize != inode_index
        || record.name_len as usize != name.len() || name.len() > XATTR_NAME_MAX {
        return false;
    }
    let stored = vstd::slice::slice_subrange(record.name.as_slice(), 0, name.len());
    assert(stored@ == record@.name.take(name@.len() as int));
    bytes_eq(stored, name)
}

fn erase(record: &XattrRecord) -> (r: XattrRecord)
    ensures
        r@ == erased_xattr(record@),
{
    let r = XattrRecord {
        inode_index: record.inode_index,
        name_len: 0,
        value_len: 0,
        status: XATTR_STATUS_DELETED,
        name: [0u8; 64],
        value: [0u8; 256],
    };
    assert(r.name@ =~= zeros(XATTR_NAME_MAX as nat));
    assert(r.value@ =~= zeros(XATTR_VALUE_MAX as nat));
    r
}

fn value_of(record: &XattrRecord) -> (r: Vec<u8>)
    ensures
        r@ == xattr_value(record@),
{
    let len: usize = if record.value_len as usize <= XATTR_VALUE_MAX {
        record.value_len as usize
    } else {
        XATTR_VALUE_MAX
    };
    assert(record@.value.len() == 256);
    assert(record@.value.subrange(0, len as int) =~= xattr_value(record@));
    copy_range(record.value.as_slice(), 0, len)
}

fn name_of_record(record: &XattrRecord) -> (r: Vec<u8>)
    ensures
        r@ == xattr_name(record@),
{
    let len: usize = if record.name_len as usize <= XATTR_NAME_MAX {
        record.name_len as usize
    } else {
        XATTR_NAME_MAX
    };
    assert(record@.name.len() == 64);
    assert(record@.name.subrange(0, len as int) =~= xattr_name(record@));
    copy_range(record.name.as_slice(), 0, len)
}

impl SimpleFsState {
    /// Position of an attribute's live record, if it is set.
    pub fn find_live_xattr(&self, inode_index: usize, name: &[u8]) -> (r: Option<usize>)
        ensures
            match r {
                Some(k) => k < self.xattrs@.len() && find_xattr(
                    self.tree().xattrs,
                    inode_index as int,
                    name@,
                    0,
                ) == Some(k as int),
                None => find_xattr(self.tree().xattrs, inode_index as int, name@, 0) is None,
            },
    {
        let ghost xs = self.tree().xattrs;
        let mut k: usize = 0;
        while k < self.xattrs.len()
            invariant
                k <= self.xattrs@.len(),
                xs == self.tree().xattrs,
                find_xattr(xs, inode_index as int, name@, 0) == find_xattr(
                    xs,
                    inode_index as int,
                    name@,
                    k as int,
                ),
            decreases self.xattrs@.len() - k,
        {
            assert(xs[k as int] == self.xattrs@[k as int]@);
            if record_is(&self.xattrs[k], inode_index, name) {
                return Some(k);
            }
            k = k + 1;
        }
        None
    }

    /// Position of the first deleted record, if there is one.
    fn find_deleted_xattr(&self) -> (r: Option<usize>)
        ensures
            match r {
                Some(k) => k < self.xattrs@.len() && find_deleted(self.tree().xattrs, 0) == Some(
                    k as int,
                ),
                None => find_deleted(self.tree().xattrs, 0) is None,
            },
    {
        let ghost xs = self.tree().xattrs;
        let mut k: usize = 0;
        while k < self.xattrs.len()
            invariant
                k <= self.xattrs@.len(),
                xs == self.tree().xattrs,
                find_deleted(xs, 0) == find_deleted(xs, k as int),
            decreases self.xattrs@.len() - k,
        {
            assert(xs[k as int] == self.xattrs@[k as int]@);
            if self.xattrs[k].status == XATTR_STATUS_DELETED {
                return Some(k);
            }
            k = k + 1;
        }
        None
    }

    /// Saves and overwrites a record.
    fn set_record(&mut self, index: usize, record: XattrRecord)
        requires
            index < old(self).xattrs@.len(),
        ensures
            final(self).tree() == (TreeView {
                xattrs: old(self).tree().xattrs.update(index as int, record@),
                ..old(self).tree()
            }),
            final(self).rest() == old(self).rest(),
            final(self).inode_table_dirty == old(self).inode_table_dirty,
            final(self).dirent_table_dirty == old(self).dirent_table_dirty,
            final(self).xattr_table_dirty,
            undo_kept(*old(self), *final(self)),
    {
        self.save_xattr_for_undo(index);
        let ghost mid = *self;
        assert(mid.tree().xattrs.len() == old(self).tree().xattrs.len());
        self.xattrs[index] = record;
        self.xattr_table_dirty = true;
        proof {
            let u = self.undo@;
            assert(self.tree().xattrs =~= mid.tree().xattrs.update(index as int, record@));
            assert forall|base: TreeView|
                #![trigger undo_ok(self.tree(), self.undo@, base)]
                undo_ok(mid.tree(), u, base) implies undo_ok(self.tree(), u, base) by {
                lemma_replay_covered(u.xattrs, mid.tree().xattrs, index as int, record@);
            }
            lemma_kept_trans(*old(self), mid, *self);
        }
    }

    /// Saves the length of the list and appends a record.
    fn push_record(&mut self, record: XattrRecord)
        ensures
            final(self).tree() == (TreeView {
                xattrs: old(self).tree().xattrs.push(record@),
                ..old(self).tree()
            }),
            final(self).rest() == old(self).rest(),
            final(self).inode_table_dirty == old(self).inode_table_dirty,
            final(self).dirent_table_dirty == old(self).dirent_table_dirty,
            final(self).xattr_table_dirty,
            undo_kept(*old(self), *final(self)),
    {
        self.save_xattr_len_for_undo();
        let ghost mid = *self;
        self.xattrs.push(record);
        self.xattr_table_dirty = true;
        proof {
            let u = self.undo@;
            assert(self.tree().xattrs =~= mid.tree().xattrs.push(record@));
            assert forall|base: TreeView|
                #![trigger undo_ok(self.tree(), self.undo@, base)]
                undo_ok(mid.tree(), u, base) implies undo_ok(self.tree(), u, base) by {
                let n = u.xattr_len->0 as int;
                let before = mid.tree().xattrs;
                let after = self.tree().xattrs;
                assert(before.take(n) =~= after.take(n));
                lemma_replayed_len(u.xattrs, before);
                lemma_replayed_len(u.xattrs, after);
                lemma_replay_past_cut(u.xattrs, before, after, n);
            }
            lemma_kept_trans(*old(self), mid, *self);
        }
    }

    /// The value of an attribute, if it is set.
    pub fn get_xattr_for_inode(&self, inode_index: usize, name: &[u8]) -> (r: Option<Vec<u8>>)
        ensures
            match r {
                Some(v) => xattr_lookup(self.tree().xattrs, inode_index as int, name@) == Some(v@),
                None => xattr_lookup(self.tree().xattrs, inode_index as int, name@) is None,
            },
    {
        match self.find_live_xattr(inode_index, name) {
            Some(k) => {
                assert(self.tree().xattrs[k as int] == self.xattrs@[k as int]@);
                Some(value_of(&self.xattrs[k]))
            },
            None => None,
        }
    }

    /// The attributes of an inode, in table order.
    pub fn list_xattrs_for_inode(&self, inode_index: usize) -> (r: Vec<XattrEntry>)
        ensures
            Seq::new(r@.len(), |i: int| (r@[i].name@, r@[i].value@)) == xattrs_listed(
                self.tree().xattrs,
                inode_index as int,
            ),
    {
        let ghost xs = self.tree().xattrs;
        let mut out: Vec<XattrEntry> = Vec::new();
        let mut k: usize = 0;
        while k < self.xattrs.len()
            invariant
                k <= self.xattrs@.len(),
                xs == self.tree().xattrs,
                Seq::new(out@.len(), |i: int| (out@[i].name@, out@[i].value@)) == xattrs_listed(
                    xs.take(k as int),
                    inode_index as int,
                ),
            decreases self.xattrs@.len() - k,
        {
            assert(xs.take(k + 1).drop_last() =~= xs.take(k as int));
            assert(xs.take(k + 1).last() == self.xattrs@[k as int]@);
            let record = &self.xattrs[k];
            if record.status == XATTR_STATUS_LIVE && record.inode_index as usize == inode_index {
                let ghost before = Seq::new(out@.len(), |i: int| (out@[i].name@, out@[i].value@));
                out.push(XattrEntry { name: name_of_record(record), value: value_of(record) });
                assert(Seq::new(out@.len(), |i: int| (out@[i].name@, out@[i].value@))
                    =~= before.push((xattr_name(record@), xattr_value(record@))));
            }
            k = k + 1;
        }
        assert(xs.take(k as int) =~= xs);
        out
    }

    /// Removes an attribute, leaving nothing of it behind.
    pub fn remove_xattr_for_inode(&mut self, inode_index: usize, name: &[u8]) -> (r: Result<()>)
        ensures
            match find_xattr(old(self).tree().xattrs, inode_index as int, name@, 0) {
                Some(k) => {
                    &&& r is Ok
                    &&& final(self).tree() == (TreeView {
                        xattrs: xattr_removed(old(self).tree().xattrs, k),
                        ..old(self).tree()
                    })
                },
                None => r == Err::<(), Error>(Error::NotFound) && *final(self) == *old(self),
            },
            final(self).rest() == old(self).rest(),
            final(self).inode_table_dirty == old(self).inode_table_dirty,
            final(self).dirent_table_dirty == old(self).dirent_table_dirty,
            undo_kept(*old(self), *final(self)),
    {
        match self.find_live_xattr(inode_index, name) {
            Some(k) => {
                assert(self.tree().xattrs[k as int] == self.xattrs@[k as int]@);
                let record = erase(&self.xattrs[k]);
                self.set_record(k, record);
                Ok(())
            },
            None => Err(Error::NotFound),
        }
    }

    /// Removes every attribute of an inode.
    pub fn mark_inode_xattrs_deleted(&mut self, inode_index: usize)
        ensures
            final(self).tree() == (TreeView {
                xattrs: xattrs_cleared(old(self).tree().xattrs, inode_index as int),
                ..old(self).tree()
            }),
            final(self).rest() == old(self).rest(),
            final(self).inode_table_dirty == old(self).inode_table_dirty,
            final(self).dirent_table_dirty == old(self).dirent_table_dirty,
            undo_kept(*old(self), *final(self)),
    {
        let ghost xs = self.tree().xattrs;
        let ghost goal = xattrs_cleared(xs, inode_index as int);
        let mut k: usize = 0;
        while k < self.xattrs.len()
            invariant
                k <= self.xattrs@.len(),
                self.xattrs@.len() == xs.len(),
                xs == old(self).tree().xattrs,
                goal == xattrs_cleared(xs, inode_index as int),
                self.tree() == (TreeView {
                    xattrs: goal.take(k as int) + xs.skip(k as int),
                    ..old(self).tree()
                }),
                self.rest() == old(self).rest(),
                self.inode_table_dirty == old(self).inode_table_dirty,
                self.dirent_table_dirty == old(self).dirent_table_dirty,
                undo_kept(*old(self), *self),
            decreases self.xattrs@.len() - k,
        {
            let ghost mid = *self;
            assert(self.tree().xattrs[k as int] == self.xattrs@[k as int]@);
            assert(self.tree().xattrs[k as int] == xs[k as int]);
            let record = self.xattrs[k];
            if record.status == XATTR_STATUS_LIVE && record.inode_index as usize == inode_index {
                let erased = erase(&record);
                self.set_record(k, erased);
                proof {
                    lemma_kept_trans(*old(self), mid, *self);
                    assert(self.tree().xattrs.len() == xs.len());
                }
            }
            proof {
                assert(self.tree().xattrs =~= goal.take(k + 1) + xs.skip(k + 1));
                assert(self.tree().xattrs.len() == self.xattrs@.len());
            }
            k = k + 1;
        }
        assert(goal.take(k as int) + xs.skip(k as int) =~= goal);
    }
}

impl VolumeGeometry {
    /// Sets an attribute, overwriting the value it had.
    pub fn set_xattr_for_inode(
        &self,
        state: &mut SimpleFsState,
        inode_index: usize,
        name: &[u8],
        value: &[u8],
    ) -> (r: Result<()>)
        requires
            old(state).inodes@.len() <= u32::MAX,
        ensures
            match xattr_set(
                old(state).tree().xattrs,
                inode_index as int,
                old(state).inodes@.len() as int,
                self.xattr_capacity as int,
                name@,
                value@,
            ) {
                Ok(xs) => r is Ok && final(state).tree() == (TreeView {
                    xattrs: xs,
                    ..old(state).tree()
                }),
                Err(e) => r == Err::<(), Error>(e) && *final(state) == *old(state),
            },
            final(state).rest() == old(state).rest(),
            final(state).inode_table_dirty == old(state).inode_table_dirty,
            final(state).dirent_table_dirty == old(state).dirent_table_dirty,
            undo_kept(*old(state), *final(state)),
    {
        if name.len() == 0 || name.len() > XATTR_NAME_MAX {
            return Err(Error::InvalidArgument);
        }
        if value.len() > XATTR_VALUE_MAX {
            return Err(Error::InvalidArgument);
        }
        if inode_index >= state.inodes.len() {
            return Err(Error::InvalidArgument);
        }
        match state.find_live_xattr(inode_index, name) {
            Some(k) => {
                assert(state.tree().xattrs[k as int] == state.xattrs@[k as int]@);
                let mut record = state.xattrs[k];
                record.value_len = value.len() as u32;
                record.value = padded_value(value);
                state.set_record(k, record);
                return Ok(());
            },
            None => {},
        }
        let record = XattrRecord {
            inode_index: inode_index as u32,
            name_len: name.len() as u32,
            value_len: value.len() as u32,
            status: XATTR_STATUS_LIVE,
            name: padded_name(name),
            value: padded_value(value),
        };
        assert(record@ == live_xattr(inode_index as int, name@, value@));
        match state.find_deleted_xattr() {
            Some(k) => {
                state.set_record(k, record);
            },
            None => {
                assert(state.tree().xattrs.len() == state.xattrs@.len());
                if state.xattrs.len() >= self.xattr_capacity as usize {
                    return Err(Error::OutOfMemory);
                }
                state.push_record(record);
            },
        }
        Ok(())
    }
}

// ── Laws ──

proof fn lemma_find_xattr_at(xs: Seq<XattrView>, inode_index: int, name: Seq<u8>, from: int, k: int)
    requires
        0 <= from <= k < xs.len(),
        xattr_is(xs[k], inode_index, name),
        forall|j: int| from <= j < k ==> !xattr_is(#[trigger] xs[j], inode_index, name),
    ensures
        find_xattr(xs, inode_index, name, from) == Some(k),
    decreases k - from,
{
    if from < k {
        lemma_find_xattr_at(xs, inode_index, name, from + 1, k);
    }
}

pub proof fn lemma_find_xattr_sound(xs: Seq<XattrView>, inode_index: int, name: Seq<u8>, from: int)
    requires
        0 <= from <= xs.len(),
    ensures
        match find_xattr(xs, inode_index, name, from) {
            Some(k) => from <= k < xs.len() && xattr_is(xs[k], inode_index, name) && forall|j: int|
                from <= j < k ==> !xattr_is(#[trigger] xs[j], inode_index, name),
            None => forall|j: int|
                from <= j < xs.len() ==> !xattr_is(#[trigger] xs[j], inode_index, name),
        },
    decreases xs.len() - from,
{
    if from < xs.len() && !xattr_is(xs[from], inode_index, name) {
        lemma_find_xattr_sound(xs, inode_index, name, from + 1);
    }
}

pub proof fn lemma_find_deleted_sound(xs: Seq<XattrView>, from: int)
    requires
        0 <= from <= xs.len(),
    ensures
        match find_deleted(xs, from) {
            Some(k) => from <= k < xs.len() && xs[k].status == XATTR_STATUS_DELETED,
            None => true,
        },
    decreases xs.len() - from,
{
    if from < xs.len() && xs[from].status != XATTR_STATUS_DELETED {
        lemma_find_deleted_sound(xs, from + 1);
    }
}

/// An attribute that was set is read back with the value it was given.
pub proof fn law_xattr_set_then_get(
    xs: Seq<XattrView>,
    inode_index: u32,
    inode_count: int,
    capacity: int,
    name: Seq<u8>,
    value: Seq<u8>,
)
    requires
        xattr_set(xs, inode_index as int, inode_count, capacity, name, value) is Ok,
    ensures
        xattr_lookup(
            xattr_set(xs, inode_index as int, inode_count, capacity, name, value)->Ok_0,
            inode_index as int,
            name,
        ) == Some(value),
{
    let i = inode_index as int;
    let after = xattr_set(xs, i, inode_count, capacity, name, value)->Ok_0;
    let fresh = live_xattr(i, name, value);
    lemma_find_xattr_sound(xs, i, name, 0);
    lemma_find_deleted_sound(xs, 0);
    assert(fresh.name.take(name.len() as int) =~= name);
    assert(zero_padded(value, XATTR_VALUE_MAX as int).take(value.len() as int) =~= value);
    match find_xattr(xs, i, name, 0) {
        Some(k) => {
            lemma_find_xattr_at(after, i, name, 0, k);
        },
        None => {
            let k = match find_deleted(xs, 0) {
                Some(k) => k,
                None => xs.len() as int,
            };
            assert forall|j: int| 0 <= j < k implies !xattr_is(#[trigger] after[j], i, name) by {
                assert(after[j] == xs[j]);
            }
            lemma_find_xattr_at(after, i, name, 0, k);
        },
    }
}

/// Setting one attribute leaves every other attribute alone.
pub proof fn law_xattr_set_keeps_others(
    xs: Seq<XattrView>,
    inode_index: u32,
    inode_count: int,
    capacity: int,
    name: Seq<u8>,
    value: Seq<u8>,
    other_inode: int,
    other_name: Seq<u8>,
)
    requires
        xattr_set(xs, inode_index as int, inode_count, capacity, name, value) is Ok,
        other_inode != inode_index || other_name != name,
    ensures
        xattr_lookup(
            xattr_set(xs, inode_index as int, inode_count, capacity, name, value)->Ok_0,
            other_inode,
            other_name,
        ) == xattr_lookup(xs, other_inode, other_name),
{
    let i = inode_index as int;
    let after = xattr_set(xs, i, inode_count, capacity, name, value)->Ok_0;
    lemma_find_xattr_sound(xs, i, name, 0);
    lemma_find_deleted_sound(xs, 0);
    lemma_find_xattr_sound(xs, other_inode, other_name, 0);
    lemma_find_xattr_sound(after, other_inode, other_name, 0);
    let fresh = live_xattr(i, name, value);
    assert(fresh.name.take(name.len() as int) =~= name);
    assert forall|j: int|
        0 <= j < xs.len() implies xattr_is(#[trigger] after[j], other_inode, other_name) == xattr_is(
        xs[j],
        other_inode,
        other_name,
    ) by {
    }
    if after.len() > xs.len() {
        assert(!xattr_is(after[xs.len() as int], other_inode, other_name));
    }
    match find_xattr(xs, other_inode, other_name, 0) {
        Some(k) => {
            assert(xattr_is(after[k], other_inode, other_name));
            lemma_find_xattr_at(after, other_inode, other_name, 0, k);
        },
        None => {},
    }
}

/// The records once the attribute at `k` was removed.
pub open spec fn xattr_removed(xs: Seq<XattrView>, k: int) -> Seq<XattrView> {
    xs.update(k, erased_xattr(xs[k]))
}

/// Removing an attribute leaves every other attribute alone.
pub proof fn law_xattr_remove_keeps_others(
    xs: Seq<XattrView>,
    inode_index: int,
    name: Seq<u8>,
    other_inode: int,
    other_name: Seq<u8>,
)
    requires
        find_xattr(xs, inode_index, name, 0) is Some,
        other_inode != inode_index || other_name != name,
    ensures
        xattr_lookup(
            xattr_removed(xs, find_xattr(xs, inode_index, name, 0)->0),
            other_inode,
            other_name,
        ) == xattr_lookup(xs, other_inode, other_name),
{
    let k = find_xattr(xs, inode_index, name, 0)->0;
    let after = xattr_removed(xs, k);
    lemma_find_xattr_sound(xs, inode_index, name, 0);
    lemma_find_xattr_sound(xs, other_inode, other_name, 0);
    lemma_find_xattr_sound(after, other_inode, other_name, 0);
    assert forall|j: int|
        0 <= j < xs.len() implies xattr_is(#[trigger] after[j], other_inode, other_name) == xattr_is(
        xs[j],
        other_inode,
        other_name,
    ) by {
    }
    match find_xattr(xs, other_inode, other_name, 0) {
        Some(j) => {
            assert(xattr_is(after[j], other_inode, other_name));
            lemma_find_xattr_at(after, other_inode, other_name, 0, j);
        },
        None => {},
    }
}

/// Removing an attribute frees its record: another attribute can be set afterwards even
/// where the table is full, and takes no further record.
pub proof fn law_xattr_remove_frees_a_record(
    xs: Seq<XattrView>,
    inode_index: int,
    name: Seq<u8>,
    other_inode: u32,
    inode_count: int,
    capacity: int,
    other_name: Seq<u8>,
    value: Seq<u8>,
)
    requires
        find_xattr(xs, inode_index, name, 0) is Some,
        0 < other_name.len() <= XATTR_NAME_MAX,
        value.len() <= XATTR_VALUE_MAX,
        other_inode < inode_count,
    ensures
        ({
            let after = xattr_removed(xs, find_xattr(xs, inode_index, name, 0)->0);
            let set = xattr_set(
                after,
                other_inode as int,
                inode_count,
                capacity,
                other_name,
                value,
            );
            set is Ok && set->Ok_0.len() == xs.len()
        }),
{
    let k = find_xattr(xs, inode_index, name, 0)->0;
    let after = xattr_removed(xs, k);
    lemma_find_xattr_sound(xs, inode_index, name, 0);
    lemma_find_xattr_sound(after, other_inode as int, other_name, 0);
    assert(after[k].status == XATTR_STATUS_DELETED);
    lemma_deleted_found(after, 0, k);
    lemma_find_deleted_sound(after, 0);
}

proof fn lemma_deleted_found(xs: Seq<XattrView>, from: int, k: int)
    requires
        0 <= from <= k < xs.len(),
        xs[k].status == XATTR_STATUS_DELETED,
    ensures
        find_deleted(xs, from) is Some,
    decreases k - from,
{
    if from < k {
        lemma_deleted_found(xs, from + 1, k);
    }
}

/// Whether two records are the same attribute of the same inode.
pub open spec fn same_attribute(x: XattrView, y: XattrView) -> bool {
    &&& x.status == XATTR_STATUS_LIVE && y.status == XATTR_STATUS_LIVE
    &&& x.inode_index == y.inode_index
    &&& x.name_len == y.name_len && x.name_len <= XATTR_NAME_MAX
    &&& x.name.take(x.name_len as int) == y.name.take(x.name_len as int)
}

/// Whether no attribute is held by two records.
pub open spec fn held_once(xs: Seq<XattrView>) -> bool {
    forall|i: int, j: int|
        #![trigger xs[i], xs[j]]
        0 <= i < j < xs.len() ==> !same_attribute(xs[i], xs[j])
}

/// Setting an attribute never makes a second record of it. A table without records holds
/// none twice, so one that only the library has filled holds each attribute once.
pub proof fn law_xattr_set_holds_once(
    xs: Seq<XattrView>,
    inode_index: u32,
    inode_count: int,
    capacity: int,
    name: Seq<u8>,
    value: Seq<u8>,
)
    requires
        held_once(xs),
        xattr_set(xs, inode_index as int, inode_count, capacity, name, value) is Ok,
    ensures
        held_once(xattr_set(xs, inode_index as int, inode_count, capacity, name, value)->Ok_0),
        held_once(Seq::<XattrView>::empty()),
{
    let i = inode_index as int;
    let after = xattr_set(xs, i, inode_count, capacity, name, value)->Ok_0;
    lemma_find_xattr_sound(xs, i, name, 0);
    lemma_find_deleted_sound(xs, 0);
    let fresh = live_xattr(i, name, value);
    assert(fresh.name.take(name.len() as int) =~= name);
    match find_xattr(xs, i, name, 0) {
        Some(k) => {
            assert forall|p: int, q: int|
                #![trigger after[p], after[q]]
                0 <= p < q < after.len() implies !same_attribute(after[p], after[q]) by {
                assert(same_attribute(after[p], after[q]) == same_attribute(xs[p], xs[q]));
            }
        },
        None => {
            let k = match find_deleted(xs, 0) {
                Some(k) => k,
                None => xs.len() as int,
            };
            assert(after[k] == fresh);
            assert forall|p: int, q: int|
                #![trigger after[p], after[q]]
                0 <= p < q < after.len() implies !same_attribute(after[p], after[q]) by {
                if p == k {
                    assert(after[q] == xs[q]);
                    assert(!xattr_is(xs[q], i, name));
                } else if q == k {
                    assert(after[p] == xs[p]);
                    assert(!xattr_is(xs[p], i, name));
                } else {
                    assert(after[p] == xs[p] && after[q] == xs[q]);
                }
            }
        },
    }
}

/// Where each attribute is held once, one that was removed is not there any more, and the
/// others are still held once.
pub proof fn law_xattr_removed_is_gone(xs: Seq<XattrView>, inode_index: int, name: Seq<u8>)
    requires
        held_once(xs),
        find_xattr(xs, inode_index, name, 0) is Some,
    ensures
        ({
            let after = xattr_removed(xs, find_xattr(xs, inode_index, name, 0)->0);
            xattr_lookup(after, inode_index, name) is None && held_once(after)
        }),
{
    let k = find_xattr(xs, inode_index, name, 0)->0;
    let after = xattr_removed(xs, k);
    lemma_find_xattr_sound(xs, inode_index, name, 0);
    lemma_find_xattr_sound(after, inode_index, name, 0);
    assert forall|j: int| 0 <= j < after.len() implies !xattr_is(
        #[trigger] after[j],
        inode_index,
        name,
    ) by {
        if j != k && xattr_is(xs[j], inode_index, name) {
            assert(same_attribute(xs[j], xs[k]) && same_attribute(xs[k], xs[j]));
        }
    }
    assert forall|p: int, q: int|
        #![trigger after[p], after[q]]
        0 <= p < q < after.len() implies !same_attribute(after[p], after[q]) by {
        if p != k && q != k {
            assert(after[p] == xs[p] && after[q] == xs[q]);
        }
    }
}

/// An inode whose attributes were all removed has none, the other inodes keep theirs, and
/// attributes that were held once still are.
pub proof fn law_cleared_attributes_are_gone(
    xs: Seq<XattrView>,
    inode_index: int,
    other_inode: int,
    name: Seq<u8>,
)
    ensures
        xattr_lookup(xattrs_cleared(xs, inode_index), inode_index, name) is None,
        other_inode != inode_index ==> xattr_lookup(
            xattrs_cleared(xs, inode_index),
            other_inode,
            name,
        ) == xattr_lookup(xs, other_inode, name),
        held_once(xs) ==> held_once(xattrs_cleared(xs, inode_index)),
{
    let after = xattrs_cleared(xs, inode_index);
    lemma_find_xattr_sound(after, inode_index, name, 0);
    assert forall|j: int| 0 <= j < after.len() implies !xattr_is(
        #[trigger] after[j],
        inode_index,
        name,
    ) by {
    }
    if other_inode != inode_index {
        lemma_find_xattr_sound(xs, other_inode, name, 0);
        lemma_find_xattr_sound(after, other_inode, name, 0);
        assert forall|j: int| 0 <= j < xs.len() implies xattr_is(
            #[trigger] after[j],
            other_inode,
            name,
        ) == xattr_is(xs[j], other_inode, name) by {
        }
        match find_xattr(xs, other_inode, name, 0) {
            Some(k) => {
                assert(xattr_is(after[k], other_inode, name));
                lemma_find_xattr_at(after, other_inode, name, 0, k);
            },
            None => {},
        }
    }
    if held_once(xs) {
        assert forall|p: int, q: int|
            #![trigger after[p], after[q]]
            0 <= p < q < after.len() implies !same_attribute(after[p], after[q]) by {
            assert(!same_attribute(xs[p], xs[q]));
        }
    }
}

} // verus!
