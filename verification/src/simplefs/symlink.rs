//! Following symlinks.
use vstd::prelude::*;
use vstd::string::*;
use vstd::utf8::{decode_utf8, valid_utf8};

use crate::block::{BLOCK_SIZE, BlockDevice};
use crate::bytes::{copy_range, le32, lemma_le32_of_u32_at, write_u32, zero_vec};
use crate::error::{Error, Result};
use crate::order::smaller;
use crate::simplefs::constants::{MAX_INLINE_SYMLINK_LEN, MAX_SYMLINK_DEPTH};
use crate::simplefs::create_file::{inline_target, new_symlink_inode};
use crate::simplefs::lookup::{child_entry, is_here, is_step, is_up, parent_or_root, path_steps, split_path};
use crate::simplefs::names::{is_root, root_path};
use crate::simplefs::state::{SimpleFsState, TreeView};
use crate::simplefs::tree::VolumeGeometry;
use crate::simplefs::types::OnDiskInode;
use crate::simplefs::volume::{cached_read_blocks, volume_read};
use crate::text::{chars_of, from_utf8, join2, join3, last_position, rfind_char, texts};
use crate::vfs::NodeKind;

verus! {

/// The twelve inode bytes that hold a short symlink target.
pub open spec fn packed_target(inode: OnDiskInode) -> Seq<u8> {
    le32(inode.entry_start) + le32(inode.entry_count) + le32(inode.data_block)
}

/// The target of a symlink: in the inode when it owns no block, in its block
/// otherwise.
pub open spec fn symlink_target<D: BlockDevice>(device: D, inode: OnDiskInode) -> core::result::Result<
    Seq<u8>,
    Error,
> {
    if inode.size == 0 {
        Err(Error::InvalidArgument)
    } else if inode.block_count == 0 {
        Ok(packed_target(inode).take(smaller(inode.size as int, MAX_INLINE_SYMLINK_LEN as int)))
    } else {
        match volume_read(device, inode.data_block as int, 512) {
            Ok(b) => Ok(b.take(smaller(inode.size as int, 512))),
            Err(e) => Err(e),
        }
    }
}

/// Components put together with slashes, each with one in front.
pub open spec fn slashed(steps: Seq<Seq<char>>) -> Seq<char>
    decreases steps.len(),
{
    if steps.len() == 0 {
        Seq::empty()
    } else {
        seq!['/'] + steps[0] + slashed(steps.skip(1))
    }
}

/// A walked path without its last component.
pub open spec fn walked_up(walked: Seq<char>) -> Seq<char> {
    let p = last_position(walked, '/');
    if p >= 0 {
        walked.take(p)
    } else {
        walked
    }
}

/// The path that stands for a symlink that was met at `walked` with `rest` still
/// to go: absolute targets stand on their own, others go from the directory that
/// holds the link.
pub open spec fn redirected(target: Seq<char>, walked: Seq<char>, rest: Seq<Seq<char>>) -> Seq<char> {
    if target.len() > 0 && target[0] == '/' {
        target + slashed(rest)
    } else {
        let p = last_position(walked, '/');
        let dir = if p >= 0 {
            walked.take(p)
        } else {
            root_path()
        };
        dir + seq!['/'] + target + slashed(rest)
    }
}

/// Where a walk ends that follows symlinks.
pub open spec fn follow_walk<D: BlockDevice>(
    t: TreeView,
    device: D,
    steps: Seq<Seq<char>>,
    at: int,
    walked: Seq<char>,
    depth: nat,
    cs: bool,
) -> core::result::Result<int, Error>
    decreases 10 - depth, 0int, steps.len(),
{
    if steps.len() == 0 {
        Ok(at)
    } else {
        let rest = steps.skip(1);
        if is_here(steps[0]) {
            follow_walk(t, device, rest, at, walked, depth, cs)
        } else if is_up(steps[0]) {
            follow_walk(t, device, rest, parent_or_root(t, at), walked_up(walked), depth, cs)
        } else {
            match child_entry(t, at, steps[0], cs) {
                Err(e) => Err(e),
                Ok(d) => {
                    let i = t.entries[d].inode_index as int;
                    let there = walked + seq!['/'] + steps[0];
                    if t.inodes[i].kind == NodeKind::Symlink {
                        match symlink_target(device, t.inodes[i]) {
                            Err(e) => Err(e),
                            Ok(target) => if !valid_utf8(target) || depth > MAX_SYMLINK_DEPTH {
                                Err(Error::InvalidArgument)
                            } else {
                                follow(
                                    t,
                                    device,
                                    redirected(decode_utf8(target), there, rest),
                                    depth + 1,
                                    cs,
                                )
                            },
                        }
                    } else {
                        follow_walk(t, device, rest, i, there, depth, cs)
                    }
                },
            }
        }
    }
}

/// The inode a path leads to when symlinks are followed; `depth` were followed
/// already.
pub open spec fn follow<D: BlockDevice>(
    t: TreeView,
    device: D,
    path: Seq<char>,
    depth: nat,
    cs: bool,
) -> core::result::Result<int, Error>
    decreases 10 - depth, 1int, 0nat,
{
    if path.len() == 0 || path == root_path() {
        Ok(0)
    } else if depth > MAX_SYMLINK_DEPTH {
        Err(Error::InvalidArgument)
    } else {
        follow_walk(t, device, path_steps(path), 0, Seq::empty(), depth, cs)
    }
}

/// Reads the target of a symlink.
pub fn read_symlink_target<D: BlockDevice>(device: &D, inode: &OnDiskInode) -> (r: Result<Vec<u8>>)
    ensures
        match r {
            Ok(v) => symlink_target(*device, *inode) == Ok::<Seq<u8>, Error>(v@),
            Err(e) => symlink_target(*device, *inode) == Err::<Seq<u8>, Error>(e),
        },
{
    let len: usize = inode.size as usize;
    if len == 0 {
        return Err(Error::InvalidArgument);
    }
    if inode.block_count == 0 {
        let mut buf = zero_vec(12);
        write_u32(buf.as_mut_slice(), 0, inode.entry_start);
        write_u32(buf.as_mut_slice(), 4, inode.entry_count);
        write_u32(buf.as_mut_slice(), 8, inode.data_block);
        assert(buf@ =~= packed_target(*inode));
        let actual: usize = if len <= MAX_INLINE_SYMLINK_LEN {
            len
        } else {
            MAX_INLINE_SYMLINK_LEN
        };
        assert(buf@.subrange(0, actual as int) =~= packed_target(*inode).take(actual as int));
        Ok(copy_range(buf.as_slice(), 0, actual))
    } else {
        let block = cached_read_blocks(device, inode.data_block as u64, BLOCK_SIZE)?;
        let actual: usize = if len <= BLOCK_SIZE {
            len
        } else {
            BLOCK_SIZE
        };
        assert(block@.subrange(0, actual as int) =~= block@.take(actual as int));
        Ok(copy_range(block.as_slice(), 0, actual))
    }
}

/// The components from `from` on, each with a slash in front.
fn join_rest(steps: &Vec<String>, from: usize) -> (r: String)
    requires
        from <= steps@.len(),
    ensures
        r@ == slashed(texts(steps@).skip(from as int)),
    decreases steps@.len() - from,
{
    let ghost all = texts(steps@);
    if from == steps.len() {
        assert(all.skip(from as int) =~= Seq::empty());
        return String::new();
    }
    let tail = join_rest(steps, from + 1);
    proof {
        reveal_strlit("/");
        let here = all.skip(from as int);
        assert(here[0] == steps@[from as int]@);
        assert(here.skip(1) =~= all.skip(from + 1));
        assert("/"@ =~= seq!['/']);
    }
    join3("/", steps[from].as_str(), tail.as_str())
}

/// A walked path without its last component.
fn walk_up(walked: &String) -> (r: String)
    ensures
        r@ == walked_up(walked@),
{
    let chars = chars_of(walked.as_str());
    match rfind_char(&chars, '/') {
        Some(p) => {
            assert(walked@.subrange(0, p as int) =~= walked@.take(p as int));
            walked.as_str().substring_char(0, p).to_owned()
        },
        None => walked.clone(),
    }
}

/// The path that stands for a symlink.
fn redirect(target: &String, walked: &String, rest: &String) -> (r: String)
    ensures
        forall|steps: Seq<Seq<char>>|
            rest@ == #[trigger] slashed(steps) ==> r@ == redirected(target@, walked@, steps),
{
    let first = target.as_str();
    if first.unicode_len() > 0 && first.get_char(0) == '/' {
        return join2(first, rest.as_str());
    }
    proof {
        reveal_strlit("/");
    }
    assert("/"@ =~= seq!['/']);
    assert("/"@ =~= root_path());
    let chars = chars_of(walked.as_str());
    let dir: String = match rfind_char(&chars, '/') {
        Some(p) => {
            assert(walked@.subrange(0, p as int) =~= walked@.take(p as int));
            walked.as_str().substring_char(0, p).to_owned()
        },
        None => "/".to_owned(),
    };
    let head = join3(dir.as_str(), "/", first);
    join2(head.as_str(), rest.as_str())
}

impl VolumeGeometry {
    /// The inode a path leads to, symlinks followed.
    pub fn resolve_path_locked<D: BlockDevice>(
        &self,
        state: &SimpleFsState,
        device: &D,
        path: &str,
    ) -> (r: Result<usize>)
        ensures
            match r {
                Ok(i) => follow(state.tree(), *device, path@, 0, self.case_sensitive) == Ok::<
                    int,
                    Error,
                >(i as int),
                Err(e) => follow(state.tree(), *device, path@, 0, self.case_sensitive) == Err::<
                    int,
                    Error,
                >(e),
            },
    {
        self.resolve_path_locked_depth(state, device, path, 0)
    }

    /// The inode a path leads to after `depth` symlinks were followed.
    pub fn resolve_path_locked_depth<D: BlockDevice>(
        &self,
        state: &SimpleFsState,
        device: &D,
        path: &str,
        depth: usize,
    ) -> (r: Result<usize>)
        requires
            depth <= MAX_SYMLINK_DEPTH + 1,
        ensures
            match r {
                Ok(i) => follow(state.tree(), *device, path@, depth as nat, self.case_sensitive)
                    == Ok::<int, Error>(i as int),
                Err(e) => follow(state.tree(), *device, path@, depth as nat, self.case_sensitive)
                    == Err::<int, Error>(e),
            },
        decreases MAX_SYMLINK_DEPTH + 1 - depth,
    {
        if path.is_empty() || is_root(path) {
            return Ok(0);
        }
        if depth > MAX_SYMLINK_DEPTH {
            return Err(Error::InvalidArgument);
        }
        let steps = split_path(path);
        let ghost all = texts(steps@);
        let ghost t = state.tree();
        let ghost cs = self.case_sensitive;
        let ghost goal = follow(t, *device, path@, depth as nat, cs);
        let mut current: usize = 0;
        let mut walked: String = String::new();
        let mut k: usize = 0;
        assert(all.skip(0) =~= all);
        while k < steps.len()
            invariant
                k <= steps@.len(),
                all == texts(steps@),
                t == state.tree(),
                cs == self.case_sensitive,
                goal == follow(t, *device, path@, depth as nat, cs),
                depth <= MAX_SYMLINK_DEPTH,
                goal == follow_walk(
                    t,
                    *device,
                    all.skip(k as int),
                    current as int,
                    walked@,
                    depth as nat,
                    cs,
                ),
            decreases steps@.len() - k,
        {
            let segment = steps[k].as_str();
            let ghost rest = all.skip(k + 1);
            proof {
                let here = all.skip(k as int);
                assert(here[0] == segment@);
                assert(here.skip(1) =~= rest);
            }
            if segment.is_empty() || is_step(segment, 1) {
                k = k + 1;
                continue;
            }
            if is_step(segment, 2) {
                current = if current < state.parent_of.len() {
                    match state.parent_of[current] {
                        Some(p) => p,
                        None => 0,
                    }
                } else {
                    0
                };
                walked = walk_up(&walked);
                k = k + 1;
                continue;
            }
            current = self.find_child(state, current, segment)?;
            let slash = join2(walked.as_str(), "/");
            proof {
                reveal_strlit("/");
                assert("/"@ =~= seq!['/']);
            }
            walked = join2(slash.as_str(), segment);
            k = k + 1;
            let inode = state.inodes[current];
            if matches!(inode.kind, NodeKind::Symlink) {
                let target = read_symlink_target(device, &inode)?;
                let text = match from_utf8(target.as_slice()) {
                    Some(text) => text,
                    None => {
                        return Err(Error::InvalidArgument);
                    },
                };
                let suffix = join_rest(&steps, k);
                let resolved = redirect(&text, &walked, &suffix);
                assert(resolved@ == redirected(text@, walked@, rest));
                return self.resolve_path_locked_depth(
                    state,
                    device,
                    resolved.as_str(),
                    depth + 1,
                );
            }
        }
        assert(all.skip(k as int).len() == 0);
        Ok(current)
    }
}

/// A short target that was stored in an inode is read back from it.
pub proof fn law_inline_symlink_round_trip<D: BlockDevice>(
    t: TreeView,
    g: VolumeGeometry,
    parent: int,
    target: Seq<u8>,
    device: D,
)
    requires
        0 < target.len() <= MAX_INLINE_SYMLINK_LEN,
    ensures
        symlink_target(device, new_symlink_inode(t, g, parent, target, 0)) == Ok::<Seq<u8>, Error>(
            target,
        ),
{
    let inode = new_symlink_inode(t, g, parent, target, 0);
    let packed = inline_target(target);
    lemma_le32_of_u32_at(packed, 0);
    lemma_le32_of_u32_at(packed, 4);
    lemma_le32_of_u32_at(packed, 8);
    assert(packed_target(inode) =~= packed.subrange(0, 4) + packed.subrange(4, 8)
        + packed.subrange(8, 12));
    assert(packed_target(inode) =~= packed);
    assert(packed.take(target.len() as int) =~= target);
}

} // verus!
