//! What an operation on a file leaves alone, and how links and bytes are counted.
use vstd::prelude::*;

use crate::error::Error;
use crate::path::{canonical, canonical_part, lemma_segments_of_rooted, rooted};
use crate::tmpfs::create::fresh_node;
use crate::tmpfs::file::{after_read, after_set_len, after_write};
use crate::tmpfs::laws::{lemma_named_unique, lemma_walk_last};
use crate::tmpfs::link::{link_lost, recounted};
use crate::tmpfs::lists::{AttrList, EntryList, attr_pos, attr_value, lemma_attr_pos, lemma_name_at, names_in_order, without_attr};
use crate::tmpfs::state::{DataView, InodeNode, Nodes, ROOT_INO, TmpFsInner, node_at, tmp_resolved};
use crate::tmpfs::volume::{kind_of_data, node_security, size_of_data};
use crate::vfs::NodeKind;

verus! {

/// A write changes the bytes of its own file and the two times, and nothing else of it; every
/// other node stays as it is.
pub proof fn law_write_changes_its_file_alone(
    s: TmpFsInner,
    kind: NodeKind,
    ino: u64,
    offset: int,
    b: Seq<u8>,
    now: u64,
    other: u64,
)
    requires
        after_write(s, kind, ino, offset, b, now) is Ok,
        other != ino,
    ensures
        ({
            let after = after_write(s, kind, ino, offset, b, now)->Ok_0;
            let x = node_at(s.nodes(), ino)->0;
            let y = node_at(after, ino)->0;
            &&& node_at(after, other) == node_at(s.nodes(), other)
            &&& node_at(s.nodes(), ino) is Some && node_at(after, ino) is Some
            &&& y.nlink == x.nlink && y.uid == x.uid && y.gid == x.gid && y.mode == x.mode
            &&& y.created == x.created && y.xattrs == x.xattrs
            &&& y.modified == now && y.accessed == now
        }),
{
}

/// A cut changes the bytes of its own file and the time of change, and nothing else.
pub proof fn law_cut_changes_its_file_alone(
    s: TmpFsInner,
    kind: NodeKind,
    ino: u64,
    len: int,
    now: u64,
    other: u64,
)
    requires
        after_set_len(s, kind, ino, len, now) is Ok,
        other != ino,
    ensures
        ({
            let after = after_set_len(s, kind, ino, len, now)->Ok_0;
            let x = node_at(s.nodes(), ino)->0;
            let y = node_at(after, ino)->0;
            &&& node_at(after, other) == node_at(s.nodes(), other)
            &&& y.nlink == x.nlink && y.uid == x.uid && y.gid == x.gid && y.mode == x.mode
            &&& y.created == x.created && y.accessed == x.accessed && y.xattrs == x.xattrs
            &&& y.modified == now
        }),
{
}

/// A read changes nothing but the time of access of its own file.
pub proof fn law_read_changes_the_access_time_alone(
    nodes: Nodes,
    kind: NodeKind,
    ino: u64,
    offset: int,
    now: u64,
    other: u64,
)
    requires
        after_read(nodes, kind, ino, offset, now) is Ok,
        other != ino,
    ensures
        ({
            let after = after_read(nodes, kind, ino, offset, now)->Ok_0;
            let x = node_at(nodes, ino)->0;
            let y = node_at(after, ino)->0;
            &&& node_at(after, other) == node_at(nodes, other)
            &&& y.data == x.data && y.nlink == x.nlink && y.uid == x.uid && y.gid == x.gid
            &&& y.mode == x.mode && y.created == x.created && y.modified == x.modified
            &&& y.xattrs == x.xattrs
            &&& y.accessed == now || y.accessed == x.accessed
        }),
{
}

/// A write that would take the bytes of all files over the quota is refused, and one that
/// stays within it is not.
pub proof fn law_quota_holds(
    s: TmpFsInner,
    ino: u64,
    offset: int,
    b: Seq<u8>,
    now: u64,
    node: InodeNode,
    held: Seq<u8>,
)
    requires
        node_at(s.nodes(), ino) == Some(node),
        node.data == DataView::File(held),
        offset >= 0,
        s.max_size > 0,
        held.len() <= s.used_size <= s.max_size,
    ensures
        ({
            let end = offset + b.len();
            let grown = if end > held.len() {
                end - held.len()
            } else {
                0
            };
            let r = after_write(s, NodeKind::File, ino, offset, b, now);
            &&& s.used_size + grown > s.max_size ==> r == Err::<Nodes, Error>(Error::OutOfMemory)
            &&& s.used_size + grown <= s.max_size ==> r is Ok
        }),
{
}

/// A node with several links keeps its contents when it loses one and has one less then; with
/// its last link it is gone. No other node changes.
pub proof fn law_links_are_counted(nodes: Nodes, ino: u64, node: InodeNode, other: u64)
    requires
        node_at(nodes, ino) == Some(node),
        other != ino,
    ensures
        node_at(link_lost(nodes, ino), other) == node_at(nodes, other),
        node.nlink <= 1 ==> node_at(link_lost(nodes, ino), ino) is None,
        node.nlink > 1 ==> (node_at(link_lost(nodes, ino), ino) matches Some(n) && n.nlink
            == node.nlink - 1 && n.data == node.data && n.mode == node.mode && n.uid == node.uid
            && n.gid == node.gid && n.xattrs == node.xattrs),
        node.nlink < 0xFFFF_FFFF ==> (node_at(recounted(nodes, ino, true), ino) matches Some(n)
            && n.nlink == node.nlink + 1 && n.data == node.data),
{
}

/// A new node has one link, the owner and the group of the volume, the mode that was asked for,
/// the present as all its times, and no attributes.
pub proof fn law_new_node(data: DataView, s: TmpFsInner, mode: u16, now: u64)
    ensures
        ({
            let n = fresh_node(data, s, mode, now);
            &&& n.data == data && n.nlink == 1 && n.mode == mode
            &&& n.uid == s.default_uid && n.gid == s.default_gid
            &&& n.created == now && n.modified == now && n.accessed == now
            &&& n.xattrs.len() == 0
        }),
{
}

/// A node shows its kind, the length of its bytes where it is a file, and its own rights.
pub proof fn law_node_shows_itself(n: InodeNode)
    ensures
        n.data matches DataView::File(b) ==> kind_of_data(n.data) == NodeKind::File && size_of_data(
            n.data,
        ) == b.len(),
        n.data is Directory ==> kind_of_data(n.data) == NodeKind::Directory && size_of_data(n.data)
            == 0,
        n.data is Symlink ==> kind_of_data(n.data) == NodeKind::Symlink && size_of_data(n.data)
            == 0,
        node_security(n).owner_uid == n.uid && node_security(n).owner_gid == n.gid && node_security(
            n,
        ).mode == n.mode,
{
}

proof fn lemma_attr_removed(list: AttrList, k: int, other: Seq<u8>, i: int)
    requires
        0 <= k < list.len(),
        list[k].0 != other,
        0 <= i < list.len(),
    ensures
        attr_pos(list.remove(k), other, i) == match attr_pos(
            list,
            other,
            if i < k {
                i
            } else {
                i + 1
            },
        ) {
            Some(j) => Some(
                if j < k {
                    j
                } else {
                    j - 1
                },
            ),
            None => None,
        },
    decreases list.len() - i,
{
    let less = list.remove(k);
    if i < less.len() {
        if i < k {
            assert(less[i] == list[i]);
            if list[i].0 != other {
                lemma_attr_removed(list, k, other, i + 1);
                if i + 1 == k {
                    assert(attr_pos(list, other, k) == attr_pos(list, other, k + 1));
                }
            }
        } else {
            assert(less[i] == list[i + 1]);
            if list[i + 1].0 != other && i + 1 < less.len() {
                lemma_attr_removed(list, k, other, i + 1);
            }
        }
    }
}

/// Removing an attribute leaves the value of every other one.
pub proof fn law_other_attributes_stay(list: AttrList, name: Seq<u8>, other: Seq<u8>)
    requires
        other != name,
    ensures
        attr_value(without_attr(list, name), other) == attr_value(list, other),
{
    lemma_attr_pos(list, name, 0);
    lemma_attr_pos(list, other, 0);
    if let Some(k) = attr_pos(list, name, 0) {
        lemma_attr_removed(list, k, other, 0);
        let less = list.remove(k);
        if k == 0 {
            assert(attr_pos(list, other, 0) == attr_pos(list, other, 1));
        }
        if let Some(j) = attr_pos(list, other, 0) {
            if j < k {
                assert(less[j] == list[j]);
            } else {
                assert(less[j - 1] == list[j]);
            }
        }
    }
}

/// A path one longer leads to the node of the entry of that name in the directory that the
/// shorter one leads to, and nowhere where there is none. A slash leads to the root.
pub proof fn law_longer_path_leads_to_the_entry(
    nodes: Nodes,
    parts: Seq<Seq<char>>,
    name: Seq<char>,
    there: u64,
    n: InodeNode,
    list: EntryList,
    k: int,
)
    requires
        canonical(parts),
        canonical_part(name),
        tmp_resolved(nodes, rooted(parts)) == Ok::<u64, Error>(there),
        node_at(nodes, there) == Some(n),
        n.data == DataView::Directory(list),
        names_in_order(list),
        0 <= k < list.len(),
    ensures
        tmp_resolved(nodes, seq!['/']) == Ok::<u64, Error>(ROOT_INO),
        list[k].0 == name ==> tmp_resolved(nodes, rooted(parts.push(name))) == Ok::<u64, Error>(
            list[k].1,
        ),
        (forall|j: int| #![trigger list[j]] 0 <= j < list.len() ==> list[j].0 != name)
            ==> tmp_resolved(nodes, rooted(parts.push(name))) == Err::<u64, Error>(Error::NotFound),
{
    let all = parts.push(name);
    assert forall|i: int| #![trigger all[i]] 0 <= i < all.len() implies canonical_part(all[i]) by {
        if i < parts.len() {
            assert(all[i] == parts[i]);
        }
    }
    lemma_segments_of_rooted(parts);
    lemma_segments_of_rooted(all);
    let none = Seq::<Seq<char>>::empty();
    lemma_segments_of_rooted(none);
    assert(all.drop_last() =~= parts);
    assert(all.last() == name);
    lemma_walk_last(nodes, ROOT_INO, all, 0);
    lemma_name_at(list, name, 0);
    if list[k].0 == name {
        lemma_named_unique(list, k);
    }
}

} // verus!
