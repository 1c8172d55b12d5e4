//! What holds of staging directories over several calls.
use vstd::prelude::*;
use vstd::string::*;

use crate::block::BlockDevice;
use crate::error::Error;
use crate::simplefs::clear_laws::{at_depth, law_going_down_stays_out, law_subtree_listing, law_subtree_outside, lemma_parent_is, node_kept, outside, stays_out, under};
use crate::simplefs::create::{create_dir_outcome, lemma_lookup_live};
use crate::simplefs::create_laws::{all_names, law_names_are_plain, law_new_dir_is_found, lemma_find_same_nodes, lemma_lookup_same_nodes};
use crate::simplefs::file_laws::{contents_of, layout_apart, lemma_layout_below, xattrs_before_data};
use crate::simplefs::file_read::file_bytes;
use crate::simplefs::lookup::{child_entry, is_here, is_up, lookup, parent_or_root, plain_lookup};
use crate::simplefs::move_laws::{goes_down, lemma_kid_at};
use crate::simplefs::names::{base_text, name_ok, parent_text, root_path, same_name};
use crate::simplefs::ops::{dir_created, dir_creation};
use crate::simplefs::path_laws::{lemma_last_position, lemma_lookup_is_walk};
use crate::simplefs::remove::lemma_shape_ignores_free;
use crate::simplefs::remove_tree::{live_count, recursive_removal, recursive_removal_outcome, subtree_plan, subtree_removed};
use crate::simplefs::settle::{lemma_layout_swaps, same_nodes};
use crate::simplefs::staging::{dir_names, removed_in_turn, root_registered, staged_names, staged_path, staging_created, turn_taken};
use crate::simplefs::state::TreeView;
use crate::simplefs::superblock::record_valid;
use crate::simplefs::tree::{VolumeGeometry, shape_ok};
use crate::simplefs::tree_laws::listing;
use crate::simplefs::validate::{extent_ok, live_dir, slice_end};
use crate::simplefs::volume::{SimpleFs, rest_committed, slot_differs_only};
use crate::text::{last_position, split_on, trim_end};
use crate::vfs::NodeKind;

verus! {

/// Setting a staging directory up once more succeeds and changes nothing. This is said of
/// paths whose components are names.
pub proof fn law_second_create_changes_nothing<D: BlockDevice>(
    a: SimpleFs<D>,
    b: SimpleFs<D>,
    c: SimpleFs<D>,
    root: Seq<char>,
    r: core::result::Result<(), Error>,
)
    requires
        a.wf(),
        all_names(root),
        staging_created(a, b, root, Ok::<(), Error>(())),
        staging_created(b, c, root, r),
    ensures
        r is Ok,
        c.geometry == b.geometry,
        c.device == b.device,
        c.state.tree() == b.state.tree(),
        c.state.rest() == b.state.rest(),
{
    let t = a.state.tree();
    let g = a.geometry;
    let cs = g.case_sensitive;
    let blocks = (a.device.image().len() / 512) as int;
    law_names_are_plain(t, root, cs);
    law_names_are_plain(b.state.tree(), root, cs);
    if plain_lookup(t, root, cs) is Err {
        let (m, made) = choose|m: SimpleFs<D>, made: core::result::Result<(), Error>|
            #![trigger dir_creation(a, m, root, None, made)]
            dir_creation(a, m, root, None, made) && match made {
                Err(e) => false,
                Ok(()) => root_registered(m, b, root),
            };
        reveal(dir_creation);
        let u = made->Ok_0;
        assert(u == ());
        let parent = create_dir_outcome(t, g, root, None)->Ok_0;
        law_new_dir_is_found(t, g, blocks, root);
        lemma_lookup_same_nodes(
            dir_created(t, g, root, None, parent),
            m.state.tree(),
            root,
            cs,
        );
    }
    let staging = a.state.rest().staging;
    assert(b.state.rest().staging.contains(root)) by {
        if b.state.rest().staging != staging {
            let s = b.state.rest().staging;
            assert(s.contains(root) || s.last() == root);
            if s.last() == root && s.len() > 0 {
                assert(s[s.len() - 1] == root);
            }
        }
    }
    assert(c.state.rest() == b.state.rest());
}

/// The path of an item: it lies in the staging directory under its name.
pub proof fn lemma_staged_path(root: Seq<char>, name: Seq<char>)
    requires
        root.len() > 0,
        name.len() > 0,
        !name.contains('/'),
    ensures
        ({
            let path = staged_path(root, name);
            &&& path != root_path()
            &&& trim_end(path, '/') == path
            &&& parent_text(path) == Some(root)
            &&& base_text(path) == name
        }),
{
    reveal_strlit("/");
    let path = staged_path(root, name);
    let at = root.len() as int;
    assert(path[at] == '/');
    assert forall|i: int| at < i < path.len() implies path[i] != '/' by {
        assert(path[i] == name[i - at - 1]);
        assert(name.contains(name[i - at - 1]));
    }
    assert(path.last() == name.last());
    assert(name.contains(name.last()));
    lemma_last_position(path, '/');
    assert(last_position(path, '/') == at);
    assert(path.take(at) =~= root);
    assert(path.skip(at + 1) =~= name);
    assert(path.len() > 1);
}

/// The names of a directory are those of its entries.
proof fn lemma_names_listed(t: TreeView, i: int)
    requires
        slice_end(t.inodes[i]) <= t.entries.len(),
    ensures
        dir_names(t, i).len() == listing(t, i).len(),
        forall|k: int|
            #![trigger dir_names(t, i)[k]]
            0 <= k < listing(t, i).len() ==> dir_names(t, i)[k] == listing(t, i)[k].name,
{
}

/// An item that was prepared is listed last, after those that were there.
pub proof fn law_prepared_is_listed_last<D: BlockDevice>(
    a: SimpleFs<D>,
    b: SimpleFs<D>,
    root: Seq<char>,
    name: Seq<char>,
)
    requires
        a.wf(),
        root.len() > 0,
        name.len() > 0,
        !name.contains('/'),
        dir_creation(a, b, staged_path(root, name), None, Ok::<(), Error>(())),
    ensures
        staged_names(a, root) is Ok,
        staged_names(b, root) == Ok::<Seq<Seq<char>>, Error>(
            staged_names(a, root)->Ok_0.push(name),
        ),
{
    let t = a.state.tree();
    let g = a.geometry;
    let u = b.state.tree();
    let path = staged_path(root, name);
    let blocks = (a.device.image().len() / 512) as int;
    lemma_staged_path(root, name);
    assert(create_dir_outcome(t, g, path, None) is Ok && b.geometry == g && same_nodes(
        dir_created(t, g, path, None, create_dir_outcome(t, g, path, None)->Ok_0),
        u,
    )) by {
        reveal(dir_creation);
    }
    let parent = create_dir_outcome(t, g, path, None)->Ok_0;
    lemma_listed_last(t, g, blocks, path, u);
    assert(dir_names(u, parent) == dir_names(t, parent).push(name));
}

proof fn lemma_listed_last(
    t: TreeView,
    g: VolumeGeometry,
    blocks: int,
    path: Seq<char>,
    u: TreeView,
)
    requires
        shape_ok(t, g, blocks, None),
        create_dir_outcome(t, g, path, None) is Ok,
        same_nodes(
            dir_created(t, g, path, None, create_dir_outcome(t, g, path, None)->Ok_0),
            u,
        ),
    ensures
        ({
            let parent = create_dir_outcome(t, g, path, None)->Ok_0;
            &&& lookup(t, parent_text(path)->0, g.case_sensitive) == Ok::<int, Error>(parent)
            &&& lookup(u, parent_text(path)->0, g.case_sensitive) == Ok::<int, Error>(parent)
            &&& t.inodes[parent].kind == NodeKind::Directory
            &&& u.inodes[parent].kind == NodeKind::Directory
            &&& dir_names(u, parent) == dir_names(t, parent).push(base_text(path))
        }),
{
    let cs = g.case_sensitive;
    let parent = create_dir_outcome(t, g, path, None)->Ok_0;
    let n = dir_created(t, g, path, None, parent);
    law_new_dir_is_found(t, g, blocks, path);
    lemma_lookup_same_nodes(n, u, parent_text(path)->0, cs);
    assert(slice_end(t.inodes[parent]) <= t.entries.len());
    assert(slice_end(n.inodes[parent]) <= n.entries.len());
    lemma_names_listed(t, parent);
    lemma_names_listed(n, parent);
    assert(dir_names(u, parent) == dir_names(n, parent));
    assert(dir_names(n, parent) =~= dir_names(t, parent).push(base_text(path)));
}

/// Whether a path leads to a directory, and meets nothing below the directory on the way.
pub open spec fn leads_straight<D: BlockDevice>(fs: SimpleFs<D>, root: Seq<char>, p: int) -> bool {
    let t = fs.state.tree();
    let cs = fs.geometry.case_sensitive;
    &&& lookup(t, root, cs) == Ok::<int, Error>(p)
    &&& stays_out(t, split_on(root, '/'), 0, p, cs)
    &&& 0 <= p < t.inodes.len()
    &&& live_dir(t.inodes[p])
}

/// Whether a path leads to a node that is neither a directory nor in it, and meets nothing
/// below the directory on the way.
pub open spec fn leads_past<D: BlockDevice>(
    fs: SimpleFs<D>,
    path: Seq<char>,
    p: int,
    x: int,
) -> bool {
    let t = fs.state.tree();
    let cs = fs.geometry.case_sensitive;
    &&& lookup(t, path, cs) == Ok::<int, Error>(x)
    &&& stays_out(t, split_on(path, '/'), 0, p, cs)
    &&& 0 <= x < t.inodes.len()
    &&& outside(t, x, p)
}

/// A path that goes down only leads straight to the directory it leads to.
pub proof fn law_going_down_leads_straight<D: BlockDevice>(fs: SimpleFs<D>, root: Seq<char>)
    requires
        fs.wf(),
        goes_down(root),
        lookup(fs.state.tree(), root, fs.geometry.case_sensitive) is Ok,
    ensures
        ({
            let p = lookup(fs.state.tree(), root, fs.geometry.case_sensitive)->Ok_0;
            fs.state.tree().inodes[p].kind == NodeKind::Directory ==> leads_straight(fs, root, p)
        }),
{
    let t = fs.state.tree();
    let g = fs.geometry;
    let blocks = (fs.device.image().len() / 512) as int;
    let p = lookup(t, root, g.case_sensitive)->Ok_0;
    lemma_lookup_live(t, g, blocks, root);
    lemma_lookup_is_walk(t, root, g.case_sensitive);
    assert(at_depth(t, 0, 0));
    law_going_down_stays_out(t, g, blocks, split_on(root, '/'), 0, p, 0);
}

/// A path that goes down only, and leads to a node that is not in a directory, leads past it.
pub proof fn law_going_down_leads_past<D: BlockDevice>(fs: SimpleFs<D>, path: Seq<char>, p: int)
    requires
        fs.wf(),
        goes_down(path),
        lookup(fs.state.tree(), path, fs.geometry.case_sensitive) matches Ok(x) && outside(
            fs.state.tree(),
            x,
            p,
        ),
    ensures
        leads_past(
            fs,
            path,
            p,
            lookup(fs.state.tree(), path, fs.geometry.case_sensitive)->Ok_0,
        ),
{
    let t = fs.state.tree();
    let g = fs.geometry;
    let blocks = (fs.device.image().len() / 512) as int;
    lemma_lookup_live(t, g, blocks, path);
    lemma_lookup_is_walk(t, path, g.case_sensitive);
    assert(at_depth(t, 0, 0));
    law_going_down_stays_out(t, g, blocks, split_on(path, '/'), 0, p, 0);
}

/// What giving up the first item is about.
proof fn lemma_first_item<D: BlockDevice>(
    a: SimpleFs<D>,
    b: SimpleFs<D>,
    blocks: int,
    root: Seq<char>,
    p: int,
)
    requires
        shape_ok(a.state.tree(), a.geometry, blocks, None),
        root.len() > 0,
        leads_straight(a, root, p),
        dir_names(a.state.tree(), p).len() > 0,
        recursive_removal_outcome(
            a,
            b,
            staged_path(root, dir_names(a.state.tree(), p)[0]),
            Ok::<(), Error>(()),
        ),
    ensures
        b.geometry == a.geometry,
        b.state.rest() == rest_committed(a.state.rest()),
        slot_differs_only(a.device.image(), b.device.image(), a.state.shadow, a.geometry),
        listing(a.state.tree(), p).len() == dir_names(a.state.tree(), p).len(),
        ({
            let t = a.state.tree();
            let c = listing(t, p)[0].inode_index as int;
            let removed = subtree_removed(t, c, a.state.rest().handles, live_count(t.inodes));
            removed is Ok && same_nodes(removed->Ok_0, b.state.tree())
        }),
{
    let t = a.state.tree();
    let u = b.state.tree();
    let g = a.geometry;
    let cs = g.case_sensitive;
    let name = dir_names(t, p)[0];
    let path = staged_path(root, name);
    assert(slice_end(t.inodes[p]) <= t.entries.len());
    lemma_names_listed(t, p);
    let d = t.inodes[p].entry_start as int;
    assert(listing(t, p)[0] == t.entries[d]);
    lemma_parent_is(t, g, blocks, p, d);
    assert(name_ok(name));
    lemma_staged_path(root, name);
    assert(same_name(name, name, cs));
    lemma_kid_at(t, g, p, name, 0);
    let c = t.entries[d].inode_index as int;
    assert(b.geometry == g && recursive_removal(a, path) is Ok && same_nodes(
        recursive_removal(a, path)->Ok_0,
        u,
    ) && b.state.rest() == rest_committed(a.state.rest()) && slot_differs_only(
        a.device.image(),
        b.device.image(),
        a.state.shadow,
        g,
    )) by {
        reveal(recursive_removal_outcome);
    }
    assert(subtree_plan(t, g, path) == Ok::<int, Error>(c));
}

/// Removing the first item of a directory leaves the others, and the directory.
proof fn lemma_first_item_removed<D: BlockDevice>(
    a: SimpleFs<D>,
    b: SimpleFs<D>,
    blocks: int,
    root: Seq<char>,
    p: int,
)
    requires
        shape_ok(a.state.tree(), a.geometry, blocks, None),
        root.len() > 0,
        leads_straight(a, root, p),
        dir_names(a.state.tree(), p).len() > 0,
        recursive_removal_outcome(
            a,
            b,
            staged_path(root, dir_names(a.state.tree(), p)[0]),
            Ok::<(), Error>(()),
        ),
    ensures
        b.geometry == a.geometry,
        shape_ok(b.state.tree(), b.geometry, blocks, None),
        leads_straight(b, root, p),
        dir_names(b.state.tree(), p) == dir_names(a.state.tree(), p).skip(1),
{
    let t = a.state.tree();
    let u = b.state.tree();
    let g = a.geometry;
    let cs = g.case_sensitive;
    lemma_first_item(a, b, blocks, root, p);
    let handles = a.state.rest().handles;
    let steps = live_count(t.inodes);
    let c = listing(t, p)[0].inode_index as int;
    let n = subtree_removed(t, c, handles, steps)->Ok_0;
    law_subtree_listing(t, g, blocks, c, handles, steps, root, p, 0);
    lemma_shape_ignores_free(n, u, g, blocks, None);
    lemma_lookup_same_nodes(n, u, root, cs);
    lemma_stays_same_nodes(n, u, split_on(root, '/'), 0, p, cs);
    assert(slice_end(t.inodes[p]) <= t.entries.len());
    assert(slice_end(n.inodes[p]) <= n.entries.len());
    lemma_names_listed(t, p);
    lemma_names_listed(n, p);
    assert(dir_names(u, p) == dir_names(n, p));
    assert(dir_names(n, p) =~= dir_names(t, p).skip(1));
}

/// Which nodes lie below a directory does not depend on which blocks are free.
proof fn lemma_under_same_nodes(a: TreeView, b: TreeView, x: int, p: int, n: nat)
    requires
        same_nodes(a, b),
    ensures
        under(b, x, p, n) == under(a, x, p, n),
    decreases n,
{
    if n > 0 {
        lemma_under_same_nodes(a, b, a.parents[x]->0 as int, p, (n - 1) as nat);
    }
}

proof fn lemma_outside_same_nodes(a: TreeView, b: TreeView, x: int, p: int)
    requires
        same_nodes(a, b),
        outside(a, x, p),
    ensures
        outside(b, x, p),
{
    assert forall|n: nat| !#[trigger] under(b, x, p, n) by {
        lemma_under_same_nodes(a, b, x, p, n);
        assert(!under(a, x, p, n));
    }
}

proof fn lemma_stays_same_nodes(
    a: TreeView,
    b: TreeView,
    steps: Seq<Seq<char>>,
    at: int,
    p: int,
    cs: bool,
)
    requires
        same_nodes(a, b),
        stays_out(a, steps, at, p, cs),
    ensures
        stays_out(b, steps, at, p, cs),
    decreases steps.len(),
{
    if at != p {
        lemma_outside_same_nodes(a, b, at, p);
    }
    if steps.len() > 0 {
        let rest = steps.skip(1);
        if is_here(steps[0]) {
            lemma_stays_same_nodes(a, b, rest, at, p, cs);
        } else if is_up(steps[0]) {
            lemma_stays_same_nodes(a, b, rest, parent_or_root(a, at), p, cs);
        } else {
            lemma_find_same_nodes(
                a,
                b,
                a.inodes[at].entry_start as int,
                slice_end(a.inodes[at]),
                steps[0],
                cs,
            );
            match child_entry(a, at, steps[0], cs) {
                Ok(d) => {
                    lemma_stays_same_nodes(
                        a,
                        b,
                        rest,
                        a.entries[d].inode_index as int,
                        p,
                        cs,
                    );
                },
                Err(_) => {},
            }
        }
    }
}

/// Giving all items up leaves the staging directory where it is, with nothing in it; giving
/// all up once more removes nothing. This is said of a path that does not lead through the
/// items themselves.
pub proof fn law_cleanup_empties<D: BlockDevice>(
    a: SimpleFs<D>,
    b: SimpleFs<D>,
    root: Seq<char>,
    names: Seq<Seq<char>>,
    p: int,
)
    requires
        a.wf(),
        root.len() > 0,
        leads_straight(a, root, p),
        staged_names(a, root) == Ok::<Seq<Seq<char>>, Error>(names),
        removed_in_turn(
            a,
            b,
            Seq::new(names.len(), |k: int| staged_path(root, names[k])),
            Ok::<(), Error>(()),
        ),
    ensures
        b.geometry == a.geometry,
        leads_straight(b, root, p),
        staged_names(b, root) == Ok::<Seq<Seq<char>>, Error>(Seq::empty()),
{
    let t = a.state.tree();
    let blocks = (a.device.image().len() / 512) as int;
    let paths = Seq::new(names.len(), |k: int| staged_path(root, names[k]));
    assert(paths.take(names.len() as int) =~= paths);
    lemma_items_removed(a, b, blocks, root, p, names, names.len() as int);
    assert(names.skip(names.len() as int) =~= Seq::empty());
}

proof fn lemma_items_removed<D: BlockDevice>(
    a: SimpleFs<D>,
    b: SimpleFs<D>,
    blocks: int,
    root: Seq<char>,
    p: int,
    names: Seq<Seq<char>>,
    k: int,
)
    requires
        shape_ok(a.state.tree(), a.geometry, blocks, None),
        root.len() > 0,
        leads_straight(a, root, p),
        dir_names(a.state.tree(), p) == names,
        0 <= k <= names.len(),
        removed_in_turn(
            a,
            b,
            Seq::new(names.len(), |k: int| staged_path(root, names[k])).take(k),
            Ok::<(), Error>(()),
        ),
    ensures
        b.geometry == a.geometry,
        shape_ok(b.state.tree(), b.geometry, blocks, None),
        leads_straight(b, root, p),
        dir_names(b.state.tree(), p) == names.skip(k),
    decreases k,
{
    if k == 0 {
        assert(names.skip(0) =~= names);
    } else {
        let m = lemma_turn_before(a, b, root, names, k);
        lemma_items_removed(a, m, blocks, root, p, names, k - 1);
        assert(names.skip(k - 1)[0] == names[k - 1]);
        lemma_first_item_removed(m, b, blocks, root, p);
        assert(names.skip(k - 1).skip(1) =~= names.skip(k));
    }
}

/// The volume before the last of some items was given up.
proof fn lemma_turn_before<D: BlockDevice>(
    a: SimpleFs<D>,
    b: SimpleFs<D>,
    root: Seq<char>,
    names: Seq<Seq<char>>,
    k: int,
) -> (m: SimpleFs<D>)
    requires
        0 < k <= names.len(),
        removed_in_turn(
            a,
            b,
            Seq::new(names.len(), |k: int| staged_path(root, names[k])).take(k),
            Ok::<(), Error>(()),
        ),
    ensures
        removed_in_turn(
            a,
            m,
            Seq::new(names.len(), |k: int| staged_path(root, names[k])).take(k - 1),
            Ok::<(), Error>(()),
        ),
        recursive_removal_outcome(m, b, staged_path(root, names[k - 1]), Ok::<(), Error>(())),
{
    let paths = Seq::new(names.len(), |k: int| staged_path(root, names[k]));
    let done = paths.take(k);
    assert(done.drop_last() =~= paths.take(k - 1));
    let (m, before) = choose|m: SimpleFs<D>, before: core::result::Result<(), Error>|
        #![trigger turn_taken(m, b, done.last(), before, Ok::<(), Error>(()))]
        removed_in_turn(a, m, done.drop_last(), before) && turn_taken(
            m,
            b,
            done.last(),
            before,
            Ok::<(), Error>(()),
        );
    let u = before->Ok_0;
    assert(u == ());
    m
}

/// Whether two devices hold the same in the data area.
pub open spec fn same_data_area<D: BlockDevice>(a: SimpleFs<D>, b: SimpleFs<D>) -> bool {
    &&& a.device.image().len() == b.device.image().len()
    &&& forall|i: int|
        #![trigger b.device.image()[i]]
        a.geometry.data_block_start * 512 <= i < a.device.image().len() ==> b.device.image()[i]
            == a.device.image()[i]
}

/// Giving up the first item leaves what is outside the staging directory.
proof fn lemma_first_item_outside<D: BlockDevice>(
    a: SimpleFs<D>,
    b: SimpleFs<D>,
    blocks: int,
    root: Seq<char>,
    p: int,
    other: Seq<char>,
    x: int,
)
    requires
        shape_ok(a.state.tree(), a.geometry, blocks, None),
        layout_apart(a),
        root.len() > 0,
        leads_straight(a, root, p),
        dir_names(a.state.tree(), p).len() > 0,
        recursive_removal_outcome(
            a,
            b,
            staged_path(root, dir_names(a.state.tree(), p)[0]),
            Ok::<(), Error>(()),
        ),
        leads_past(a, other, p, x),
    ensures
        leads_past(b, other, p, x),
        node_kept(a.state.tree(), b.state.tree(), x),
        layout_apart(b),
        same_data_area(a, b),
{
    let t = a.state.tree();
    let u = b.state.tree();
    let g = a.geometry;
    let cs = g.case_sensitive;
    lemma_first_item(a, b, blocks, root, p);
    let handles = a.state.rest().handles;
    let steps = live_count(t.inodes);
    let c = listing(t, p)[0].inode_index as int;
    let n = subtree_removed(t, c, handles, steps)->Ok_0;
    law_subtree_outside(t, g, blocks, c, handles, steps, root, p, 0, other, x);
    lemma_lookup_same_nodes(n, u, other, cs);
    lemma_stays_same_nodes(n, u, split_on(other, '/'), 0, p, cs);
    lemma_outside_same_nodes(n, u, x, p);
    lemma_layout_swaps(g, t, u, a.state.rest());
    assert forall|i: int|
        #![trigger b.device.image()[i]]
        g.data_block_start * 512 <= i < a.device.image().len() implies b.device.image()[i]
        == a.device.image()[i] by {
        lemma_layout_below(a, i);
    }
}

proof fn lemma_items_outside<D: BlockDevice>(
    a: SimpleFs<D>,
    b: SimpleFs<D>,
    blocks: int,
    root: Seq<char>,
    p: int,
    names: Seq<Seq<char>>,
    k: int,
    other: Seq<char>,
    x: int,
)
    requires
        shape_ok(a.state.tree(), a.geometry, blocks, None),
        layout_apart(a),
        root.len() > 0,
        leads_straight(a, root, p),
        dir_names(a.state.tree(), p) == names,
        0 <= k <= names.len(),
        removed_in_turn(
            a,
            b,
            Seq::new(names.len(), |k: int| staged_path(root, names[k])).take(k),
            Ok::<(), Error>(()),
        ),
        leads_past(a, other, p, x),
    ensures
        b.geometry == a.geometry,
        leads_past(b, other, p, x),
        node_kept(a.state.tree(), b.state.tree(), x),
        layout_apart(b),
        same_data_area(a, b),
    decreases k,
{
    if k > 0 {
        let m = lemma_turn_before(a, b, root, names, k);
        lemma_items_removed(a, m, blocks, root, p, names, k - 1);
        lemma_items_outside(a, m, blocks, root, p, names, k - 1, other, x);
        assert(names.skip(k - 1)[0] == names[k - 1]);
        lemma_first_item(m, b, blocks, root, p);
        lemma_first_item_outside(m, b, blocks, root, p, other, x);
        assert forall|i: int|
            #![trigger b.device.image()[i]]
            a.geometry.data_block_start * 512 <= i < a.device.image().len() implies
            b.device.image()[i] == a.device.image()[i] by {
            assert(m.device.image()[i] == a.device.image()[i]);
        }
    }
}

/// Giving all items up leaves every node outside the staging directory as it was, under its
/// path and with its contents. This is said of paths that do not lead through the items.
pub proof fn law_cleanup_keeps_the_rest<D: BlockDevice>(
    a: SimpleFs<D>,
    b: SimpleFs<D>,
    root: Seq<char>,
    names: Seq<Seq<char>>,
    p: int,
    other: Seq<char>,
    x: int,
)
    requires
        a.wf(),
        xattrs_before_data(a),
        root.len() > 0,
        leads_straight(a, root, p),
        staged_names(a, root) == Ok::<Seq<Seq<char>>, Error>(names),
        removed_in_turn(
            a,
            b,
            Seq::new(names.len(), |k: int| staged_path(root, names[k])),
            Ok::<(), Error>(()),
        ),
        leads_past(a, other, p, x),
    ensures
        leads_past(b, other, p, x),
        node_kept(a.state.tree(), b.state.tree(), x),
        same_data_area(a, b),
        a.state.tree().inodes[x].kind == NodeKind::File ==> contents_of(b, x) == contents_of(a, x),
{
    let t = a.state.tree();
    let blocks = (a.device.image().len() / 512) as int;
    let paths = Seq::new(names.len(), |k: int| staged_path(root, names[k]));
    assert(paths.take(names.len() as int) =~= paths);
    assert(layout_apart(a)) by {
        assert(record_valid(a.geometry.record_of(t, a.state.rest())));
    }
    lemma_items_outside(a, b, blocks, root, p, names, names.len() as int, other, x);
    let inode = t.inodes[x];
    if inode.kind == NodeKind::File && inode.size > 0 {
        lemma_lookup_live(t, a.geometry, blocks, other);
        assert(extent_ok(inode, a.geometry.data_block_start as int, blocks));
        assert(file_bytes(b.device.image(), inode) =~= file_bytes(a.device.image(), inode));
    }
}

} // verus!
