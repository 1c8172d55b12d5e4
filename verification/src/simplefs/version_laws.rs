//! What holds of publishing with a backup.
use vstd::prelude::*;
use vstd::string::*;

use crate::error::Error;
use crate::simplefs::clear_laws::{at_depth, lemma_depth_unique, lemma_walk_depth, node_kept};
use crate::simplefs::lookup::{is_here, is_up, lookup, plain_lookup};
use crate::simplefs::move_laws::{goes_down, kid, law_rename_listing, lemma_plan, lemma_renamed_keeps, lemma_renamed_kid, lemma_renamed_lookup, lemma_renamed_shape};
use crate::simplefs::names::{base_text, name_ok, parent_text};
use crate::simplefs::ops::below_root;
use crate::simplefs::path_laws::{lemma_last_position, lemma_lookup_is_walk, lemma_lookup_parent, lemma_walk_one};
use crate::simplefs::rename::{parent_dir, rename_tree};
use crate::simplefs::rollback_laws::{lemma_home_kept, lemma_step_down};
use crate::simplefs::staging::{backup_of, publish_tree};
use crate::simplefs::state::TreeView;
use crate::simplefs::tree::{VolumeGeometry, shape_ok};
use crate::simplefs::validate::live_dir;
use crate::text::{last_position, split_on, trim_end};

verus! {

/// Whether a path ends in a name and its parent goes down only.
pub open spec fn ends_in_name(path: Seq<char>) -> bool {
    &&& below_root(path)
    &&& trim_end(path, '/') == path
    &&& !is_here(base_text(path))
    &&& !is_up(base_text(path))
    &&& goes_down(parent_text(path)->0)
}

/// A target and its backup lie in one directory.
pub proof fn lemma_backup_path(target: Seq<char>)
    requires
        below_root(target),
        trim_end(target, '/') == target,
    ensures
        ({
            let backup = backup_of(target);
            &&& below_root(backup)
            &&& trim_end(backup, '/') == backup
            &&& parent_text(backup) == parent_text(target)
            &&& base_text(backup) == base_text(target) + ".bak"@
            &&& !is_here(base_text(backup))
            &&& !is_up(base_text(backup))
        }),
{
    reveal_strlit(".bak");
    let backup = backup_of(target);
    let p = last_position(target, '/');
    lemma_last_position(target, '/');
    lemma_last_position(backup, '/');
    assert(backup.len() == target.len() + 4);
    assert(backup.last() == 'k');
    assert(last_position(backup, '/') == p) by {
        let q = last_position(backup, '/');
        if q > p {
            if q < target.len() {
                assert(backup[q] == target[q]);
            } else {
                assert(backup[q] == ".bak"@[q - target.len()]);
            }
        } else if q < p {
            assert(backup[p] == target[p]);
        }
    }
    assert(backup.take(p) =~= target.take(p) || p <= 0);
    assert(backup.skip(p + 1) =~= target.skip(p + 1) + ".bak"@);
    assert(base_text(backup).len() >= 4);
}

/// A node other than the two directories of a rename is as it was.
pub proof fn lemma_renamed_node(
    t: TreeView,
    g: VolumeGeometry,
    blocks: int,
    old_path: Seq<char>,
    new_path: Seq<char>,
    x: int,
)
    requires
        shape_ok(t, g, blocks, None),
        rename_tree(t, g, old_path, new_path) is Ok,
        0 <= x < t.inodes.len(),
        parent_dir(t, g, old_path) != parent_dir(t, g, new_path) ==> parent_dir(t, g, old_path)
            != Ok::<int, Error>(x),
        parent_dir(t, g, new_path) != Ok::<int, Error>(x),
    ensures
        node_kept(t, rename_tree(t, g, old_path, new_path)->Ok_0, x),
{
    lemma_plan(t, g, blocks, old_path, new_path);
    if live_dir(t.inodes[x]) {
        law_rename_listing(t, g, blocks, old_path, new_path, x);
    }
}

/// Publishing with a backup puts the item where the target was, and the target under the
/// backup's name; the path of the directory that holds both leads there still.
pub proof fn lemma_published(
    t: TreeView,
    g: VolumeGeometry,
    blocks: int,
    staged: Seq<char>,
    target: Seq<char>,
)
    requires
        shape_ok(t, g, blocks, None),
        ends_in_name(staged),
        goes_down(staged),
        ends_in_name(target),
        plain_lookup(t, target, g.case_sensitive) is Ok,
        publish_tree(t, g, staged, target) is Ok,
        lookup(t, target, g.case_sensitive) is Ok,
        lookup(t, staged, g.case_sensitive) is Ok,
        lookup(t, staged, g.case_sensitive) != lookup(t, target, g.case_sensitive),
    ensures
        ({
            let n = publish_tree(t, g, staged, target)->Ok_0;
            let cs = g.case_sensitive;
            let home = parent_dir(t, g, target)->Ok_0;
            let former = lookup(t, target, cs)->Ok_0;
            &&& shape_ok(n, g, blocks, None)
            &&& parent_dir(t, g, target) is Ok
            &&& 0 <= home
            &&& name_ok(base_text(target))
            &&& name_ok(base_text(backup_of(target)))
            &&& kid(n, home, base_text(target), cs) == Some(lookup(t, staged, cs)->Ok_0)
            &&& kid(n, home, base_text(backup_of(target)), cs) == Some(former)
            &&& parent_dir(n, g, target) == Ok::<int, Error>(home)
            &&& parent_dir(t, g, staged) != Ok::<int, Error>(former) ==> node_kept(t, n, former)
        }),
{
    let cs = g.case_sensitive;
    let backup = backup_of(target);
    let m = rename_tree(t, g, target, backup)->Ok_0;
    let n = rename_tree(m, g, staged, target)->Ok_0;
    lemma_backup_path(target);
    lemma_plan(t, g, blocks, target, backup);
    lemma_renamed_shape(t, g, blocks, target, backup);
    lemma_renamed_kid(t, g, blocks, target, backup);
    let home = parent_dir(t, g, target)->Ok_0;
    lemma_lookup_parent(t, target, cs);
    lemma_walk_one(t, base_text(target), home, cs);
    lemma_plan(m, g, blocks, staged, target);
    lemma_renamed_shape(m, g, blocks, staged, target);
    lemma_renamed_kid(m, g, blocks, staged, target);
    lemma_home_kept(t, g, blocks, target, backup);
    let from = parent_dir(m, g, staged)->Ok_0;
    lemma_lookup_parent(m, staged, cs);
    lemma_lookup_parent(t, staged, cs);
    lemma_walk_one(m, base_text(staged), from, cs);
    lemma_renamed_lookup(t, g, blocks, target, backup, staged);
    lemma_renamed_lookup(t, g, blocks, target, backup, parent_text(staged)->0);
    lemma_renamed_keeps(m, g, blocks, staged, target, home, base_text(backup));
    lemma_home_kept(m, g, blocks, staged, target);
    let former = lookup(t, target, cs)->Ok_0;
    if parent_dir(t, g, staged) != Ok::<int, Error>(former) {
        lemma_former_kept(t, g, blocks, staged, target);
    }
}

proof fn lemma_former_kept(
    t: TreeView,
    g: VolumeGeometry,
    blocks: int,
    staged: Seq<char>,
    target: Seq<char>,
)
    requires
        shape_ok(t, g, blocks, None),
        ends_in_name(target),
        rename_tree(t, g, target, backup_of(target)) is Ok,
        rename_tree(rename_tree(t, g, target, backup_of(target))->Ok_0, g, staged, target) is Ok,
        lookup(t, target, g.case_sensitive) is Ok,
        parent_dir(t, g, staged) != lookup(t, target, g.case_sensitive),
        parent_dir(rename_tree(t, g, target, backup_of(target))->Ok_0, g, staged) == parent_dir(
            t,
            g,
            staged,
        ),
    ensures
        node_kept(
            t,
            rename_tree(
                rename_tree(t, g, target, backup_of(target))->Ok_0,
                g,
                staged,
                target,
            )->Ok_0,
            lookup(t, target, g.case_sensitive)->Ok_0,
        ),
{
    let cs = g.case_sensitive;
    let backup = backup_of(target);
    let former = lookup(t, target, cs)->Ok_0;
    lemma_backup_path(target);
    lemma_plan(t, g, blocks, target, backup);
    let m = rename_tree(t, g, target, backup)->Ok_0;
    let home = parent_dir(t, g, target)->Ok_0;
    let hp = parent_text(target)->0;
    lemma_lookup_parent(t, target, cs);
    lemma_walk_one(t, base_text(target), home, cs);
    lemma_lookup_is_walk(t, hp, cs);
    assert(at_depth(t, 0, 0));
    let deep = lemma_walk_depth(t, g, blocks, split_on(hp, '/'), 0, 0);
    let x = lemma_step_down(t, g, blocks, home, base_text(target), deep);
    assert(x == former);
    if former == home {
        lemma_depth_unique(t, home, deep, deep + 1);
    }
    lemma_renamed_shape(t, g, blocks, target, backup);
    lemma_home_kept(t, g, blocks, target, backup);
    lemma_renamed_node(t, g, blocks, target, backup, former);
    lemma_renamed_node(m, g, blocks, staged, target, former);
}

} // verus!
