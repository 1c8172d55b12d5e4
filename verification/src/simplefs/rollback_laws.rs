//! Going back after publishing succeeds, and restores what was there.
use vstd::prelude::*;
use vstd::string::*;
use vstd::utf8::*;

use crate::block::BlockDevice;
use crate::error::Error;
use crate::simplefs::clear_laws::{at_depth, lemma_depth_unique, lemma_no_ups_rest, lemma_parent_is, lemma_walk_depth, lemma_walk_under, no_ups, node_kept, under};
use crate::simplefs::create::lemma_lookup_live;
use crate::simplefs::create_laws::{all_names, law_names_are_plain, lemma_find_same_nodes, lemma_lookup_same_nodes};
use crate::simplefs::file_laws::{contents_of, layout_apart, lemma_layout_below, xattrs_before_data};
use crate::simplefs::file_read::file_bytes;
use crate::simplefs::lookup::{child_entry, is_here, lemma_find_entry_sound, lies_under, lookup, walk};
use crate::simplefs::mount::law_sound_tree_is_mountable;
use crate::simplefs::move_laws::{goes_down, kid, lemma_kid_at, lemma_kid_listed, lemma_plan, lemma_renamed_away, lemma_renamed_keeps, lemma_renamed_kid, lemma_renamed_shape, lemma_swap_path};
use crate::simplefs::names::{base_text, name_ok, parent_text, same_name};
use crate::simplefs::ops::{swap_allowed, swap_name, swap_outcome, swap_path, swap_tree};
use crate::simplefs::path_laws::{lemma_lookup_is_walk, lemma_lookup_parent, lemma_walk_one};
use crate::simplefs::reach::{all_reached, leads_to, reached, reached_within};
use crate::simplefs::remove::lemma_shape_ignores_free;
use crate::simplefs::rename::{after_relabel, parent_dir, rename_tree};
use crate::simplefs::settle::{commit_owed, lemma_layout_swaps, same_nodes, settled, tree_valid};
use crate::simplefs::staging::{backup_of, publish_tree, published_with_backup};
use crate::simplefs::staging_laws::same_data_area;
use crate::simplefs::state::TreeView;
use crate::simplefs::superblock::record_valid;
use crate::simplefs::tree::{VolumeGeometry, shape_ok};
use crate::simplefs::tree_laws::listing;
use crate::simplefs::types::{DirEntryView, OnDiskInode};
use crate::simplefs::validate::{extent_ok, live_dir, metadata_valid, slice_end};
use crate::simplefs::version_laws::{ends_in_name, lemma_backup_path, lemma_published, lemma_renamed_node};
use crate::simplefs::volume::SimpleFs;
use crate::text::{decimal, lemma_decimal_digits, split_on};
use crate::vfs::NodeKind;

verus! {

/// Whether a walk down never meets a node once it has started.
pub open spec fn avoids(
    t: TreeView,
    steps: Seq<Seq<char>>,
    at: int,
    s: int,
    case_sensitive: bool,
) -> bool
    decreases steps.len(),
{
    steps.len() > 0 ==> {
        let rest = steps.skip(1);
        if is_here(steps[0]) {
            avoids(t, rest, at, s, case_sensitive)
        } else {
            match kid(t, at, steps[0], case_sensitive) {
                Some(x) => x != s && avoids(t, rest, x, s, case_sensitive),
                None => true,
            }
        }
    }
}

/// A rename leaves every walk down that does not meet the node that moves.
proof fn lemma_renamed_keeps_walk(
    t: TreeView,
    g: VolumeGeometry,
    blocks: int,
    old_path: Seq<char>,
    new_path: Seq<char>,
    steps: Seq<Seq<char>>,
    at: int,
    s: int,
)
    requires
        shape_ok(t, g, blocks, None),
        rename_tree(t, g, old_path, new_path) is Ok,
        no_ups(steps),
        0 <= at,
        walk(t, steps, at, g.case_sensitive) is Ok,
        kid(
            t,
            parent_dir(t, g, old_path)->Ok_0,
            base_text(old_path),
            g.case_sensitive,
        ) == Some(s),
        avoids(t, steps, at, s, g.case_sensitive),
    ensures
        walk(rename_tree(t, g, old_path, new_path)->Ok_0, steps, at, g.case_sensitive) == walk(
            t,
            steps,
            at,
            g.case_sensitive,
        ),
    decreases steps.len(),
{
    if steps.len() > 0 {
        let rest = steps.skip(1);
        lemma_no_ups_rest(steps);
        if is_here(steps[0]) {
            lemma_renamed_keeps_walk(t, g, blocks, old_path, new_path, rest, at, s);
        } else {
            let x = kid(t, at, steps[0], g.case_sensitive)->Some_0;
            lemma_renamed_keeps(t, g, blocks, old_path, new_path, at, steps[0]);
            lemma_renamed_keeps_walk(t, g, blocks, old_path, new_path, rest, x, s);
        }
    }
}

/// What a walk down to a node meets lies no deeper than the node, so it does not meet a node
/// that lies deeper.
proof fn lemma_avoids_deeper(
    t: TreeView,
    g: VolumeGeometry,
    blocks: int,
    steps: Seq<Seq<char>>,
    at: int,
    n: nat,
    s: int,
    k: nat,
    m: nat,
)
    requires
        shape_ok(t, g, blocks, None),
        no_ups(steps),
        0 <= at,
        at_depth(t, at, n),
        walk(t, steps, at, g.case_sensitive) matches Ok(q) && at_depth(t, q, m),
        at_depth(t, s, k),
        m < k,
    ensures
        avoids(t, steps, at, s, g.case_sensitive),
    decreases steps.len(),
{
    if steps.len() > 0 {
        let rest = steps.skip(1);
        let cs = g.case_sensitive;
        lemma_no_ups_rest(steps);
        if is_here(steps[0]) {
            lemma_avoids_deeper(t, g, blocks, rest, at, n, s, k, m);
        } else {
            let x = lemma_step_down(t, g, blocks, at, steps[0], n);
            let q = walk(t, steps, at, cs)->Ok_0;
            let i = lemma_walk_depth(t, g, blocks, rest, x, n + 1);
            lemma_depth_unique(t, q, i, m);
            if x == s {
                lemma_depth_unique(t, s, n + 1, k);
            }
            lemma_avoids_deeper(t, g, blocks, rest, x, n + 1, s, k, m);
        }
    }
}

/// A name of a directory leads one deeper.
pub proof fn lemma_step_down(
    t: TreeView,
    g: VolumeGeometry,
    blocks: int,
    at: int,
    name: Seq<char>,
    n: nat,
) -> (x: int)
    requires
        shape_ok(t, g, blocks, None),
        0 <= at,
        at_depth(t, at, n),
        kid(t, at, name, g.case_sensitive) is Some,
    ensures
        kid(t, at, name, g.case_sensitive) == Some(x),
        0 < x < t.inodes.len(),
        at_depth(t, x, n + 1),
        t.parents.len() == t.inodes.len(),
        t.parents[x] == Some(at as usize),
        at < t.inodes.len(),
{
    let cs = g.case_sensitive;
    let d = child_entry(t, at, name, cs)->Ok_0;
    lemma_find_entry_sound(
        t,
        t.inodes[at].entry_start as int,
        slice_end(t.inodes[at]),
        name,
        cs,
    );
    lemma_parent_is(t, g, blocks, at, d);
    let x = t.entries[d].inode_index as int;
    assert(at_depth(t, x, n + 1));
    x
}

/// What lies below a node is not said to lie elsewhere.
proof fn lemma_under_is_found(t: TreeView, q: int, s: int, n: nat, fuel: nat)
    requires
        under(t, q, s, n),
    ensures
        lies_under(t, q, s, fuel) != Ok::<bool, Error>(false),
    decreases n,
{
    if q != s && fuel > 0 {
        lemma_under_is_found(t, t.parents[q]->0 as int, s, (n - 1) as nat, (fuel - 1) as nat);
    }
}

/// From a node that is no directory a walk down leads nowhere else.
proof fn lemma_walk_from_file(t: TreeView, steps: Seq<Seq<char>>, at: int, cs: bool)
    requires
        no_ups(steps),
        0 <= at < t.inodes.len(),
        !live_dir(t.inodes[at]),
        walk(t, steps, at, cs) is Ok,
    ensures
        walk(t, steps, at, cs)->Ok_0 == at,
    decreases steps.len(),
{
    if steps.len() > 0 {
        lemma_no_ups_rest(steps);
        if is_here(steps[0]) {
            lemma_walk_from_file(t, steps.skip(1), at, cs);
        }
    }
}

/// A walk down to a directory does not meet a node that the directory does not lie below.
proof fn lemma_avoids_other(
    t: TreeView,
    g: VolumeGeometry,
    blocks: int,
    steps: Seq<Seq<char>>,
    at: int,
    n: nat,
    s: int,
    q: int,
)
    requires
        shape_ok(t, g, blocks, None),
        no_ups(steps),
        0 <= at,
        at_depth(t, at, n),
        walk(t, steps, at, g.case_sensitive) == Ok::<int, Error>(q),
        0 <= q < t.inodes.len(),
        live_dir(t.inodes[q]),
        0 <= s < t.inodes.len(),
        !t.inodes[s].deleted,
        t.inodes[s].kind == NodeKind::Directory ==> lies_under(t, q, s, t.parents.len()) == Ok::<
            bool,
            Error,
        >(false),
    ensures
        avoids(t, steps, at, s, g.case_sensitive),
    decreases steps.len(),
{
    if steps.len() > 0 {
        let rest = steps.skip(1);
        let cs = g.case_sensitive;
        lemma_no_ups_rest(steps);
        if is_here(steps[0]) {
            lemma_avoids_other(t, g, blocks, rest, at, n, s, q);
        } else {
            let x = lemma_step_down(t, g, blocks, at, steps[0], n);
            if x == s {
                if t.inodes[s].kind == NodeKind::Directory {
                    assert(under(t, s, s, 0));
                    let k = lemma_walk_under(t, g, blocks, rest, s, s, 0);
                    lemma_under_is_found(t, q, s, k, t.parents.len());
                } else {
                    lemma_walk_from_file(t, rest, s, cs);
                }
            }
            lemma_avoids_other(t, g, blocks, rest, x, n + 1, s, q);
        }
    }
}

/// After a rename a path that goes down leads to the new directory as before.
pub proof fn lemma_home_kept(
    t: TreeView,
    g: VolumeGeometry,
    blocks: int,
    old_path: Seq<char>,
    new_path: Seq<char>,
)
    requires
        shape_ok(t, g, blocks, None),
        rename_tree(t, g, old_path, new_path) is Ok,
        goes_down(parent_text(new_path)->0),
    ensures
        parent_dir(t, g, new_path) is Ok,
        parent_dir(rename_tree(t, g, old_path, new_path)->Ok_0, g, new_path) == parent_dir(
            t,
            g,
            new_path,
        ),
{
    let cs = g.case_sensitive;
    lemma_plan(t, g, blocks, old_path, new_path);
    let n = rename_tree(t, g, old_path, new_path)->Ok_0;
    let hp = parent_text(new_path)->0;
    let steps = split_on(hp, '/');
    let home = parent_dir(t, g, new_path)->Ok_0;
    let from = parent_dir(t, g, old_path)->Ok_0;
    let d = child_entry(t, from, base_text(old_path), cs)->Ok_0;
    let s = t.entries[d].inode_index as int;
    lemma_lookup_is_walk(t, hp, cs);
    lemma_lookup_is_walk(n, hp, cs);
    assert(at_depth(t, 0, 0));
    let deep = lemma_walk_depth(t, g, blocks, steps, 0, 0);
    if from == home {
        let x = lemma_step_down(t, g, blocks, home, base_text(old_path), deep);
        lemma_avoids_deeper(t, g, blocks, steps, 0, 0, s, deep + 1, deep);
    } else {
        lemma_avoids_other(t, g, blocks, steps, 0, 0, s, home);
    }
    lemma_renamed_keeps_walk(t, g, blocks, old_path, new_path, steps, 0, s);
}

/// The nodes from the root down to a node.
spec fn way_down(t: TreeView, x: int, n: nat) -> Seq<int>
    decreases n,
{
    if n == 0 {
        seq![x]
    } else {
        way_down(t, t.parents[x]->0 as int, (n - 1) as nat).push(x)
    }
}

proof fn lemma_way_down(t: TreeView, x: int, n: nat)
    requires
        at_depth(t, x, n),
        t.parents.len() > 0,
    ensures
        way_down(t, x, n).len() == n + 1,
        forall|k: int|
            #![trigger way_down(t, x, n)[k]]
            0 <= k <= n ==> at_depth(t, way_down(t, x, n)[k], k as nat) && 0 <= way_down(
                t,
                x,
                n,
            )[k] < t.parents.len(),
    decreases n,
{
    if n > 0 {
        let p = t.parents[x]->0 as int;
        lemma_way_down(t, p, (n - 1) as nat);
        let up = way_down(t, p, (n - 1) as nat);
        assert forall|k: int| #![trigger way_down(t, x, n)[k]] 0 <= k <= n implies at_depth(
            t,
            way_down(t, x, n)[k],
            k as nat,
        ) && 0 <= way_down(t, x, n)[k] < t.parents.len() by {
            if k < n {
                assert(way_down(t, x, n)[k] == up[k]);
            }
        }
    }
}

/// No node lies deeper than there are nodes.
proof fn lemma_depth_bound(t: TreeView, x: int, n: nat)
    requires
        at_depth(t, x, n),
        t.parents.len() > 0,
    ensures
        n < t.parents.len(),
{
    let s = way_down(t, x, n);
    lemma_way_down(t, x, n);
    assert(s.no_duplicates()) by {
        assert forall|i: int, j: int| 0 <= i < s.len() && 0 <= j < s.len() && i != j implies s[i]
            != s[j] by {
            if s[i] == s[j] {
                lemma_depth_unique(t, s[i], i as nat, j as nat);
            }
        }
    }
    s.unique_seq_to_set();
    let all = vstd::set_lib::set_int_range(0, t.parents.len() as int);
    vstd::set_lib::lemma_int_range(0, t.parents.len() as int);
    assert(s.to_set().subset_of(all));
    vstd::set_lib::lemma_len_subset(s.to_set(), all);
}

/// A node does not lie under another one that lies as deep.
proof fn lemma_not_under(t: TreeView, x: int, y: int, n: nat, m: nat, fuel: nat)
    requires
        at_depth(t, x, n),
        at_depth(t, y, m),
        n <= m,
        x != y,
        n <= fuel,
    ensures
        lies_under(t, x, y, fuel) == Ok::<bool, Error>(false),
    decreases n,
{
    if n > 0 {
        let p = t.parents[x]->0 as int;
        if p == y {
            lemma_depth_unique(t, y, (n - 1) as nat, m);
        }
        lemma_not_under(t, p, y, (n - 1) as nat, m, (fuel - 1) as nat);
    }
}

/// The number with a one and `k` zeros.
spec fn ten_to(k: nat) -> nat
    decreases k,
{
    if k == 0 {
        1
    } else {
        10 * ten_to((k - 1) as nat)
    }
}

proof fn lemma_decimal_len(n: nat, k: nat)
    requires
        k > 0,
        n < ten_to(k),
    ensures
        decimal(n).len() <= k,
    decreases k,
{
    if n >= 10 {
        assert(ten_to(k) == 10 * ten_to((k - 1) as nat));
        assert(k > 1) by {
            if k == 1 {
                assert(ten_to(0) == 1);
            }
        }
        lemma_decimal_len(n / 10, (k - 1) as nat);
    }
}

/// The name that holds one of two swapped nodes in between can be kept in an entry.
proof fn lemma_swap_name_ok(generation: u32)
    ensures
        name_ok(swap_name(generation)),
{
    let name = swap_name(generation);
    reveal_strlit(".swap-tmp-");
    lemma_decimal_digits(generation as nat);
    assert(ten_to(10) == 10_000_000_000) by {
        reveal_with_fuel(ten_to, 11);
    }
    lemma_decimal_len(generation as nat, 10);
    assert forall|i: int| 0 <= i < name.len() implies name[i] != '/' && '\0' <= #[trigger] name[i]
        <= '\u{7f}' by {
        if i >= 10 {
            assert(name[i] == decimal(generation as nat)[i - 10]);
        }
    }
    is_ascii_chars_encode_utf8(name);
}

/// A rename within a directory changes a name in its entry, and nothing else.
proof fn lemma_renamed_in_place(
    t: TreeView,
    g: VolumeGeometry,
    blocks: int,
    old_path: Seq<char>,
    new_path: Seq<char>,
    home: int,
)
    requires
        shape_ok(t, g, blocks, None),
        parent_text(old_path) is Some,
        parent_text(new_path) == parent_text(old_path),
        goes_down(parent_text(old_path)->0),
        parent_dir(t, g, old_path) == Ok::<int, Error>(home),
        kid(t, home, base_text(old_path), g.case_sensitive) is Some,
        kid(t, home, base_text(new_path), g.case_sensitive) is None,
        name_ok(base_text(new_path)),
    ensures
        rename_tree(t, g, old_path, new_path) is Ok,
        ({
            let n = rename_tree(t, g, old_path, new_path)->Ok_0;
            let cs = g.case_sensitive;
            &&& shape_ok(n, g, blocks, None)
            &&& n.inodes == t.inodes
            &&& n.entries.len() == t.entries.len()
            &&& forall|d: int|
                #![trigger n.entries[d]]
                0 <= d < n.entries.len() ==> n.entries[d].inode_index == t.entries[d].inode_index
            &&& parent_dir(n, g, old_path) == Ok::<int, Error>(home)
            &&& kid(n, home, base_text(new_path), cs) == kid(t, home, base_text(old_path), cs)
            &&& kid(n, home, base_text(old_path), cs) is None
        }),
{
    let cs = g.case_sensitive;
    lemma_lookup_live(t, g, blocks, parent_text(old_path)->0);
    let k = lemma_kid_listed(t, home, base_text(old_path), cs);
    assert(live_dir(t.inodes[home]));
    assert(slice_end(t.inodes[home]) <= t.entries.len());
    assert(child_entry(t, home, base_text(new_path), cs) == Err::<int, Error>(Error::NotFound));
    let d = child_entry(t, home, base_text(old_path), cs)->Ok_0;
    assert(rename_tree(t, g, old_path, new_path) == Ok::<TreeView, Error>(
        after_relabel(t, d, base_text(new_path)),
    ));
    lemma_renamed_shape(t, g, blocks, old_path, new_path);
    lemma_renamed_kid(t, g, blocks, old_path, new_path);
    lemma_home_kept(t, g, blocks, old_path, new_path);
    assert(!same_name(base_text(new_path), base_text(old_path), cs)) by {
        if same_name(base_text(new_path), base_text(old_path), cs) {
            lemma_kid_at(t, g, home, base_text(new_path), k);
        }
    }
    lemma_renamed_away(t, g, blocks, old_path, new_path);
}

/// Two nodes of one directory can change places, where the name that one of them bears in
/// between is free.
proof fn lemma_siblings_swap(
    u: TreeView,
    g: VolumeGeometry,
    blocks: int,
    generation: u32,
    path_a: Seq<char>,
    path_b: Seq<char>,
    home: int,
)
    requires
        shape_ok(u, g, blocks, None),
        ends_in_name(path_a),
        ends_in_name(path_b),
        parent_text(path_a) == parent_text(path_b),
        name_ok(base_text(path_a)),
        name_ok(base_text(path_b)),
        parent_dir(u, g, path_a) == Ok::<int, Error>(home),
        kid(u, home, base_text(path_a), g.case_sensitive) is Some,
        kid(u, home, base_text(path_b), g.case_sensitive) is Some,
        kid(u, home, base_text(path_a), g.case_sensitive) != kid(
            u,
            home,
            base_text(path_b),
            g.case_sensitive,
        ),
        kid(u, home, swap_name(generation), g.case_sensitive) is None,
    ensures
        swap_tree(u, g, generation, path_a, path_b) is Ok,
        ({
            let n = swap_tree(u, g, generation, path_a, path_b)->Ok_0;
            let cs = g.case_sensitive;
            &&& shape_ok(n, g, blocks, None)
            &&& n.inodes == u.inodes
            &&& n.entries.len() == u.entries.len()
            &&& forall|d: int|
                #![trigger n.entries[d]]
                0 <= d < n.entries.len() ==> n.entries[d].inode_index == u.entries[d].inode_index
            &&& parent_dir(n, g, path_a) == Ok::<int, Error>(home)
            &&& kid(n, home, base_text(path_a), cs) == kid(u, home, base_text(path_b), cs)
            &&& kid(n, home, base_text(path_b), cs) == kid(u, home, base_text(path_a), cs)
        }),
{
    let cs = g.case_sensitive;
    let na = base_text(path_a);
    let nb = base_text(path_b);
    let tmp = swap_path(path_a, generation);
    let a = kid(u, home, na, cs)->Some_0;
    let b = kid(u, home, nb, cs)->Some_0;
    lemma_lookup_live(u, g, blocks, parent_text(path_a)->0);
    lemma_swap_path(path_a, generation);
    lemma_swap_name_ok(generation);
    lemma_siblings_found(u, g, blocks, path_a, path_b, home);
    lemma_renamed_in_place(u, g, blocks, path_a, tmp, home);
    let t1 = rename_tree(u, g, path_a, tmp)->Ok_0;
    lemma_renamed_keeps(u, g, blocks, path_a, tmp, home, nb);
    lemma_renamed_in_place(t1, g, blocks, path_b, path_a, home);
    let t2 = rename_tree(t1, g, path_b, path_a)->Ok_0;
    lemma_renamed_keeps(t1, g, blocks, path_b, path_a, home, swap_name(generation));
    lemma_renamed_in_place(t2, g, blocks, tmp, path_b, home);
    let n = rename_tree(t2, g, tmp, path_b)->Ok_0;
    lemma_renamed_keeps(t2, g, blocks, tmp, path_b, home, na);
    assert forall|d: int| #![trigger n.entries[d]] 0 <= d < n.entries.len() implies
        n.entries[d].inode_index == u.entries[d].inode_index by {
        assert(t2.entries[d].inode_index == t1.entries[d].inode_index);
        assert(t1.entries[d].inode_index == u.entries[d].inode_index);
    }
}

/// Two nodes of one directory are found, and neither holds the other.
proof fn lemma_siblings_found(
    u: TreeView,
    g: VolumeGeometry,
    blocks: int,
    path_a: Seq<char>,
    path_b: Seq<char>,
    home: int,
)
    requires
        shape_ok(u, g, blocks, None),
        ends_in_name(path_a),
        ends_in_name(path_b),
        parent_text(path_a) == parent_text(path_b),
        parent_dir(u, g, path_a) == Ok::<int, Error>(home),
        kid(u, home, base_text(path_a), g.case_sensitive) is Some,
        kid(u, home, base_text(path_b), g.case_sensitive) is Some,
        kid(u, home, base_text(path_a), g.case_sensitive) != kid(
            u,
            home,
            base_text(path_b),
            g.case_sensitive,
        ),
    ensures
        ({
            let cs = g.case_sensitive;
            let a = kid(u, home, base_text(path_a), cs)->Some_0;
            let b = kid(u, home, base_text(path_b), cs)->Some_0;
            &&& lookup(u, path_a, cs) == Ok::<int, Error>(a)
            &&& lookup(u, path_b, cs) == Ok::<int, Error>(b)
            &&& swap_allowed(u, a, b) is Ok
        }),
{
    let cs = g.case_sensitive;
    let hp = parent_text(path_a)->0;
    lemma_lookup_parent(u, path_a, cs);
    lemma_lookup_parent(u, path_b, cs);
    lemma_walk_one(u, base_text(path_a), home, cs);
    lemma_walk_one(u, base_text(path_b), home, cs);
    lemma_lookup_is_walk(u, hp, cs);
    assert(at_depth(u, 0, 0));
    let deep = lemma_walk_depth(u, g, blocks, split_on(hp, '/'), 0, 0);
    let a = lemma_step_down(u, g, blocks, home, base_text(path_a), deep);
    let b = lemma_step_down(u, g, blocks, home, base_text(path_b), deep);
    lemma_depth_bound(u, a, deep + 1);
    lemma_not_under(u, a, b, deep + 1, deep + 1, u.parents.len());
    lemma_not_under(u, b, a, deep + 1, deep + 1, u.parents.len());
}

/// Which inodes are reached does not depend on the names of the entries.
proof fn lemma_reached_by_any_name(
    inodes: Seq<OnDiskInode>,
    a: Seq<DirEntryView>,
    b: Seq<DirEntryView>,
    i: int,
    n: nat,
)
    requires
        a.len() == b.len(),
        forall|d: int|
            #![trigger b[d]]
            0 <= d < b.len() ==> b[d].inode_index == a[d].inode_index,
        reached_within(inodes, a, i, n),
    ensures
        reached_within(inodes, b, i, n),
    decreases n,
{
    if i != 0 {
        let (p, d) = choose|p: int, d: int| #[trigger]
            leads_to(inodes, a, p, d, i) && reached_within(inodes, a, p, (n - 1) as nat);
        lemma_reached_by_any_name(inodes, a, b, p, (n - 1) as nat);
        assert(b[d].inode_index == a[d].inode_index);
        assert(leads_to(inodes, b, p, d, i));
    }
}

/// A sound tree whose entries differ in names alone from one that can be mounted can be
/// mounted too.
proof fn lemma_renamed_mountable(u: TreeView, n: TreeView, g: VolumeGeometry, blocks: int)
    requires
        metadata_valid(
            u.inodes,
            u.entries,
            g.data_block_start as int,
            blocks,
            g.case_sensitive,
        ),
        shape_ok(n, g, blocks, None),
        n.inodes == u.inodes,
        n.entries.len() == u.entries.len(),
        forall|d: int|
            #![trigger n.entries[d]]
            0 <= d < n.entries.len() ==> n.entries[d].inode_index == u.entries[d].inode_index,
    ensures
        metadata_valid(
            n.inodes,
            n.entries,
            g.data_block_start as int,
            blocks,
            g.case_sensitive,
        ),
{
    assert(all_reached(n.inodes, n.entries)) by {
        reveal(all_reached);
        assert forall|i: int|
            #![trigger n.inodes[i]]
            0 <= i < n.inodes.len() && !n.inodes[i].deleted implies reached(
            n.inodes,
            n.entries,
            i,
        ) by {
            assert(reached(u.inodes, u.entries, i));
            let k = choose|k: nat| #[trigger] reached_within(u.inodes, u.entries, i, k);
            lemma_reached_by_any_name(u.inodes, u.entries, n.entries, i, k);
        }
    }
    law_sound_tree_is_mountable(n, g, blocks);
}

/// Going back after publishing with a backup, when nothing changed in between, restores the
/// former version: the target leads to what it led to before, which is as it was, and the
/// backup's name leads to what was published. It succeeds where nothing about the device
/// stands in the way of a commit. This is said of paths of names, and where the name that
/// one of the two bears in between is free.
pub proof fn law_rollback_restores<D: BlockDevice>(
    a: SimpleFs<D>,
    b: SimpleFs<D>,
    c: SimpleFs<D>,
    staged: Seq<char>,
    target: Seq<char>,
    r: core::result::Result<(), Error>,
)
    requires
        a.wf(),
        ends_in_name(staged),
        goes_down(staged),
        ends_in_name(target),
        all_names(target),
        published_with_backup(a, b, staged, target, Ok::<(), Error>(())),
        lookup(a.state.tree(), target, a.geometry.case_sensitive) is Ok,
        lookup(a.state.tree(), staged, a.geometry.case_sensitive) is Ok,
        lookup(a.state.tree(), staged, a.geometry.case_sensitive) != lookup(
            a.state.tree(),
            target,
            a.geometry.case_sensitive,
        ),
        kid(
            b.state.tree(),
            parent_dir(a.state.tree(), a.geometry, target)->Ok_0,
            swap_name(b.state.generation),
            a.geometry.case_sensitive,
        ) is None,
        swap_outcome(b, c, backup_of(target), target, r),
    ensures
        !b.device.write_protected() && commit_owed(b) ==> r is Ok,
        r is Ok ==> {
            let t = a.state.tree();
            let w = c.state.tree();
            let cs = a.geometry.case_sensitive;
            let former = lookup(t, target, cs)->Ok_0;
            &&& c.geometry == a.geometry
            &&& lookup(w, target, cs) == lookup(t, target, cs)
            &&& lookup(w, backup_of(target), cs) == lookup(t, staged, cs)
            &&& w.inodes == b.state.tree().inodes
            &&& parent_dir(t, a.geometry, staged) != Ok::<int, Error>(former) ==> node_kept(
                t,
                w,
                former,
            )
            &&& xattrs_before_data(a) && t.inodes[former].kind == NodeKind::File ==> contents_of(
                c,
                former,
            ) == contents_of(a, former)
        },
{
    let t = a.state.tree();
    let u = b.state.tree();
    let g = a.geometry;
    let cs = g.case_sensitive;
    let blocks = (a.device.image().len() / 512) as int;
    let backup = backup_of(target);
    law_names_are_plain(t, target, cs);
    let n = publish_tree(t, g, staged, target)->Ok_0;
    lemma_published(t, g, blocks, staged, target);
    lemma_shape_ignores_free(n, u, g, blocks, None);
    let home = parent_dir(t, g, target)->Ok_0;
    lemma_kid_same_nodes(n, u, home, base_text(target), cs);
    lemma_kid_same_nodes(n, u, home, base_text(backup), cs);
    lemma_lookup_same_nodes(n, u, parent_text(target)->0, cs);
    lemma_backup_path(target);
    let generation = b.state.generation;
    lemma_siblings_swap(u, g, blocks, generation, backup, target, home);
    let x = swap_tree(u, g, generation, backup, target)->Ok_0;
    lemma_renamed_mountable(u, x, g, blocks);
    assert(tree_valid(b, x));
    reveal_strlit(".bak");
    assert(backup != target) by {
        assert(backup.len() == target.len() + 4);
    }
    assert(!b.device.write_protected() ==> settled(b, b.device.image(), x, c, r)) by {
        reveal(swap_outcome);
    }
    assert(b.device.write_protected() ==> r is Err) by {
        reveal(swap_outcome);
    }
    if r is Ok {
        let w = c.state.tree();
        let done = r->Ok_0;
        assert(done == ());
        assert(same_nodes(x, w));
        lemma_lookup_parent(x, target, cs);
        lemma_lookup_parent(x, backup, cs);
        lemma_walk_one(x, base_text(target), home, cs);
        lemma_walk_one(x, base_text(backup), home, cs);
        lemma_lookup_same_nodes(x, w, target, cs);
        lemma_lookup_same_nodes(x, w, backup, cs);
        let former = lookup(t, target, cs)->Ok_0;
        if parent_dir(t, g, staged) != Ok::<int, Error>(former) {
            lemma_former_listed(t, n, u, x, w, g, blocks, former, home, backup, target, generation);
        }
        if xattrs_before_data(a) && t.inodes[former].kind == NodeKind::File {
            lemma_lookup_live(t, g, blocks, target);
            assert(parent_dir(t, g, staged) != Ok::<int, Error>(former)) by {
                lemma_lookup_parent(t, staged, cs);
                let from = parent_dir(t, g, staged)->Ok_0;
                lemma_walk_one(t, base_text(staged), from, cs);
            }
            assert(layout_apart(a)) by {
                assert(record_valid(g.record_of(t, a.state.rest())));
            }
            lemma_settled_area(a, n, b);
            lemma_settled_area(b, x, c);
            lemma_same_contents(a, b, c, former);
        }
    }
}

/// A commit of names alone leaves the data area.
proof fn lemma_settled_area<D: BlockDevice>(a: SimpleFs<D>, n: TreeView, b: SimpleFs<D>)
    requires
        layout_apart(a),
        settled(a, a.device.image(), n, b, Ok::<(), Error>(())),
    ensures
        layout_apart(b),
        same_data_area(a, b),
        b.geometry == a.geometry,
{
    lemma_layout_swaps(a.geometry, a.state.tree(), b.state.tree(), a.state.rest());
    assert forall|i: int|
        #![trigger b.device.image()[i]]
        a.geometry.data_block_start * 512 <= i < a.device.image().len() implies b.device.image()[i]
        == a.device.image()[i] by {
        lemma_layout_below(a, i);
    }
}

/// A file whose inode and blocks stayed holds what it held.
proof fn lemma_same_contents<D: BlockDevice>(
    a: SimpleFs<D>,
    b: SimpleFs<D>,
    c: SimpleFs<D>,
    x: int,
)
    requires
        a.wf(),
        same_data_area(a, b),
        same_data_area(b, c),
        b.geometry == a.geometry,
        0 <= x < a.state.tree().inodes.len(),
        !a.state.tree().inodes[x].deleted,
        a.state.tree().inodes[x].kind == NodeKind::File,
        node_kept(a.state.tree(), c.state.tree(), x),
    ensures
        contents_of(c, x) == contents_of(a, x),
{
    let inode = a.state.tree().inodes[x];
    let blocks = (a.device.image().len() / 512) as int;
    if inode.size > 0 {
        assert(extent_ok(inode, a.geometry.data_block_start as int, blocks));
        assert forall|i: int|
            inode.data_block * 512 <= i < inode.data_block * 512 + inode.size implies
            c.device.image()[i] == a.device.image()[i] by {
            assert(b.device.image()[i] == a.device.image()[i]);
        }
        assert(file_bytes(c.device.image(), inode) =~= file_bytes(a.device.image(), inode));
    }
}

/// A node that two siblings' change of places is not about keeps what it holds.
proof fn lemma_former_listed(
    t: TreeView,
    n: TreeView,
    u: TreeView,
    x: TreeView,
    w: TreeView,
    g: VolumeGeometry,
    blocks: int,
    former: int,
    home: int,
    backup: Seq<char>,
    target: Seq<char>,
    generation: u32,
)
    requires
        shape_ok(u, g, blocks, None),
        same_nodes(n, u),
        same_nodes(x, w),
        node_kept(t, n, former),
        0 <= former < u.inodes.len(),
        ends_in_name(backup),
        ends_in_name(target),
        parent_text(backup) == parent_text(target),
        parent_dir(u, g, backup) == Ok::<int, Error>(home),
        kid(u, home, base_text(backup), g.case_sensitive) == Some(former),
        kid(u, home, base_text(target), g.case_sensitive) is Some,
        kid(u, home, base_text(target), g.case_sensitive) != Some(former),
        kid(u, home, swap_name(generation), g.case_sensitive) is None,
        name_ok(base_text(backup)),
        name_ok(base_text(target)),
        swap_tree(u, g, generation, backup, target) == Ok::<TreeView, Error>(x),
    ensures
        node_kept(t, w, former),
{
    let cs = g.case_sensitive;
    let hp = parent_text(backup)->0;
    let tmp = swap_path(backup, generation);
    lemma_lookup_is_walk(u, hp, cs);
    assert(at_depth(u, 0, 0));
    let deep = lemma_walk_depth(u, g, blocks, split_on(hp, '/'), 0, 0);
    let y = lemma_step_down(u, g, blocks, home, base_text(backup), deep);
    if former == home {
        lemma_depth_unique(u, home, deep, deep + 1);
    }
    lemma_swap_path(backup, generation);
    lemma_swap_name_ok(generation);
    lemma_renamed_in_place(u, g, blocks, backup, tmp, home);
    let t1 = rename_tree(u, g, backup, tmp)->Ok_0;
    lemma_renamed_node(u, g, blocks, backup, tmp, former);
    lemma_renamed_keeps(u, g, blocks, backup, tmp, home, base_text(target));
    lemma_renamed_in_place(t1, g, blocks, target, backup, home);
    let t2 = rename_tree(t1, g, target, backup)->Ok_0;
    lemma_renamed_node(t1, g, blocks, target, backup, former);
    lemma_renamed_keeps(t1, g, blocks, target, backup, home, swap_name(generation));
    lemma_renamed_in_place(t2, g, blocks, tmp, target, home);
    lemma_renamed_node(t2, g, blocks, tmp, target, former);
    lemma_siblings_found(u, g, blocks, backup, target, home);
    assert(listing(w, former) == listing(x, former));
    assert(listing(u, former) == listing(n, former));
}

proof fn lemma_kid_same_nodes(a: TreeView, b: TreeView, q: int, name: Seq<char>, cs: bool)
    requires
        same_nodes(a, b),
    ensures
        kid(b, q, name, cs) == kid(a, q, name, cs),
{
    lemma_find_same_nodes(
        a,
        b,
        a.inodes[q].entry_start as int,
        slice_end(a.inodes[q]),
        name,
        cs,
    );
}

} // verus!
