//! Every node of an image is stored once.
use vstd::prelude::*;

use crate::simplefs::image_build::place_of;
use crate::simplefs::image_nodes::NodeView;
use crate::simplefs::image_order::{walk_children, walk_order};
use crate::simplefs::image_tree::{all_held, held, holder, holds_its_own, lemma_found, nodes_ok};
use crate::simplefs::names::parent_text;

verus! {

/// Whether node `x` is node `i` or lies below it.
pub open spec fn below(n: Seq<NodeView>, i: int, x: int) -> bool
    decreases x,
{
    x == i || (i < x && 0 <= holder(n, x) < x && below(n, i, holder(n, x)))
}

proof fn lemma_below_order(n: Seq<NodeView>, i: int, x: int)
    requires
        below(n, i, x),
    ensures
        i <= x,
{
}

proof fn lemma_below_both(n: Seq<NodeView>, a: int, b: int, x: int)
    requires
        a <= b,
        below(n, a, x),
        below(n, b, x),
    ensures
        below(n, a, b),
    decreases x,
{
    if x != b {
        lemma_below_both(n, a, b, holder(n, x));
    }
}

proof fn lemma_below_through(n: Seq<NodeView>, a: int, b: int, x: int)
    requires
        below(n, a, b),
        below(n, b, x),
    ensures
        below(n, a, x),
    decreases x,
{
    if x != b {
        lemma_below_through(n, a, b, holder(n, x));
        lemma_below_order(n, a, b);
    }
}

/// A directory is the holder of each of its children.
pub proof fn lemma_child_held(n: Seq<NodeView>, p: int, k: int)
    requires
        nodes_ok(n),
        0 <= p < n.len(),
        0 <= k < n[p].children.len(),
    ensures
        p < n[p].children[k] < n.len(),
        holder(n, n[p].children[k] as int) == p,
{
    reveal(holds_its_own);
    let c = n[p].children[k] as int;
    assert(parent_text(n[c].path) == Some(n[p].path));
    lemma_found(n, n[p].path, p);
}

/// Every node but the root is a child of its holder.
pub proof fn lemma_held_child(n: Seq<NodeView>, x: int)
    requires
        nodes_ok(n),
        1 <= x < n.len(),
        n.len() <= usize::MAX,
    ensures
        0 <= holder(n, x) < x,
        exists|k: int|
            #![trigger n[holder(n, x)].children[k]]
            0 <= k < n[holder(n, x)].children.len() && n[holder(n, x)].children[k] == x,
{
    reveal(all_held);
    assert(held(n, x));
    let h = holder(n, x);
    let k = choose|k: int| 0 <= k < n[h].children.len() && n[h].children[k] == x as usize;
    assert(n[h].children[k] == x);
}

/// What lies below a node but is not the node lies below one of its children.
proof fn lemma_below_child(n: Seq<NodeView>, i: int, x: int) -> (k: int)
    requires
        nodes_ok(n),
        n.len() <= usize::MAX,
        0 <= i < x < n.len(),
        below(n, i, x),
    ensures
        0 <= k < n[i].children.len(),
        below(n, n[i].children[k] as int, x),
    decreases x,
{
    let h = holder(n, x);
    if h == i {
        lemma_held_child(n, x);
        choose|k: int|
            #![trigger n[i].children[k]]
            0 <= k < n[i].children.len() && n[i].children[k] == x
    } else {
        lemma_below_order(n, i, h);
        let k = lemma_below_child(n, i, h);
        lemma_below_order(n, n[i].children[k] as int, h);
        k
    }
}

/// Whether a list holds exactly the nodes below a node, each once.
pub open spec fn lists_below(n: Seq<NodeView>, i: int, s: Seq<int>) -> bool {
    &&& s.no_duplicates()
    &&& forall|x: int|
        #![trigger s.contains(x)]
        s.contains(x) <==> 0 <= x < n.len() && below(n, i, x)
}

/// Whether a list holds exactly the nodes below the first `k` children, each once.
pub open spec fn lists_children(n: Seq<NodeView>, i: int, k: int, s: Seq<int>) -> bool {
    &&& s.no_duplicates()
    &&& forall|x: int|
        #![trigger s.contains(x)]
        s.contains(x) <==> 0 <= x < n.len() && below_some(n, i, k, x)
}

/// Whether a node lies below one of the first `k` children.
pub open spec fn below_some(n: Seq<NodeView>, i: int, k: int, x: int) -> bool {
    exists|j: int|
        #![trigger n[i].children[j]]
        0 <= j < k && below(n, n[i].children[j] as int, x)
}

proof fn lemma_joined_distinct(a: Seq<int>, b: Seq<int>)
    requires
        a.no_duplicates(),
        b.no_duplicates(),
        forall|x: int| #![trigger b.contains(x)] b.contains(x) ==> !a.contains(x),
    ensures
        (a + b).no_duplicates(),
        forall|x: int|
            #![trigger (a + b).contains(x)]
            (a + b).contains(x) <==> a.contains(x) || b.contains(x),
{
    let s = a + b;
    assert forall|i: int, j: int| 0 <= i < s.len() && 0 <= j < s.len() && i != j implies s[i]
        != s[j] by {
        if i < a.len() && j >= a.len() {
            assert(a.contains(a[i]));
            assert(b.contains(b[j - a.len()]));
        } else if j < a.len() && i >= a.len() {
            assert(a.contains(a[j]));
            assert(b.contains(b[i - a.len()]));
        }
    }
    assert forall|x: int| #![trigger s.contains(x)] s.contains(x) <==> a.contains(x)
        || b.contains(x) by {
        if s.contains(x) {
            let i = choose|i: int| 0 <= i < s.len() && s[i] == x;
            if i < a.len() {
                assert(a[i] == x);
            } else {
                assert(b[i - a.len()] == x);
            }
        }
        if a.contains(x) {
            let i = choose|i: int| 0 <= i < a.len() && a[i] == x;
            assert(s[i] == x);
        }
        if b.contains(x) {
            let i = choose|i: int| 0 <= i < b.len() && b[i] == x;
            assert(s[a.len() + i] == x);
        }
    }
}

/// Nothing lies below two children of one directory.
proof fn lemma_children_apart(n: Seq<NodeView>, i: int, a: int, b: int, x: int)
    requires
        nodes_ok(n),
        0 <= i < n.len(),
        0 <= a < n[i].children.len(),
        0 <= b < n[i].children.len(),
        a != b,
        below(n, n[i].children[a] as int, x),
    ensures
        !below(n, n[i].children[b] as int, x),
{
    let c = n[i].children[a] as int;
    let d = n[i].children[b] as int;
    lemma_child_held(n, i, a);
    lemma_child_held(n, i, b);
    assert(c != d) by {
        reveal(holds_its_own);
        assert(n[i].children.no_duplicates());
    }
    if below(n, d, x) {
        if c < d {
            lemma_below_both(n, c, d, x);
            lemma_below_order(n, c, i);
        } else {
            lemma_below_both(n, d, c, x);
            lemma_below_order(n, d, i);
        }
    }
}

proof fn lemma_walk_lists(n: Seq<NodeView>, i: int)
    requires
        nodes_ok(n),
        n.len() <= usize::MAX,
        0 <= i < n.len(),
    ensures
        lists_below(n, i, walk_order(n, i)),
        walk_order(n, i).len() > 0,
        walk_order(n, i)[0] == i,
    decreases n.len() - i, 1int, 0int,
{
    let list = n[i].children;
    let k = list.len() as int;
    lemma_children_list(n, i, k);
    assert(list.take(k) =~= list);
    let a = seq![i];
    let b = walk_children(n, i, list);
    assert forall|x: int| #![trigger b.contains(x)] b.contains(x) implies !a.contains(x) by {
        let j = choose|j: int|
            #![trigger n[i].children[j]]
            0 <= j < k && below(n, n[i].children[j] as int, x);
        lemma_child_held(n, i, j);
        lemma_below_order(n, n[i].children[j] as int, x);
    }
    lemma_joined_distinct(a, b);
    let s = walk_order(n, i);
    assert(s == a + b);
    assert forall|x: int| #![trigger s.contains(x)] s.contains(x) <==> 0 <= x < n.len() && below(
        n,
        i,
        x,
    ) by {
        assert((a + b).contains(x) <==> a.contains(x) || b.contains(x));
        if a.contains(x) {
            assert(x == i);
        }
        if x == i {
            assert(a[0] == x);
        }
        if b.contains(x) {
            let j = choose|j: int|
                #![trigger n[i].children[j]]
                0 <= j < k && below(n, n[i].children[j] as int, x);
            lemma_child_held(n, i, j);
            let c = n[i].children[j] as int;
            assert(below(n, i, i));
            assert(below(n, i, c));
            lemma_below_through(n, i, c, x);
        }
        if 0 <= x < n.len() && below(n, i, x) && x != i {
            lemma_below_order(n, i, x);
            let j = lemma_below_child(n, i, x);
            assert(below_some(n, i, k, x));
        }
    }
}

proof fn lemma_children_list(n: Seq<NodeView>, i: int, k: int)
    requires
        nodes_ok(n),
        n.len() <= usize::MAX,
        0 <= i < n.len(),
        0 <= k <= n[i].children.len(),
    ensures
        lists_children(n, i, k, walk_children(n, i, n[i].children.take(k))),
    decreases n.len() - i, 0int, k,
{
    let list = n[i].children.take(k);
    let s = walk_children(n, i, list);
    if k > 0 {
        let c = n[i].children[k - 1] as int;
        lemma_child_held(n, i, k - 1);
        assert(list.last() == n[i].children[k - 1]);
        assert(list.drop_last() =~= n[i].children.take(k - 1));
        lemma_children_list(n, i, k - 1);
        lemma_walk_lists(n, c);
        let a = walk_children(n, i, n[i].children.take(k - 1));
        let b = walk_order(n, c);
        assert forall|x: int| #![trigger b.contains(x)] b.contains(x) implies !a.contains(x) by {
            if a.contains(x) {
                let j = choose|j: int|
                    #![trigger n[i].children[j]]
                    0 <= j < k - 1 && below(n, n[i].children[j] as int, x);
                lemma_children_apart(n, i, k - 1, j, x);
            }
        }
        lemma_joined_distinct(a, b);
        assert(s == a + b);
        assert forall|x: int| #![trigger s.contains(x)] s.contains(x) <==> 0 <= x < n.len()
            && below_some(n, i, k, x) by {
            assert((a + b).contains(x) <==> a.contains(x) || b.contains(x));
            if below_some(n, i, k, x) && 0 <= x < n.len() {
                let j = choose|j: int|
                    #![trigger n[i].children[j]]
                    0 <= j < k && below(n, n[i].children[j] as int, x);
                if j < k - 1 {
                    assert(below_some(n, i, k - 1, x));
                } else {
                    assert(below(n, c, x));
                }
            }
            if a.contains(x) {
                let j = choose|j: int|
                    #![trigger n[i].children[j]]
                    0 <= j < k - 1 && below(n, n[i].children[j] as int, x);
                assert(n[i].children[j] == n[i].children[j]);
            }
        }
    }
}

proof fn lemma_all_below_root(n: Seq<NodeView>, x: int)
    requires
        nodes_ok(n),
        n.len() <= usize::MAX,
        0 <= x < n.len(),
    ensures
        below(n, 0, x),
    decreases x,
{
    if x > 0 {
        lemma_held_child(n, x);
        lemma_all_below_root(n, holder(n, x));
    }
}

/// Whether an order names every node once, the root first.
pub open spec fn names_all(n: Seq<NodeView>, order: Seq<int>) -> bool {
    &&& order.len() > 0
    &&& order[0] == 0
    &&& order.no_duplicates()
    &&& forall|k: int| #![trigger order[k]] 0 <= k < order.len() ==> 0 <= order[k] < n.len()
    &&& forall|x: int| #![trigger order.contains(x)] 0 <= x < n.len() ==> order.contains(x)
}

/// The order of an image names every node once, the root first.
pub proof fn lemma_order_names_all(n: Seq<NodeView>)
    requires
        nodes_ok(n),
        n.len() <= usize::MAX,
    ensures
        names_all(n, walk_order(n, 0)),
{
    let order = walk_order(n, 0);
    lemma_walk_lists(n, 0);
    assert forall|k: int| #![trigger order[k]] 0 <= k < order.len() implies 0 <= order[k]
        < n.len() by {
        assert(order.contains(order[k]));
    }
    assert forall|x: int| #![trigger order.contains(x)] 0 <= x < n.len() implies order.contains(
        x,
    ) by {
        lemma_all_below_root(n, x);
    }
}

proof fn lemma_place(order: Seq<int>, x: int)
    requires
        order.contains(x),
    ensures
        0 <= place_of(order, x) < order.len(),
        order[place_of(order, x)] == x,
    decreases order.len(),
{
    if order.last() != x {
        let k = choose|k: int| 0 <= k < order.len() && order[k] == x;
        let d = order.drop_last();
        assert(d[k] == x);
        lemma_place(d, x);
    }
}

/// Every node has its own place.
pub proof fn lemma_place_of(n: Seq<NodeView>, order: Seq<int>, x: int)
    requires
        names_all(n, order),
        0 <= x < n.len(),
    ensures
        0 <= place_of(order, x) < order.len(),
        order[place_of(order, x)] == x,
        x == 0 <==> place_of(order, x) == 0,
{
    assert(order.contains(x));
    lemma_place(order, x);
}

/// The node at a place is the one that has the place.
pub proof fn lemma_place_back(n: Seq<NodeView>, order: Seq<int>, k: int)
    requires
        names_all(n, order),
        0 <= k < order.len(),
    ensures
        0 <= order[k] < n.len(),
        place_of(order, order[k]) == k,
{
    lemma_place_of(n, order, order[k]);
}

} // verus!
