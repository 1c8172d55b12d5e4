//! What lies below a directory.
use vstd::prelude::*;

use crate::tmpfs::lists::{EntryList, entry_list};
use crate::tmpfs::state::{DataView, Nodes, TmpData, TmpFsInner, entries_known, node_at};

verus! {

/// The entries of a node; none unless it is a directory.
pub open spec fn entries_at(nodes: Nodes, ino: u64) -> EntryList {
    match node_at(nodes, ino) {
        Some(n) => match n.data {
            DataView::Directory(list) => list,
            _ => seq![],
        },
        None => seq![],
    }
}

/// Whether a set of numbers holds every entry of a node.
pub open spec fn holds_entries(nodes: Nodes, ino: u64, s: Set<u64>) -> bool {
    forall|i: int|
        #![trigger entries_at(nodes, ino)[i]]
        0 <= i < entries_at(nodes, ino).len() ==> s.contains(entries_at(nodes, ino)[i].1)
}

/// Whether a set of numbers holds with each node its entries.
pub open spec fn closed_below(nodes: Nodes, s: Set<u64>) -> bool {
    forall|ino: u64| #[trigger] s.contains(ino) ==> holds_entries(nodes, ino, s)
}

/// Whether a node lies below another: it is in every set that holds the entries of the
/// other and with each node its entries.
pub open spec fn lies_below(nodes: Nodes, ancestor: u64, needle: u64) -> bool {
    forall|s: Set<u64>|
        #![trigger closed_below(nodes, s)]
        closed_below(nodes, s) && holds_entries(nodes, ancestor, s) ==> s.contains(needle)
}

/// How many marks are not set.
pub open spec fn unmarked(marks: Seq<bool>) -> nat
    decreases marks.len(),
{
    if marks.len() == 0 {
        0
    } else {
        unmarked(marks.drop_last()) + (if marks.last() {
            0nat
        } else {
            1
        })
    }
}

proof fn lemma_mark(marks: Seq<bool>, k: int)
    requires
        0 <= k < marks.len(),
        !marks[k],
    ensures
        unmarked(marks.update(k, true)) == unmarked(marks) - 1,
    decreases marks.len(),
{
    let n = marks.update(k, true);
    if k == marks.len() - 1 {
        assert(n.drop_last() =~= marks.drop_last());
    } else {
        lemma_mark(marks.drop_last(), k);
        assert(n.drop_last() =~= marks.drop_last().update(k, true));
    }
}

proof fn lemma_unmarked_none(n: nat)
    ensures
        unmarked(Seq::new(n, |i: int| false)) == n,
    decreases n,
{
    let s = Seq::new(n, |i: int| false);
    if n > 0 {
        lemma_unmarked_none((n - 1) as nat);
        assert(s.drop_last() =~= Seq::new((n - 1) as nat, |i: int| false));
    }
}

/// The numbers that are marked.
pub open spec fn marked(marks: Seq<bool>) -> Set<u64> {
    Set::new(|k: u64| k < marks.len() && marks[k as int])
}

/// Whether the entries of a node are among those marked.
spec fn noted(nodes: Nodes, ino: u64, marks: Seq<bool>) -> bool {
    forall|i: int|
        #![trigger entries_at(nodes, ino)[i]]
        0 <= i < entries_at(nodes, ino).len() ==> marked(marks).contains(
            entries_at(nodes, ino)[i].1,
        )
}

/// Whether everything marked is below the ancestor.
spec fn all_below(nodes: Nodes, ancestor: u64, marks: Seq<bool>) -> bool {
    forall|k: u64| #[trigger] marked(marks).contains(k) ==> lies_below(nodes, ancestor, k)
}

proof fn lemma_child_below(nodes: Nodes, ancestor: u64, at: u64, i: int)
    requires
        at == ancestor || lies_below(nodes, ancestor, at),
        0 <= i < entries_at(nodes, at).len(),
    ensures
        lies_below(nodes, ancestor, entries_at(nodes, at)[i].1),
{
    let child = entries_at(nodes, at)[i].1;
    assert forall|s: Set<u64>|
        #![trigger closed_below(nodes, s)]
        closed_below(nodes, s) && holds_entries(nodes, ancestor, s) implies s.contains(child) by {
        if at != ancestor {
            assert(s.contains(at));
        }
        assert(holds_entries(nodes, at, s));
    }
}

impl TmpFsInner {
    /// Marks and queues the entries of a node that are not marked yet.
    fn queue_entries(
        &self,
        at: u64,
        marks: &mut Vec<bool>,
        queue: &mut Vec<u64>,
        Ghost(ancestor): Ghost<u64>,
    )
        requires
            self.wf(),
            old(marks)@.len() == self.nodes().len(),
            old(queue)@.len() + unmarked(old(marks)@) == self.nodes().len(),
            at == ancestor || lies_below(self.nodes(), ancestor, at),
            all_below(self.nodes(), ancestor, old(marks)@),
            forall|k: int|
                #![trigger old(queue)@[k]]
                0 <= k < old(queue)@.len() ==> marked(old(marks)@).contains(old(queue)@[k]),
            forall|k: u64| #[trigger] marked(old(marks)@).contains(k) ==> old(queue)@.contains(k),
        ensures
            final(marks)@.len() == self.nodes().len(),
            final(queue)@.len() + unmarked(final(marks)@) == self.nodes().len(),
            noted(self.nodes(), at, final(marks)@),
            all_below(self.nodes(), ancestor, final(marks)@),
            forall|k: int|
                #![trigger final(queue)@[k]]
                0 <= k < final(queue)@.len() ==> marked(final(marks)@).contains(final(queue)@[k]),
            forall|k: u64| #[trigger] marked(final(marks)@).contains(k) ==> final(queue)@.contains(k),
            old(queue)@.len() <= final(queue)@.len(),
            forall|k: int|
                #![trigger final(queue)@[k]]
                0 <= k < old(queue)@.len() ==> final(queue)@[k] == old(queue)@[k],
            forall|k: u64| #[trigger] marked(old(marks)@).contains(k) ==> marked(
                final(marks)@,
            ).contains(k),
    {
        let node = match self.get_node(at) {
            None => {
                return ;
            },
            Some(n) => n,
        };
        let list = match &node.data {
            TmpData::Directory(list) => list,
            _ => {
                return ;
            },
        };
        let ghost nodes = self.nodes();
        let ghost entries = entries_at(nodes, at);
        assert(entries == entry_list(list@));
        let mut i: usize = 0;
        while i < list.len()
            invariant
                self.wf(),
                nodes == self.nodes(),
                entries == entries_at(nodes, at),
                entries == entry_list(list@),
                at < nodes.len(),
                nodes[at as int] == Some(node@),
                node@.data == DataView::Directory(entries),
                i <= list@.len(),
                marks@.len() == nodes.len(),
                queue@.len() + unmarked(marks@) == nodes.len(),
                at == ancestor || lies_below(nodes, ancestor, at),
                all_below(nodes, ancestor, marks@),
                forall|k: int|
                    #![trigger queue@[k]]
                    0 <= k < queue@.len() ==> marked(marks@).contains(queue@[k]),
                forall|k: u64| #[trigger] marked(marks@).contains(k) ==> queue@.contains(k),
                old(queue)@.len() <= queue@.len(),
                forall|k: int|
                    #![trigger queue@[k]]
                    0 <= k < old(queue)@.len() ==> queue@[k] == old(queue)@[k],
                forall|k: u64| #[trigger] marked(old(marks)@).contains(k) ==> marked(
                    marks@,
                ).contains(k),
                forall|j: int|
                    #![trigger entries[j]]
                    0 <= j < i ==> marked(marks@).contains(entries[j].1),
            decreases list@.len() - i,
        {
            let child: u64 = list[i].ino;
            proof {
                assert(entries_known(nodes[at as int], nodes.len() as int));
                assert(entries[i as int].1 == child);
                lemma_child_below(nodes, ancestor, at, i as int);
            }
            let _count: usize = marks.len();
            if !marks[child as usize] {
                let ghost before = marks@;
                let ghost line = queue@;
                marks.set(child as usize, true);
                queue.push(child);
                proof {
                    lemma_mark(before, child as int);
                    assert forall|k: u64| #[trigger] marked(marks@).contains(k) implies queue@.contains(
                        k,
                    ) by {
                        if k == child {
                            assert(queue@[line.len() as int] == child);
                        } else {
                            assert(marked(before).contains(k));
                            assert(line.contains(k));
                            let w = choose|w: int| 0 <= w < line.len() && line[w] == k;
                            assert(queue@[w] == k);
                        }
                    }
                    assert forall|k: u64| #[trigger] marked(marks@).contains(k) implies lies_below(
                        nodes,
                        ancestor,
                        k,
                    ) by {
                        if k != child {
                            assert(marked(before).contains(k));
                        }
                    }
                    assert forall|k: int| #![trigger queue@[k]] 0 <= k < queue@.len() implies marked(
                        marks@,
                    ).contains(queue@[k]) by {
                        if k < line.len() {
                            assert(marked(before).contains(line[k]));
                        }
                    }
                    assert forall|j: int| #![trigger entries[j]] 0 <= j < i implies marked(
                        marks@,
                    ).contains(entries[j].1) by {
                        assert(marked(before).contains(entries[j].1));
                    }
                }
            }
            assert(marked(marks@).contains(child));
            i = i + 1;
        }
    }

    /// Whether a node lies below a directory. Used to keep a directory from being moved
    /// into itself.
    pub fn subtree_contains(&self, ancestor: u64, needle: u64) -> (r: bool)
        requires
            self.wf(),
        ensures
            r == lies_below(self.nodes(), ancestor, needle),
    {
        let count: usize = self.inodes.len();
        let ghost nodes = self.nodes();
        let mut marks: Vec<bool> = vec![false; count];
        let mut queue: Vec<u64> = Vec::new();
        proof {
            assert(marks@ =~= Seq::new(count as nat, |i: int| false));
            lemma_unmarked_none(count as nat);
            assert forall|k: u64| #[trigger] marked(marks@).contains(k) implies false by {}
        }
        self.queue_entries(ancestor, &mut marks, &mut queue, Ghost(ancestor));
        let mut next: usize = 0;
        while next < queue.len()
            invariant
                self.wf(),
                nodes == self.nodes(),
                count == nodes.len(),
                next <= queue@.len(),
                marks@.len() == nodes.len(),
                queue@.len() + unmarked(marks@) == nodes.len(),
                all_below(nodes, ancestor, marks@),
                noted(nodes, ancestor, marks@),
                forall|k: int|
                    #![trigger queue@[k]]
                    0 <= k < queue@.len() ==> marked(marks@).contains(queue@[k]),
                forall|k: u64| #[trigger] marked(marks@).contains(k) ==> queue@.contains(k),
                forall|k: int|
                    #![trigger queue@[k]]
                    0 <= k < next ==> noted(nodes, queue@[k], marks@),
            decreases nodes.len() - next,
        {
            let at: u64 = queue[next];
            let ghost line = queue@;
            let ghost before = marks@;
            assert(marked(marks@).contains(at));
            self.queue_entries(at, &mut marks, &mut queue, Ghost(ancestor));
            proof {
                assert forall|k: int| #![trigger queue@[k]] 0 <= k < next + 1 implies noted(
                    nodes,
                    queue@[k],
                    marks@,
                ) by {
                    if k < next {
                        assert(noted(nodes, line[k], before));
                    }
                }
            }
            next = next + 1;
        }
        proof {
            let s = marked(marks@);
            assert forall|k: u64| #[trigger] s.contains(k) implies holds_entries(nodes, k, s) by {
                assert(queue@.contains(k));
                let w = choose|w: int| 0 <= w < queue@.len() && queue@[w] == k;
                assert(noted(nodes, queue@[w], marks@));
            }
            assert(closed_below(nodes, s));
            assert(holds_entries(nodes, ancestor, s));
            if needle < count && marks@[needle as int] {
                assert(s.contains(needle));
            } else {
                assert(!s.contains(needle));
                assert(!lies_below(nodes, ancestor, needle));
            }
        }
        needle < count as u64 && marks[needle as usize]
    }
}

} // verus!
