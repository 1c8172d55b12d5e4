//! Ordered lists: the entries of a directory and the attributes of a node.
use vstd::prelude::*;

use crate::bytes::{bytes_eq, copy_all};
use crate::order::{bytes_before, bytes_come_before, comes_before, lemma_text_before_total, lemma_text_before_transitive, text_before};
use crate::text::{chars_of, str_eq};
use crate::vfs::{XattrEntry, entry_pairs};

verus! {

/// An entry of a directory.
pub struct TmpEntry {
    pub name: String,
    pub ino: u64,
}

/// The entries of a directory: names and node numbers.
pub type EntryList = Seq<(Seq<char>, u64)>;

/// What the entries of a directory say.
pub open spec fn entry_list(v: Seq<TmpEntry>) -> EntryList {
    Seq::new(v.len(), |i: int| (v[i].name@, v[i].ino))
}

/// The position of a name from `i` on.
pub open spec fn name_at(list: EntryList, name: Seq<char>, i: int) -> Option<int>
    decreases list.len() - i,
{
    if i < 0 || i >= list.len() {
        None
    } else if list[i].0 == name {
        Some(i)
    } else {
        name_at(list, name, i + 1)
    }
}

/// The node number under a name.
pub open spec fn named(list: EntryList, name: Seq<char>) -> Option<u64> {
    match name_at(list, name, 0) {
        Some(k) => Some(list[k].1),
        None => None,
    }
}

/// Where a new name belongs: before the first that does not come before it.
pub open spec fn name_slot(list: EntryList, name: Seq<char>, i: int) -> int
    decreases list.len() - i,
{
    if 0 <= i < list.len() && text_before(list[i].0, name) {
        name_slot(list, name, i + 1)
    } else {
        i
    }
}

/// Entries with a name set to a node number.
pub open spec fn with_name(list: EntryList, name: Seq<char>, ino: u64) -> EntryList {
    match name_at(list, name, 0) {
        Some(k) => list.update(k, (name, ino)),
        None => list.insert(name_slot(list, name, 0), (name, ino)),
    }
}

/// Entries without a name.
pub open spec fn without_name(list: EntryList, name: Seq<char>) -> EntryList {
    match name_at(list, name, 0) {
        Some(k) => list.remove(k),
        None => list,
    }
}

/// Whether entries are in order, no name twice.
pub open spec fn names_in_order(list: EntryList) -> bool {
    forall|i: int, j: int|
        #![trigger list[i], list[j]]
        0 <= i < j < list.len() ==> text_before(list[i].0, list[j].0)
}

pub proof fn lemma_name_at(list: EntryList, name: Seq<char>, i: int)
    requires
        0 <= i,
    ensures
        match name_at(list, name, i) {
            Some(k) => i <= k < list.len() && list[k].0 == name,
            None => forall|j: int| #![trigger list[j]] i <= j < list.len() ==> list[j].0 != name,
        },
    decreases list.len() - i,
{
    if i < list.len() && list[i].0 != name {
        lemma_name_at(list, name, i + 1);
    }
}

pub proof fn lemma_name_slot(list: EntryList, name: Seq<char>, i: int)
    requires
        0 <= i <= list.len(),
    ensures
        i <= name_slot(list, name, i) <= list.len(),
        forall|j: int|
            #![trigger list[j]]
            i <= j < name_slot(list, name, i) ==> text_before(list[j].0, name),
        name_slot(list, name, i) < list.len() ==> !text_before(
            list[name_slot(list, name, i)].0,
            name,
        ),
    decreases list.len() - i,
{
    if i < list.len() && text_before(list[i].0, name) {
        lemma_name_slot(list, name, i + 1);
    }
}

/// Setting a name keeps the order.
pub proof fn lemma_with_name_order(list: EntryList, name: Seq<char>, ino: u64)
    requires
        names_in_order(list),
    ensures
        names_in_order(with_name(list, name, ino)),
{
    lemma_name_at(list, name, 0);
    lemma_name_slot(list, name, 0);
    let now = with_name(list, name, ino);
    let s = name_slot(list, name, 0);
    assert forall|i: int, j: int| #![trigger now[i], now[j]] 0 <= i < j < now.len() implies text_before(
        now[i].0,
        now[j].0,
    ) by {
        match name_at(list, name, 0) {
            Some(k) => {
                assert(text_before(list[i].0, list[j].0));
            },
            None => {
                assert(now == list.insert(s, (name, ino)));
                if i < s && j < s {
                    assert(now[i] == list[i] && now[j] == list[j]);
                } else if i < s && j == s {
                    assert(now[i] == list[i]);
                } else if i < s {
                    assert(now[i] == list[i] && now[j] == list[j - 1]);
                    assert(text_before(list[i].0, list[j - 1].0));
                } else if i == s {
                    assert(now[j] == list[j - 1]);
                    lemma_text_before_total(list[s].0, name);
                    assert(list[s].0 != name);
                    if j - 1 > s {
                        assert(text_before(list[s].0, list[j - 1].0));
                        lemma_text_before_transitive(name, list[s].0, list[j - 1].0);
                    }
                } else {
                    assert(now[i] == list[i - 1] && now[j] == list[j - 1]);
                    assert(text_before(list[i - 1].0, list[j - 1].0));
                }
            },
        }
    }
}

/// Removing a name keeps the order.
pub proof fn lemma_without_name_order(list: EntryList, name: Seq<char>)
    requires
        names_in_order(list),
    ensures
        names_in_order(without_name(list, name)),
{
    lemma_name_at(list, name, 0);
    let now = without_name(list, name);
    match name_at(list, name, 0) {
        None => {},
        Some(k) => {
            assert forall|i: int, j: int|
                #![trigger now[i], now[j]]
                0 <= i < j < now.len() implies text_before(now[i].0, now[j].0) by {
                let a = if i < k {
                    i
                } else {
                    i + 1
                };
                let b = if j < k {
                    j
                } else {
                    j + 1
                };
                assert(now[i] == list[a] && now[j] == list[b]);
            }
        },
    }
}

/// Finds a name.
pub fn find_name(list: &Vec<TmpEntry>, name: &str) -> (r: Option<usize>)
    ensures
        match r {
            Some(k) => k < list@.len() && name_at(entry_list(list@), name@, 0) == Some(k as int),
            None => name_at(entry_list(list@), name@, 0) is None,
        },
{
    let mut i: usize = 0;
    while i < list.len()
        invariant
            i <= list@.len(),
            name_at(entry_list(list@), name@, 0) == name_at(entry_list(list@), name@, i as int),
        decreases list@.len() - i,
    {
        if str_eq(list[i].name.as_str(), name) {
            return Some(i);
        }
        i = i + 1;
    }
    None
}

/// Sets a name to a node number.
pub fn set_name(list: &mut Vec<TmpEntry>, name: &str, ino: u64)
    ensures
        entry_list(final(list)@) == with_name(entry_list(old(list)@), name@, ino),
{
    let ghost before = entry_list(list@);
    match find_name(list, name) {
        Some(k) => {
            list[k].ino = ino;
            proof {
                lemma_name_at(before, name@, 0);
                assert(entry_list(list@) =~= before.update(k as int, (name@, ino)));
            }
        },
        None => {
            let key = chars_of(name);
            let mut i: usize = 0;
            while i < list.len() && comes_before(&chars_of(list[i].name.as_str()), &key)
                invariant
                    i <= list@.len(),
                    key@ == name@,
                    before == entry_list(list@),
                    name_slot(before, name@, 0) == name_slot(before, name@, i as int),
                decreases list@.len() - i,
            {
                i = i + 1;
            }
            list.insert(i, TmpEntry { name: name.to_owned(), ino });
            assert(entry_list(list@) =~= before.insert(i as int, (name@, ino)));
        },
    }
}

/// Removes a name.
pub fn unset_name(list: &mut Vec<TmpEntry>, name: &str)
    ensures
        entry_list(final(list)@) == without_name(entry_list(old(list)@), name@),
{
    let ghost before = entry_list(list@);
    match find_name(list, name) {
        Some(k) => {
            let _ = list.remove(k);
            assert(entry_list(list@) =~= before.remove(k as int));
        },
        None => {},
    }
}

/// The attributes of a node: names and values.
pub type AttrList = Seq<(Seq<u8>, Seq<u8>)>;

/// The position of an attribute from `i` on.
pub open spec fn attr_pos(list: AttrList, name: Seq<u8>, i: int) -> Option<int>
    decreases list.len() - i,
{
    if i < 0 || i >= list.len() {
        None
    } else if list[i].0 == name {
        Some(i)
    } else {
        attr_pos(list, name, i + 1)
    }
}

/// The value of an attribute.
pub open spec fn attr_value(list: AttrList, name: Seq<u8>) -> Option<Seq<u8>> {
    match attr_pos(list, name, 0) {
        Some(k) => Some(list[k].1),
        None => None,
    }
}

/// Where a new attribute belongs: before the first that does not come before it.
pub open spec fn attr_slot(list: AttrList, name: Seq<u8>, i: int) -> int
    decreases list.len() - i,
{
    if 0 <= i < list.len() && bytes_before(list[i].0, name) {
        attr_slot(list, name, i + 1)
    } else {
        i
    }
}

/// Attributes with one set.
pub open spec fn with_attr(list: AttrList, name: Seq<u8>, value: Seq<u8>) -> AttrList {
    match attr_pos(list, name, 0) {
        Some(k) => list.update(k, (name, value)),
        None => list.insert(attr_slot(list, name, 0), (name, value)),
    }
}

/// Attributes without one.
pub open spec fn without_attr(list: AttrList, name: Seq<u8>) -> AttrList {
    match attr_pos(list, name, 0) {
        Some(k) => list.remove(k),
        None => list,
    }
}

/// Finds an attribute.
pub fn find_attribute(list: &Vec<XattrEntry>, name: &[u8]) -> (r: Option<usize>)
    ensures
        match r {
            Some(k) => k < list@.len() && attr_pos(entry_pairs(list@), name@, 0) == Some(k as int),
            None => attr_pos(entry_pairs(list@), name@, 0) is None,
        },
{
    let mut i: usize = 0;
    while i < list.len()
        invariant
            i <= list@.len(),
            attr_pos(entry_pairs(list@), name@, 0) == attr_pos(
                entry_pairs(list@),
                name@,
                i as int,
            ),
        decreases list@.len() - i,
    {
        if bytes_eq(list[i].name.as_slice(), name) {
            return Some(i);
        }
        i = i + 1;
    }
    None
}

pub proof fn lemma_attr_pos(list: AttrList, name: Seq<u8>, i: int)
    requires
        0 <= i,
    ensures
        match attr_pos(list, name, i) {
            Some(k) => i <= k < list.len() && list[k].0 == name,
            None => forall|j: int| #![trigger list[j]] i <= j < list.len() ==> list[j].0 != name,
        },
    decreases list.len() - i,
{
    if i < list.len() && list[i].0 != name {
        lemma_attr_pos(list, name, i + 1);
    }
}

/// Sets an attribute.
pub fn set_attribute(list: &mut Vec<XattrEntry>, name: &[u8], value: &[u8])
    ensures
        entry_pairs(final(list)@) == with_attr(entry_pairs(old(list)@), name@, value@),
{
    let ghost before = entry_pairs(list@);
    match find_attribute(list, name) {
        Some(k) => {
            list[k].value = copy_all(value);
            proof {
                lemma_attr_pos(before, name@, 0);
                assert(entry_pairs(list@) =~= before.update(k as int, (name@, value@)));
            }
        },
        None => {
            let mut i: usize = 0;
            while i < list.len() && bytes_come_before(list[i].name.as_slice(), name)
                invariant
                    i <= list@.len(),
                    before == entry_pairs(list@),
                    attr_slot(before, name@, 0) == attr_slot(before, name@, i as int),
                decreases list@.len() - i,
            {
                i = i + 1;
            }
            list.insert(i, XattrEntry { name: copy_all(name), value: copy_all(value) });
            assert(entry_pairs(list@) =~= before.insert(i as int, (name@, value@)));
        },
    }
}

} // verus!
