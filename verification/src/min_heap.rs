//! The search frontier: a binary min-heap of items with priorities.
//!
//! Inserting never looks for an entry with the same item: the same item may
//! sit in the heap several times, at different priorities. The model of a
//! heap is therefore the multiset of its `(item, priority)` entries.

use vstd::multiset::Multiset;
use vstd::prelude::*;
use vstd::seq_lib::to_multiset_build;
use vstd::seq_lib::to_multiset_contains;
use vstd::seq_lib::to_multiset_len;
use vstd::seq_lib::to_multiset_remove;
use vstd::seq_lib::to_multiset_update;

verus! {

/// Index of the parent of node `i` in the array layout of a binary tree.
pub open spec fn parent(i: int) -> int {
    (i - 1) / 2
}

/// No entry has a smaller priority than its parent.
pub open spec fn heap_ordered<T>(s: Seq<(T, u32)>) -> bool {
    forall|i: int| 1 <= i < s.len() ==> s[parent(i)].1 <= (#[trigger] s[i]).1
}

/// `entry` is in `m`, and nothing in `m` has a smaller priority.
pub open spec fn is_least<T>(m: Multiset<(T, u32)>, entry: (T, u32)) -> bool {
    &&& m.count(entry) > 0
    &&& forall|other: (T, u32)| m.count(other) > 0 ==> entry.1 <= other.1
}

/// `after` is `before` without one entry for `item`, which was of least
/// priority in `before`.
pub open spec fn took_least<T>(
    before: Multiset<(T, u32)>,
    after: Multiset<(T, u32)>,
    item: T,
) -> bool {
    exists|priority: u32| #[trigger]
        is_least(before, (item, priority)) && after == before.remove((item, priority))
}

/// In an ordered heap the root has the smallest priority.
proof fn lemma_root_least<T>(s: Seq<(T, u32)>, i: int)
    requires
        heap_ordered(s),
        0 <= i < s.len(),
    ensures
        s[0].1 <= s[i].1,
    decreases i,
{
    if i > 0 {
        lemma_root_least(s, parent(i));
    }
}

/// Exchanges two entries; the multiset of entries stays the same.
fn swap_entries<T: Copy>(entries: &mut Vec<(T, u32)>, i: usize, j: usize)
    requires
        i < old(entries).len(),
        j < old(entries).len(),
    ensures
        final(entries)@ == old(entries)@.update(i as int, old(entries)@[j as int]).update(
            j as int,
            old(entries)@[i as int],
        ),
        final(entries)@.to_multiset() == old(entries)@.to_multiset(),
{
    let a: (T, u32) = entries[i];
    let b: (T, u32) = entries[j];
    entries[i] = b;
    entries[j] = a;
    proof {
        let s0 = old(entries)@;
        let s1 = s0.update(i as int, b);
        to_multiset_update(s0, i as int, b);
        to_multiset_update(s1, j as int, a);
        to_multiset_contains(s0, a);
        to_multiset_contains(s0, b);
        assert(s0.contains(a));
        assert(s0.contains(b));
        assert(entries@.to_multiset() =~= s0.to_multiset());
    }
}

/// Moves the entry at `start` towards the root until its parent is no
/// larger.
fn sift_up<T: Copy>(entries: &mut Vec<(T, u32)>, start: usize)
    requires
        start < old(entries).len(),
        forall|k: int|
            1 <= k < old(entries).len() && k != start ==> old(entries)@[parent(k)].1 <= (
            #[trigger] old(entries)@[k]).1,
        forall|k: int| 1 <= k < old(entries).len() ==> parent(k) != start,
    ensures
        heap_ordered(final(entries)@),
        final(entries)@.to_multiset() == old(entries)@.to_multiset(),
{
    let mut i: usize = start;
    while i > 0
        invariant
            i < entries.len(),
            entries@.to_multiset() == old(entries)@.to_multiset(),
            forall|k: int|
                1 <= k < entries.len() && k != i ==> entries@[parent(k)].1 <= (
                #[trigger] entries@[k]).1,
            forall|k: int|
                1 <= k < entries.len() && parent(k) == i && i >= 1 ==> entries@[parent(i as int)].1
                    <= (#[trigger] entries@[k]).1,
        ensures
            heap_ordered(entries@),
            entries@.to_multiset() == old(entries)@.to_multiset(),
        decreases i,
    {
        let up: usize = (i - 1) / 2;
        if entries[up].1 <= entries[i].1 {
            break ;
        }
        let ghost before = entries@;
        swap_entries(entries, up, i);
        proof {
            assert forall|k: int| 1 <= k < entries.len() && k != up implies entries@[parent(k)].1
                <= (#[trigger] entries@[k]).1 by {
                if k == i {
                } else if parent(k) == i {
                    assert(before[parent(i as int)].1 <= before[k].1);
                } else if parent(k) == up {
                    assert(before[parent(k)].1 <= before[k].1);
                } else {
                    assert(before[parent(k)].1 <= before[k].1);
                }
            }
            assert forall|k: int|
                1 <= k < entries.len() && parent(k) == up && up >= 1 implies entries@[parent(
                up as int,
            )].1 <= (#[trigger] entries@[k]).1 by {
                assert(before[parent(up as int)].1 <= before[up as int].1);
                if k != i {
                    assert(before[parent(k)].1 <= before[k].1);
                }
            }
        }
        i = up;
    }
}

/// Moves the entry at the root towards the leaves until none of its
/// children is smaller.
fn sift_down<T: Copy>(entries: &mut Vec<(T, u32)>)
    requires
        forall|k: int|
            1 <= k < old(entries).len() && parent(k) != 0 ==> old(entries)@[parent(k)].1 <= (
            #[trigger] old(entries)@[k]).1,
    ensures
        heap_ordered(final(entries)@),
        final(entries)@.to_multiset() == old(entries)@.to_multiset(),
{
    let len: usize = entries.len();
    let mut i: usize = 0;
    while i < len / 2
        invariant
            len == entries.len(),
            entries@.to_multiset() == old(entries)@.to_multiset(),
            forall|k: int|
                1 <= k < entries.len() && parent(k) != i ==> entries@[parent(k)].1 <= (
                #[trigger] entries@[k]).1,
            forall|k: int|
                1 <= k < entries.len() && parent(k) == i && i >= 1 ==> entries@[parent(i as int)].1
                    <= (#[trigger] entries@[k]).1,
        ensures
            heap_ordered(entries@),
            entries@.to_multiset() == old(entries)@.to_multiset(),
        decreases len - i,
    {
        let left: usize = 2 * i + 1;
        let mut child: usize = left;
        if left + 1 < len && entries[left + 1].1 < entries[left].1 {
            child = left + 1;
        }
        if entries[i].1 <= entries[child].1 {
            proof {
                assert forall|k: int| 1 <= k < entries.len() implies entries@[parent(k)].1 <= (
                #[trigger] entries@[k]).1 by {
                    if parent(k) == i {
                        assert(k == left || k == left + 1);
                    }
                }
            }
            break ;
        }
        let ghost before = entries@;
        swap_entries(entries, i, child);
        proof {
            assert forall|k: int|
                1 <= k < entries.len() && parent(k) != child implies entries@[parent(k)].1 <= (
            #[trigger] entries@[k]).1 by {
                if k == child {
                } else if parent(k) == i {
                    assert(k == left || k == left + 1);
                } else if k == i {
                    assert(before[parent(i as int)].1 <= before[child as int].1);
                } else {
                    assert(before[parent(k)].1 <= before[k].1);
                }
            }
            assert forall|k: int|
                1 <= k < entries.len() && parent(k) == child && child >= 1 implies entries@[parent(
                child as int,
            )].1 <= (#[trigger] entries@[k]).1 by {
                assert(before[parent(k)].1 <= before[k].1);
            }
        }
        i = child;
    }
    proof {
        if i >= len / 2 {
            assert forall|k: int| 1 <= k < entries.len() implies entries@[parent(k)].1 <= (
            #[trigger] entries@[k]).1 by {
                assert(parent(k) != i);
            }
        }
    }
}

/// A min-priority queue that keeps every inserted entry until it is popped.
pub struct MinHeap<T> {
    entries: Vec<(T, u32)>,
}

impl<T> View for MinHeap<T> {
    type V = Multiset<(T, u32)>;

    closed spec fn view(&self) -> Multiset<(T, u32)> {
        self.entries@.to_multiset()
    }
}

impl<T: Copy> MinHeap<T> {
    /// The entries are laid out as a heap.
    pub closed spec fn wf(&self) -> bool {
        heap_ordered(self.entries@)
    }

    /// An empty heap.
    pub fn new() -> (heap: Self)
        ensures
            heap.wf(),
            heap@ == Multiset::<(T, u32)>::empty(),
    {
        let heap = MinHeap { entries: Vec::new() };
        assert(heap.entries@.to_multiset() =~= Multiset::<(T, u32)>::empty()) by {
            to_multiset_len(heap.entries@);
        }
        heap
    }

    /// Whether no entry is left.
    pub fn is_empty(&self) -> (empty: bool)
        ensures
            empty == (self@.len() == 0),
    {
        proof {
            to_multiset_len(self.entries@);
        }
        self.entries.len() == 0
    }

    /// Adds the entry `(state, priority)`. Entries already present for the
    /// same state stay as they are.
    pub fn insert(&mut self, state: T, priority: u32)
        requires
            old(self).wf(),
        ensures
            final(self).wf(),
            final(self)@ == old(self)@.insert((state, priority)),
    {
        proof {
            to_multiset_build(self.entries@, (state, priority));
        }
        let ghost before = self.entries@;
        self.entries.push((state, priority));
        let last: usize = self.entries.len() - 1;
        proof {
            assert forall|k: int| 1 <= k < self.entries.len() && k != last implies self.entries@[parent(
                k,
            )].1 <= (#[trigger] self.entries@[k]).1 by {
                assert(before[parent(k)].1 <= before[k].1);
            }
        }
        sift_up(&mut self.entries, last);
    }

    /// Takes out an entry of least priority and returns its item; `None`
    /// when the heap is empty.
    pub fn pop(&mut self) -> (least: Option<T>)
        requires
            old(self).wf(),
        ensures
            final(self).wf(),
            match least {
                None => old(self)@.len() == 0 && final(self)@ == old(self)@,
                Some(item) => took_least(old(self)@, final(self)@, item),
            },
    {
        proof {
            to_multiset_len(self.entries@);
        }
        if self.entries.len() == 0 {
            assert(self@.len() == 0);
            return None;
        }
        let ghost before = self.entries@;
        let top: (T, u32) = self.entries.swap_remove(0);
        proof {
            let moved = before.update(0, before.last());
            to_multiset_update(before, 0, before.last());
            to_multiset_remove(moved, moved.len() - 1);
            assert(moved.remove(moved.len() - 1) =~= moved.drop_last());
            to_multiset_contains(before, before.last());
            to_multiset_contains(before, top);
            assert(before.contains(before.last()));
            assert(before.contains(top));
            assert(self.entries@.to_multiset() =~= before.to_multiset().remove(top));
            assert forall|other: (T, u32)| before.to_multiset().count(other) > 0 implies top.1
                <= other.1 by {
                to_multiset_contains(before, other);
                let i: int = choose|i: int| 0 <= i < before.len() && before[i] == other;
                lemma_root_least(before, i);
            }
            assert forall|k: int|
                1 <= k < self.entries.len() && parent(k) != 0 implies self.entries@[parent(k)].1
                <= (#[trigger] self.entries@[k]).1 by {
                assert(before[parent(k)].1 <= before[k].1);
            }
        }
        sift_down(&mut self.entries);
        let item: T = top.0;
        let priority: u32 = top.1;
        proof {
            assert(top == (item, priority));
            assert(is_least(old(self)@, (item, priority)) && self@ == old(self)@.remove(
                (item, priority),
            ));
        }
        Some(item)
    }
}

} // verus!
