//! The frontier of the search: a binary min-heap of `(distance, vertex)` entries.

use crate::graph::{Distance, Vertex};
use vstd::multiset::Multiset;
use vstd::prelude::*;

verus! {

/// A frontier entry: a tentative distance and the vertex it belongs to.
pub type Entry = (Distance, Vertex);

/// The order of the frontier: by distance first, then by vertex.
pub open spec fn key_le(a: Entry, b: Entry) -> bool {
    a.0 < b.0 || (a.0 == b.0 && a.1 <= b.1)
}

/// Decides the order of the frontier on two entries.
pub fn entry_le(a: Entry, b: Entry) -> (r: bool)
    ensures
        r == key_le(a, b),
{
    a.0 < b.0 || (a.0 == b.0 && a.1 <= b.1)
}

/// The position above `j` in the heap's implicit tree.
pub open spec fn parent(j: int) -> int {
    (j - 1) / 2
}

/// The entry at `j` is no smaller than the one above it.
pub open spec fn ordered_at(s: Seq<Entry>, j: int) -> bool {
    key_le(s[parent(j)], s[j])
}

/// Every entry but the first is no smaller than the one above it.
pub open spec fn heap_ordered(s: Seq<Entry>) -> bool {
    forall|j: int| 1 <= j < s.len() ==> #[trigger] ordered_at(s, j)
}

/// In a heap-ordered sequence the first entry is a least one.
pub proof fn lemma_root_is_least(s: Seq<Entry>, j: int)
    requires
        heap_ordered(s),
        0 <= j < s.len(),
    ensures
        key_le(s[0], s[j]),
    decreases j,
{
    if j > 0 {
        assert(ordered_at(s, j));
        lemma_root_is_least(s, parent(j));
    }
}

/// Exchanging two entries of a sequence leaves its multiset unchanged.
pub proof fn lemma_swap_keeps_multiset(s: Seq<Entry>, i: int, j: int)
    requires
        0 <= i < s.len(),
        0 <= j < s.len(),
    ensures
        s.update(i, s[j]).update(j, s[i]).to_multiset() == s.to_multiset(),
{
    broadcast use vstd::multiset::group_multiset_axioms;

    vstd::seq_lib::to_multiset_update(s, i, s[j]);
    vstd::seq_lib::to_multiset_update(s.update(i, s[j]), j, s[i]);
    s.to_multiset_ensures();
    assert(s.contains(s[i]));
    assert(s.contains(s[j]));
    assert(s.update(i, s[j]).update(j, s[i]).to_multiset() =~= s.to_multiset());
}

/// Exchanges the entries at `i` and `j`.
fn exchange(items: &mut Vec<Entry>, i: usize, j: usize)
    requires
        i < old(items)@.len(),
        j < old(items)@.len(),
    ensures
        final(items)@ == old(items)@.update(i as int, old(items)@[j as int]).update(
            j as int,
            old(items)@[i as int],
        ),
        final(items)@.to_multiset() == old(items)@.to_multiset(),
{
    proof {
        lemma_swap_keeps_multiset(items@, i as int, j as int);
    }
    let a = items[i];
    let b = items[j];
    items[i] = b;
    items[j] = a;
}

/// Moves the entry at `start` up until the one above it is no larger.
fn sift_up(items: &mut Vec<Entry>, start: usize)
    requires
        start < old(items)@.len(),
        forall|j: int|
            1 <= j < old(items)@.len() && j != start ==> #[trigger] ordered_at(old(items)@, j),
        forall|j: int|
            1 <= j < old(items)@.len() && parent(j) == start && start >= 1 ==> key_le(
                old(items)@[parent(start as int)],
                #[trigger] old(items)@[j],
            ),
    ensures
        heap_ordered(final(items)@),
        final(items)@.to_multiset() == old(items)@.to_multiset(),
{
    let mut i: usize = start;
    loop
        invariant_except_break
            i < items@.len(),
            forall|j: int| 1 <= j < items@.len() && j != i ==> #[trigger] ordered_at(items@, j),
            forall|j: int|
                1 <= j < items@.len() && parent(j) == i && i >= 1 ==> key_le(
                    items@[parent(i as int)],
                    #[trigger] items@[j],
                ),
        invariant
            items@.to_multiset() == old(items)@.to_multiset(),
        ensures
            heap_ordered(items@),
        decreases i,
    {
        if i == 0 {
            break ;
        }
        let p: usize = (i - 1) / 2;
        if entry_le(items[p], items[i]) {
            assert(ordered_at(items@, i as int));
            break ;
        }
        let ghost before = items@;
        exchange(items, p, i);
        proof {
            assert forall|j: int| 1 <= j < items@.len() && j != p implies #[trigger] ordered_at(
                items@,
                j,
            ) by {
                if j != i {
                    assert(ordered_at(before, j));
                    if parent(j) == i {
                        assert(key_le(before[parent(i as int)], before[j]));
                    }
                }
            }
            assert forall|j: int| 1 <= j < items@.len() && parent(j) == p && p >= 1 implies key_le(
                items@[parent(p as int)],
                #[trigger] items@[j],
            ) by {
                assert(ordered_at(before, p as int));
                if j != i {
                    assert(ordered_at(before, j));
                }
            }
        }
        i = p;
    }
}

/// Moves the first entry down until neither entry below it is smaller.
fn sift_down(items: &mut Vec<Entry>)
    requires
        old(items)@.len() > 0,
        forall|j: int|
            1 <= j < old(items)@.len() && parent(j) != 0 ==> #[trigger] ordered_at(old(items)@, j),
    ensures
        heap_ordered(final(items)@),
        final(items)@.to_multiset() == old(items)@.to_multiset(),
{
    let mut i: usize = 0;
    let len: usize = items.len();
    while i < len / 2
        invariant_except_break
            forall|j: int|
                1 <= j < items@.len() && parent(j) != i ==> #[trigger] ordered_at(items@, j),
            forall|j: int|
                1 <= j < items@.len() && parent(j) == i && i >= 1 ==> key_le(
                    items@[parent(i as int)],
                    #[trigger] items@[j],
                ),
        invariant
            i < len,
            len == items@.len(),
            items@.to_multiset() == old(items)@.to_multiset(),
        ensures
            heap_ordered(items@),
        decreases len - i,
    {
        let left: usize = 2 * i + 1;
        let right: usize = left + 1;
        let child: usize = if right < len && !entry_le(items[left], items[right]) {
            right
        } else {
            left
        };
        if entry_le(items[i], items[child]) {
            assert forall|j: int| 1 <= j < items@.len() implies #[trigger] ordered_at(items@, j) by {
                if parent(j) == i {
                    assert(j == left || j == right);
                }
            }
            break ;
        }
        let ghost before = items@;
        exchange(items, i, child);
        proof {
            assert forall|j: int|
                1 <= j < items@.len() && parent(j) != child implies #[trigger] ordered_at(
                items@,
                j,
            ) by {
                if parent(j) == i {
                    assert(j == left || j == right);
                } else {
                    assert(ordered_at(before, j));
                }
            }
            assert forall|j: int|
                1 <= j < items@.len() && parent(j) == child && child >= 1 implies key_le(
                items@[parent(child as int)],
                #[trigger] items@[j],
            ) by {
                assert(ordered_at(before, j));
            }
        }
        i = child;
    }
    proof {
        assert forall|j: int| 1 <= j < items@.len() implies #[trigger] ordered_at(items@, j) by {}
    }
}

/// The entries that wait to be settled, least first.
pub struct Frontier {
    items: Vec<Entry>,
}

impl View for Frontier {
    type V = Multiset<Entry>;

    /// The entries held, each as often as it was pushed and not yet popped.
    closed spec fn view(&self) -> Multiset<Entry> {
        self.items@.to_multiset()
    }
}

impl Frontier {
    /// The entries are laid out as a binary heap.
    pub closed spec fn wf(&self) -> bool {
        heap_ordered(self.items@)
    }

    /// An empty frontier.
    pub fn new() -> (f: Frontier)
        ensures
            f.wf(),
            f@ == Multiset::<Entry>::empty(),
    {
        let f = Frontier { items: Vec::new() };
        proof {
            f.items@.to_multiset_ensures();
            assert(f@ =~= Multiset::<Entry>::empty());
        }
        f
    }

    /// The number of entries held.
    pub fn len(&self) -> (r: usize)
        ensures
            r == self@.len(),
    {
        proof {
            self.items@.to_multiset_ensures();
        }
        self.items.len()
    }

    /// Whether no entry is held.
    pub fn is_empty(&self) -> (r: bool)
        ensures
            r == (self@.len() == 0),
    {
        self.len() == 0
    }

    /// Adds `entry`.
    pub fn push(&mut self, entry: Entry)
        requires
            old(self).wf(),
        ensures
            final(self).wf(),
            final(self)@ == old(self)@.insert(entry),
    {
        proof {
            self.items@.to_multiset_ensures();
        }
        self.items.push(entry);
        let last: usize = self.items.len() - 1;
        proof {
            assert forall|j: int|
                1 <= j < self.items@.len() && j != last implies #[trigger] ordered_at(
                self.items@,
                j,
            ) by {
                assert(ordered_at(old(self).items@, j));
            }
        }
        sift_up(&mut self.items, last);
    }

    /// Takes out a least entry, if there is any.
    pub fn pop(&mut self) -> (r: Option<Entry>)
        requires
            old(self).wf(),
        ensures
            final(self).wf(),
            match r {
                Some(entry) => {
                    &&& old(self)@.count(entry) > 0
                    &&& final(self)@ == old(self)@.remove(entry)
                    &&& forall|other: Entry| old(self)@.count(other) > 0 ==> key_le(entry, other)
                },
                None => old(self)@.len() == 0 && final(self)@ == old(self)@,
            },
    {
        let ghost before = self.items@;
        proof {
            before.to_multiset_ensures();
        }
        if self.items.len() == 0 {
            return None;
        }
        let top = self.items[0];
        proof {
            assert(before.contains(top));
            assert forall|other: Entry| before.to_multiset().count(other) > 0 implies key_le(
                top,
                other,
            ) by {
                assert(before.contains(other));
                let j = choose|j: int| 0 <= j < before.len() && before[j] == other;
                lemma_root_is_least(before, j);
            }
        }
        let last = self.items.pop().unwrap();
        proof {
            assert(self.items@ =~= before.remove(before.len() - 1));
            vstd::seq_lib::to_multiset_remove(before, before.len() - 1);
        }
        if self.items.len() > 0 {
            let ghost shorter = self.items@;
            self.items[0] = last;
            proof {
                broadcast use vstd::multiset::group_multiset_axioms;

                vstd::seq_lib::to_multiset_update(shorter, 0, last);
                assert(self.items@.to_multiset() =~= before.to_multiset().remove(top));
                assert forall|j: int|
                    1 <= j < self.items@.len() && parent(j) != 0 implies #[trigger] ordered_at(
                    self.items@,
                    j,
                ) by {
                    assert(ordered_at(before, j));
                }
            }
            sift_down(&mut self.items);
        } else {
            proof {
                assert(before.len() == 1);
                assert(last == top);
            }
        }
        Some(top)
    }
}

} // verus!
