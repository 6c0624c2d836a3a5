//! The search frontier: a queue that hands out its cheapest entry first.
//!
//! The entries are kept in a binary heap laid out in a vector: the entry at
//! index `i` costs no less than the one at index `(i - 1) / 2`, its parent,
//! so the cheapest entry is always at the front.

use vstd::prelude::*;
use vstd::multiset::Multiset;
use vstd::seq_lib::to_multiset_update;
use crate::direction::Direction;
use crate::posn::Posn;

verus! {

broadcast use {vstd::seq_lib::group_to_multiset_ensures, vstd::multiset::group_multiset_axioms};

/// A cell waiting to be searched: what it costs to get there, and the
/// direction that leads back to the cell it was reached from.
#[derive(Copy, Clone, Debug, PartialEq, Eq, Structural)]
pub struct HeapEntry {
    pub cost: u64,
    pub pos: Posn,
    pub from: Direction,
}

/// The index of the parent of the entry at index `i`.
pub open spec fn parent(i: int) -> int {
    (i - 1) / 2
}

/// Whether the entry at index `i` costs no less than its parent.
pub open spec fn in_order(entries: Seq<HeapEntry>, i: int) -> bool {
    entries[parent(i)].cost <= entries[i].cost
}

/// Whether `entries` is laid out as a heap: no entry costs less than its
/// parent.
pub open spec fn is_heap(entries: Seq<HeapEntry>) -> bool {
    forall|i: int| 1 <= i < entries.len() ==> #[trigger] in_order(entries, i)
}

/// Whether `entries` is a heap but for the entry at `hole`, which may cost
/// less than its parent; the children of `hole` cost no less than the
/// parent of `hole`.
spec fn is_heap_but_above(entries: Seq<HeapEntry>, hole: int) -> bool {
    &&& forall|i: int| 1 <= i < entries.len() && i != hole ==> #[trigger] in_order(entries, i)
    &&& forall|i: int|
        1 <= i < entries.len() && hole >= 1 && #[trigger] parent(i) == hole ==> entries[parent(
            hole,
        )].cost <= entries[i].cost
}

/// Whether `entries` is a heap but for the entry at `hole`, which may cost
/// more than its children; the children of `hole` cost no less than the
/// parent of `hole`.
spec fn is_heap_but_below(entries: Seq<HeapEntry>, hole: int) -> bool {
    &&& forall|i: int|
        1 <= i < entries.len() && parent(i) != hole ==> #[trigger] in_order(entries, i)
    &&& forall|i: int|
        1 <= i < entries.len() && hole >= 1 && #[trigger] parent(i) == hole ==> entries[parent(
            hole,
        )].cost <= entries[i].cost
}

/// The entry at the front of a heap is one of least cost.
pub proof fn lemma_front_is_least(entries: Seq<HeapEntry>, i: int)
    requires
        is_heap(entries),
        0 <= i < entries.len(),
    ensures
        entries[0].cost <= entries[i].cost,
    decreases i,
{
    if i >= 1 {
        assert(in_order(entries, i));
        lemma_front_is_least(entries, parent(i));
    }
}

/// Exchanging two entries leaves the same entries.
proof fn lemma_exchange(entries: Seq<HeapEntry>, i: int, j: int)
    requires
        0 <= i < entries.len(),
        0 <= j < entries.len(),
    ensures
        entries.update(i, entries[j]).update(j, entries[i]).to_multiset()
            == entries.to_multiset(),
{
    let half = entries.update(i, entries[j]);
    to_multiset_update(entries, i, entries[j]);
    to_multiset_update(half, j, entries[i]);
    assert(half[j] == entries[j] || i == j);
    assert(half.update(j, entries[i]).to_multiset() =~= entries.to_multiset());
}

/// Exchanges the entries at `i` and `j`.
fn exchange(entries: &mut Vec<HeapEntry>, i: usize, j: usize)
    requires
        i < old(entries)@.len(),
        j < old(entries)@.len(),
    ensures
        final(entries)@ == old(entries)@.update(i as int, old(entries)@[j as int]).update(
            j as int,
            old(entries)@[i as int],
        ),
        final(entries)@.to_multiset() == old(entries)@.to_multiset(),
{
    let a = entries[i];
    let b = entries[j];
    entries[i] = b;
    entries[j] = a;
    proof {
        lemma_exchange(old(entries)@, i as int, j as int);
    }
}

/// Moves the entry at `hole` up until it costs no less than its parent.
fn sift_up(entries: &mut Vec<HeapEntry>, hole: usize)
    requires
        hole < old(entries)@.len(),
        is_heap_but_above(old(entries)@, hole as int),
    ensures
        is_heap(final(entries)@),
        final(entries)@.to_multiset() == old(entries)@.to_multiset(),
{
    let mut k = hole;
    while k > 0 && entries[k].cost < entries[(k - 1) / 2].cost
        invariant
            k < entries@.len(),
            is_heap_but_above(entries@, k as int),
            entries@.to_multiset() == old(entries)@.to_multiset(),
        decreases k,
    {
        let up = (k - 1) / 2;
        let ghost before = entries@;
        exchange(entries, k, up);
        proof {
            let after = entries@;
            assert forall|i: int| 1 <= i < after.len() && i != up implies #[trigger] in_order(
                after,
                i,
            ) by {
                if i == k {
                } else if parent(i) == k {
                    assert(before[parent(k as int)].cost <= before[i].cost);
                } else if parent(i) == up {
                    assert(in_order(before, i));
                } else {
                    assert(in_order(before, i));
                }
            }
            assert forall|i: int|
                1 <= i < after.len() && up >= 1 && #[trigger] parent(i) == up implies after[parent(
                up as int,
            )].cost <= after[i].cost by {
                assert(in_order(before, up as int));
                if i != k {
                    assert(in_order(before, i));
                }
            }
        }
        k = up;
    }
    proof {
        assert forall|i: int| 1 <= i < entries@.len() implies #[trigger] in_order(entries@, i) by {}
    }
}

/// Moves the entry at the front down until it costs no more than its
/// children.
fn sift_down(entries: &mut Vec<HeapEntry>)
    requires
        old(entries)@.len() > 0,
        is_heap_but_below(old(entries)@, 0),
    ensures
        is_heap(final(entries)@),
        final(entries)@.to_multiset() == old(entries)@.to_multiset(),
{
    let mut k: usize = 0;
    let len = entries.len();
    loop
        invariant_except_break
            len == entries@.len(),
            k < len,
            is_heap_but_below(entries@, k as int),
            entries@.to_multiset() == old(entries)@.to_multiset(),
        ensures
            is_heap(entries@),
            entries@.to_multiset() == old(entries)@.to_multiset(),
        decreases len - k,
    {
        if k >= (len - 1) / 2 + 1 || 2 * k + 1 >= len {
            proof {
                assert forall|i: int| 1 <= i < entries@.len() implies #[trigger] in_order(
                    entries@,
                    i,
                ) by {
                    assert(parent(i) != k);
                }
            }
            break ;
        }
        let left = 2 * k + 1;
        let right = left + 1;
        let least = if right < len && entries[right].cost < entries[left].cost {
            right
        } else {
            left
        };
        if entries[k].cost <= entries[least].cost {
            proof {
                assert forall|i: int| 1 <= i < entries@.len() implies #[trigger] in_order(
                    entries@,
                    i,
                ) by {
                    if parent(i) == k {
                        assert(i == left || i == right);
                    }
                }
            }
            break ;
        }
        let ghost before = entries@;
        exchange(entries, k, least);
        proof {
            let after = entries@;
            assert forall|i: int|
                1 <= i < after.len() && parent(i) != least implies #[trigger] in_order(
                after,
                i,
            ) by {
                if parent(i) == k {
                    assert(i == left || i == right);
                } else if i == k {
                    assert(parent(least as int) == k);
                    assert(before[parent(k as int)].cost <= before[least as int].cost);
                } else {
                    assert(in_order(before, i));
                }
            }
            assert forall|i: int|
                1 <= i < after.len() && least >= 1 && #[trigger] parent(i) == least implies after[parent(
                least as int,
            )].cost <= after[i].cost by {
                assert(in_order(before, i));
            }
        }
        k = least;
    }
}

/// A queue of entries that hands out one of least cost first. Among
/// entries of equal cost the order is not fixed.
pub struct Frontier {
    entries: Vec<HeapEntry>,
}

impl View for Frontier {
    type V = Multiset<HeapEntry>;

    /// The entries that wait in the queue.
    closed spec fn view(&self) -> Multiset<HeapEntry> {
        self.entries@.to_multiset()
    }
}

impl Frontier {
    #[verifier::type_invariant]
    spec fn heaped(self) -> bool {
        is_heap(self.entries@)
    }

    pub fn new() -> (queue: Frontier)
        ensures
            queue@ == Multiset::<HeapEntry>::empty(),
    {
        let queue = Frontier { entries: Vec::new() };
        assert(queue.entries@ =~= Seq::<HeapEntry>::empty());
        queue
    }

    pub fn push(&mut self, entry: HeapEntry)
        ensures
            final(self)@ == old(self)@.insert(entry),
    {
        proof {
            use_type_invariant(&*self);
        }
        let mut entries: Vec<HeapEntry> = Vec::new();
        std::mem::swap(&mut entries, &mut self.entries);
        entries.push(entry);
        proof {
            let pushed = entries@;
            let hole = pushed.len() - 1;
            assert forall|i: int| 1 <= i < pushed.len() && i != hole implies #[trigger] in_order(
                pushed,
                i,
            ) by {
                assert(in_order(old(self).entries@, i));
            }
        }
        let hole = entries.len() - 1;
        sift_up(&mut entries, hole);
        self.entries = entries;
    }

    /// Takes an entry of least cost out of the queue, if it has any.
    pub fn pop(&mut self) -> (popped: Option<HeapEntry>)
        ensures
            popped is None <==> old(self)@.len() == 0,
            popped is None ==> final(self)@ == old(self)@,
            popped matches Some(entry) ==> {
                &&& old(self)@.contains(entry)
                &&& final(self)@ == old(self)@.remove(entry)
                &&& forall|other: HeapEntry|
                    old(self)@.contains(other) ==> entry.cost <= #[trigger] other.cost
            },
    {
        proof {
            use_type_invariant(&*self);
        }
        if self.entries.len() == 0 {
            return None;
        }
        let ghost before = self.entries@;
        let mut entries: Vec<HeapEntry> = Vec::new();
        std::mem::swap(&mut entries, &mut self.entries);
        let front = entries[0];
        let last = entries.pop().unwrap();
        proof {
            assert(before.contains(front));
            assert forall|other: HeapEntry| before.to_multiset().contains(other) implies front.cost
                <= #[trigger] other.cost by {
                assert(before.contains(other));
                let j = choose|j: int| 0 <= j < before.len() && before[j] == other;
                lemma_front_is_least(before, j);
            }
            assert(entries@ == before.remove(before.len() - 1));
        }
        if entries.len() > 0 {
            entries[0] = last;
            proof {
                let shrunk = before.remove(before.len() - 1);
                to_multiset_update(shrunk, 0, last);
                assert(entries@.to_multiset() =~= before.to_multiset().remove(front));
                assert forall|i: int|
                    1 <= i < entries@.len() && parent(i) != 0 implies #[trigger] in_order(
                    entries@,
                    i,
                ) by {
                    assert(in_order(before, i));
                }
            }
            sift_down(&mut entries);
        } else {
            proof {
                assert(entries@.to_multiset() =~= before.to_multiset().remove(front));
            }
        }
        self.entries = entries;
        Some(front)
    }
}

} // verus!
