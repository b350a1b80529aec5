//! A priority queue that hands out the entry with the least number first.

use std::cmp::Ordering;

use vstd::multiset::lemma_multiset_empty_len;
use vstd::prelude::*;
use vstd::seq_lib::{
    to_multiset_build, to_multiset_contains, to_multiset_insert, to_multiset_len,
    to_multiset_remove,
};

verus! {

/// A value that is ordered, and compared for equality, by a number alone.
#[derive(Clone, Copy, Debug, Eq)]
pub struct OrdByFirst<T>(pub u64, pub T);

impl<T> PartialEq for OrdByFirst<T> {
    fn eq(&self, other: &Self) -> (equal: bool) {
        self.0 == other.0
    }
}

impl<T> vstd::std_specs::cmp::PartialEqSpecImpl for OrdByFirst<T> {
    open spec fn obeys_eq_spec() -> bool {
        true
    }

    open spec fn eq_spec(&self, other: &Self) -> bool {
        self.0 == other.0
    }
}

impl<T> PartialOrd for OrdByFirst<T> {
    fn partial_cmp(&self, other: &Self) -> (order: Option<Ordering>) {
        Some(self.cmp(other))
    }
}

impl<T> vstd::std_specs::cmp::PartialOrdSpecImpl for OrdByFirst<T> {
    open spec fn obeys_partial_cmp_spec() -> bool {
        true
    }

    open spec fn partial_cmp_spec(&self, other: &Self) -> Option<Ordering> {
        Some(self.order(other))
    }
}

impl<T> OrdByFirst<T> {
    /// How the numbers of two values compare.
    pub open spec fn order(&self, other: &Self) -> Ordering {
        if self.0 < other.0 {
            Ordering::Less
        } else if self.0 == other.0 {
            Ordering::Equal
        } else {
            Ordering::Greater
        }
    }

    /// Compares the numbers of two values.
    pub fn cmp(&self, other: &Self) -> (order: Ordering)
        ensures
            order == self.order(other),
            order == Ordering::Less <==> self.0 < other.0,
            order == Ordering::Equal <==> self.0 == other.0,
            order == Ordering::Greater <==> self.0 > other.0,
    {
        if self.0 < other.0 {
            Ordering::Less
        } else if self.0 == other.0 {
            Ordering::Equal
        } else {
            Ordering::Greater
        }
    }
}

/// The position above `i` in the heap.
pub open spec fn parent(i: int) -> int {
    (i - 1) / 2
}

/// The lesser of the positions below `i`, and of equal ones the left.
pub open spec fn lesser_child<T>(items: Seq<OrdByFirst<T>>, i: int) -> int {
    if 2 * i + 2 < items.len() && items[2 * i + 2].0 < items[2 * i + 1].0 {
        2 * i + 2
    } else {
        2 * i + 1
    }
}

/// The entries with those at `i` and `j` exchanged.
pub open spec fn swapped<T>(items: Seq<OrdByFirst<T>>, i: int, j: int) -> Seq<OrdByFirst<T>> {
    items.update(i, items[j]).update(j, items[i])
}

/// The entries after that at `i` has gone up past all that come after it.
pub open spec fn raised<T>(items: Seq<OrdByFirst<T>>, i: int) -> Seq<OrdByFirst<T>>
    decreases i,
{
    if 0 < i < items.len() && items[i].0 < items[parent(i)].0 {
        raised(swapped(items, i, parent(i)), parent(i))
    } else {
        items
    }
}

/// The entries after that at `i` has gone down past all that come before it.
pub open spec fn lowered<T>(items: Seq<OrdByFirst<T>>, i: int) -> Seq<OrdByFirst<T>>
    decreases items.len() - i,
{
    let child = lesser_child(items, i);
    if 0 <= i && child < items.len() && items[child].0 < items[i].0 {
        lowered(swapped(items, i, child), child)
    } else {
        items
    }
}

/// The entries after `item` has been added.
#[verifier::opaque]
pub open spec fn pushed<T>(items: Seq<OrdByFirst<T>>, item: OrdByFirst<T>) -> Seq<OrdByFirst<T>> {
    raised(items.push(item), items.len() as int)
}

/// The entries after that on top has been taken out.
#[verifier::opaque]
pub open spec fn popped<T>(items: Seq<OrdByFirst<T>>) -> Seq<OrdByFirst<T>> {
    if items.len() <= 1 {
        seq![]
    } else {
        lowered(items.drop_last().update(0, items.last()), 0)
    }
}

/// No entry comes before the one above it.
#[verifier::opaque]
pub open spec fn ordered<T>(items: Seq<OrdByFirst<T>>) -> bool {
    forall|i: int| 0 < i < items.len() ==> items[parent(i)].0 <= (#[trigger] items[i]).0
}

/// As `ordered`, except that the entry at `hole` may come before the one above it.
spec fn ordered_above<T>(items: Seq<OrdByFirst<T>>, hole: int) -> bool {
    &&& forall|i: int|
        0 < i < items.len() && i != hole ==> items[parent(i)].0 <= (#[trigger] items[i]).0
    &&& forall|i: int|
        0 < hole && 0 < i < items.len() && parent(i) == hole ==> items[parent(hole)].0 <= (
        #[trigger] items[i]).0
}

/// As `ordered`, except that the entry at `hole` may come after those below it.
spec fn ordered_below<T>(items: Seq<OrdByFirst<T>>, hole: int) -> bool {
    &&& forall|i: int|
        0 < i < items.len() && parent(i) != hole ==> items[parent(i)].0 <= (#[trigger] items[i]).0
    &&& forall|i: int|
        0 < hole && 0 < i < items.len() && parent(i) == hole ==> items[parent(hole)].0 <= (
        #[trigger] items[i]).0
}

/// The entry on top comes before all others.
pub proof fn lemma_top_least<T>(items: Seq<OrdByFirst<T>>, i: int)
    requires
        ordered(items),
        0 <= i < items.len(),
    ensures
        items[0].0 <= items[i].0,
    decreases i,
{
    reveal(ordered);
    if i > 0 {
        assert(items[parent(i)].0 <= items[i].0);
        lemma_top_least(items, parent(i));
    }
}

/// Exchanging an entry with the lesser of those below it moves the hole down.
proof fn lemma_swap_down<T>(items: Seq<OrdByFirst<T>>, hole: int, least: int)
    requires
        ordered_below(items, hole),
        0 <= hole < least < items.len(),
        parent(least) == hole,
        items[least].0 < items[hole].0,
        forall|i: int|
            0 < i < items.len() && parent(i) == hole ==> items[least].0 <= (#[trigger] items[i]).0,
    ensures
        ordered_below(swapped(items, hole, least), least),
{
    let after = swapped(items, hole, least);
    assert forall|i: int| 0 < i < after.len() && parent(i) != least implies after[parent(i)].0 <= (
    #[trigger] after[i]).0 by {
        assert(items[parent(i)].0 <= items[i].0 || parent(i) == hole);
        if i != least && i != hole {
            assert(after[i] == items[i]);
        }
    }
    assert forall|i: int|
        0 < least && 0 < i < after.len() && parent(i) == least implies after[parent(least)].0 <= (
    #[trigger] after[i]).0 by {
        assert(items[parent(i)].0 <= items[i].0);
        assert(after[i] == items[i]);
    }
}

/// Putting `x` at position `i` exchanges the entry there for `x`.
proof fn lemma_update_multiset<A>(items: Seq<A>, i: int, x: A)
    requires
        0 <= i < items.len(),
    ensures
        items.update(i, x).to_multiset() =~= items.to_multiset().remove(items[i]).insert(x),
{
    assert(items.update(i, x) =~= items.remove(i).insert(i, x));
    to_multiset_remove(items, i);
    to_multiset_insert(items.remove(i), i, x);
}

/// Exchanging two entries keeps the entries as a whole.
proof fn lemma_swap_multiset<T>(items: Seq<OrdByFirst<T>>, i: int, j: int)
    requires
        0 <= i < items.len(),
        0 <= j < items.len(),
    ensures
        swapped(items, i, j).to_multiset() =~= items.to_multiset(),
{
    let once = items.update(i, items[j]);
    lemma_update_multiset(items, i, items[j]);
    lemma_update_multiset(once, j, items[i]);
    to_multiset_contains(items, items[i]);
    to_multiset_contains(items, items[j]);
    assert(items.contains(items[i]));
    assert(items.contains(items[j]));
    if i == j {
        assert(once.update(j, items[i]) =~= items);
    } else {
        assert(once[j] == items[j]);
    }
}

/// Going up puts the entries in order and keeps them as a whole.
proof fn lemma_raised<T>(items: Seq<OrdByFirst<T>>, i: int)
    requires
        0 <= i < items.len(),
        ordered_above(items, i),
    ensures
        ordered(raised(items, i)),
        raised(items, i).to_multiset() == items.to_multiset(),
    decreases i,
{
    reveal(ordered);
    if i > 0 && items[i].0 < items[parent(i)].0 {
        let above = parent(i);
        let after = swapped(items, i, above);
        lemma_swap_multiset(items, i, above);
        assert forall|k: int| 0 < k < after.len() && k != above implies after[parent(k)].0 <= (
        #[trigger] after[k]).0 by {
            if k != i {
                assert(items[parent(k)].0 <= items[k].0);
            }
        }
        assert forall|k: int|
            0 < above && 0 < k < after.len() && parent(k) == above implies after[parent(
            above,
        )].0 <= (#[trigger] after[k]).0 by {
            assert(items[parent(above)].0 <= items[above].0);
            if k != i {
                assert(items[parent(k)].0 <= items[k].0);
            }
        }
        lemma_raised(after, above);
    }
}

/// Going down puts the entries in order and keeps them as a whole.
proof fn lemma_lowered<T>(items: Seq<OrdByFirst<T>>, i: int)
    requires
        0 <= i < items.len(),
        ordered_below(items, i),
    ensures
        ordered(lowered(items, i)),
        lowered(items, i).to_multiset() == items.to_multiset(),
    decreases items.len() - i,
{
    reveal(ordered);
    let child = lesser_child(items, i);
    assert forall|k: int| 0 < k < items.len() && parent(k) == i implies child < items.len()
        && items[child].0 <= (#[trigger] items[k]).0 by {
        assert(k == 2 * i + 1 || k == 2 * i + 2);
    }
    if child < items.len() && items[child].0 < items[i].0 {
        lemma_swap_multiset(items, i, child);
        lemma_swap_down(items, i, child);
        lemma_lowered(swapped(items, i, child), child);
    }
}

/// Adding an entry keeps the heap in order, and adds nothing else.
pub proof fn lemma_pushed<T>(items: Seq<OrdByFirst<T>>, item: OrdByFirst<T>)
    requires
        ordered(items),
    ensures
        ordered(pushed(items, item)),
        pushed(items, item).to_multiset() == items.to_multiset().insert(item),
{
    reveal(ordered);
    reveal(pushed);
    to_multiset_build(items, item);
    lemma_raised(items.push(item), items.len() as int);
}

/// Taking out the entry on top keeps the heap in order, and takes out nothing else.
pub proof fn lemma_popped<T>(items: Seq<OrdByFirst<T>>)
    requires
        ordered(items),
        items.len() > 0,
    ensures
        ordered(popped(items)),
        popped(items).to_multiset() == items.to_multiset().remove(items[0]),
{
    reveal(ordered);
    reveal(popped);
    let top = items[0];
    let last = items.last();
    let rest = items.drop_last();
    assert(rest.push(last) =~= items);
    to_multiset_build(rest, last);
    if rest.len() > 0 {
        let moved = rest.update(0, last);
        lemma_update_multiset(rest, 0, last);
        to_multiset_contains(rest, top);
        assert(rest[0] == top);
        assert(rest.contains(top));
        assert forall|i: int| 0 < i < moved.len() && parent(i) != 0 implies moved[parent(i)].0 <= (
        #[trigger] moved[i]).0 by {
            assert(items[parent(i)].0 <= items[i].0);
        }
        lemma_lowered(moved, 0);
    } else {
        to_multiset_len(rest);
        lemma_multiset_empty_len(rest.to_multiset());
        assert(rest =~= seq![]);
    }
    assert(popped(items).to_multiset() =~= items.to_multiset().remove(top));
}

/// A heap of one entry.
pub proof fn lemma_pushed_first<T>(item: OrdByFirst<T>)
    ensures
        ordered(Seq::<OrdByFirst<T>>::empty()),
        pushed(seq![], item) == seq![item],
{
    reveal(ordered);
    reveal(pushed);
    assert(Seq::<OrdByFirst<T>>::empty().push(item) =~= seq![item]);
}

/// After an entry has been added, it is there beside all that were.
pub proof fn lemma_pushed_contains<T>(items: Seq<OrdByFirst<T>>, item: OrdByFirst<T>)
    requires
        ordered(items),
    ensures
        forall|x: OrdByFirst<T>| #[trigger]
            pushed(items, item).contains(x) <==> items.contains(x) || x == item,
        pushed(items, item).len() == items.len() + 1,
{
    broadcast use vstd::multiset::group_multiset_axioms;

    lemma_pushed(items, item);
    to_multiset_len(items);
    to_multiset_len(pushed(items, item));
    assert forall|x: OrdByFirst<T>| #[trigger] pushed(items, item).contains(x) <==> items.contains(
        x,
    ) || x == item by {
        to_multiset_contains(items, x);
        to_multiset_contains(pushed(items, item), x);
    }
}

/// After the entry on top has been taken out, the others are there, and no more.
pub proof fn lemma_popped_contains<T>(items: Seq<OrdByFirst<T>>)
    requires
        ordered(items),
        items.len() > 0,
    ensures
        forall|x: OrdByFirst<T>| #[trigger] popped(items).contains(x) ==> items.contains(x),
        forall|x: OrdByFirst<T>| #[trigger]
            items.contains(x) ==> x == items[0] || popped(items).contains(x),
        popped(items).len() + 1 == items.len(),
{
    broadcast use vstd::multiset::group_multiset_axioms;

    lemma_popped(items);
    to_multiset_len(items);
    to_multiset_len(popped(items));
    assert(items.contains(items[0]));
    to_multiset_contains(items, items[0]);
    assert forall|x: OrdByFirst<T>| #[trigger] popped(items).contains(x) implies items.contains(
        x,
    ) by {
        to_multiset_contains(items, x);
        to_multiset_contains(popped(items), x);
    }
    assert forall|x: OrdByFirst<T>| #[trigger] items.contains(x) implies x == items[0] || popped(
        items,
    ).contains(x) by {
        to_multiset_contains(items, x);
        to_multiset_contains(popped(items), x);
    }
}

/// A binary heap with the least number on top.
pub struct MinHeap<T> {
    items: Vec<OrdByFirst<T>>,
}

impl<T> View for MinHeap<T> {
    type V = Seq<OrdByFirst<T>>;

    /// The entries from the top down, level by level.
    closed spec fn view(&self) -> Seq<OrdByFirst<T>> {
        self.items@
    }
}

impl<T: Copy> MinHeap<T> {
    /// The entries are in heap order.
    pub open spec fn wf(&self) -> bool {
        ordered(self@)
    }

    /// A heap without entries.
    pub fn new() -> (heap: Self)
        ensures
            heap.wf(),
            heap@ == Seq::<OrdByFirst<T>>::empty(),
    {
        proof {
            reveal(ordered);
        }
        MinHeap { items: Vec::new() }
    }

    /// Adds an entry.
    pub fn push(&mut self, item: OrdByFirst<T>)
        requires
            old(self).wf(),
        ensures
            final(self).wf(),
            final(self)@ == pushed(old(self)@, item),
            final(self)@.to_multiset() == old(self)@.to_multiset().insert(item),
    {
        proof {
            reveal(pushed);
            lemma_pushed(self@, item);
        }
        let mut i: usize = self.items.len();
        self.items.push(item);
        while i > 0
            invariant
                0 <= i < self.items@.len(),
                raised(self.items@, i as int) == pushed(old(self)@, item),
            ensures
                self.items@ == pushed(old(self)@, item),
            decreases i,
        {
            let above: usize = (i - 1) / 2;
            if self.items[i] < self.items[above] {
                let lower: OrdByFirst<T> = self.items[i];
                let upper: OrdByFirst<T> = self.items[above];
                self.items[i] = upper;
                self.items[above] = lower;
                i = above;
            } else {
                break;
            }
        }
    }

    /// Takes out an entry with the least number: the one on top.
    pub fn pop(&mut self) -> (item: Option<OrdByFirst<T>>)
        requires
            old(self).wf(),
        ensures
            final(self).wf(),
            match item {
                Some(item) => {
                    &&& old(self)@.len() > 0
                    &&& item == old(self)@[0]
                    &&& forall|i: int|
                        0 <= i < old(self)@.len() ==> item.0 <= (#[trigger] old(self)@[i]).0
                    &&& final(self)@ == popped(old(self)@)
                    &&& final(self)@.to_multiset() == old(self)@.to_multiset().remove(item)
                },
                None => {
                    &&& old(self)@.len() == 0
                    &&& final(self)@ == old(self)@
                },
            },
    {
        if self.items.len() == 0 {
            return None;
        }
        proof {
            reveal(popped);
            lemma_popped(self@);
            assert forall|i: int| 0 <= i < self@.len() implies self@[0].0 <= (
            #[trigger] self@[i]).0 by {
                lemma_top_least(self@, i);
            }
        }
        let top: OrdByFirst<T> = self.items[0];
        let last: OrdByFirst<T> = self.items[self.items.len() - 1];
        self.items.pop();
        assert(self.items@ =~= old(self)@.drop_last());
        if self.items.len() > 0 {
            self.items[0] = last;
            self.sift_down();
        }
        assert(self@ =~= popped(old(self)@));
        Some(top)
    }

    /// Moves the entry on top down to where it belongs.
    fn sift_down(&mut self)
        requires
            old(self)@.len() > 0,
        ensures
            final(self)@ == lowered(old(self)@, 0),
    {
        let mut i: usize = 0;
        loop
            invariant
                0 <= i < self.items@.len(),
                lowered(self.items@, i as int) == lowered(old(self)@, 0),
            ensures
                self.items@ == lowered(old(self)@, 0),
            decreases self.items@.len() - i,
        {
            let len: usize = self.items.len();
            if i >= len / 2 {
                break;
            }
            let left: usize = 2 * i + 1;
            let mut least: usize = left;
            if left + 1 < len && self.items[left + 1] < self.items[left] {
                least = left + 1;
            }
            assert(least == lesser_child(self.items@, i as int));
            if self.items[least] < self.items[i] {
                let lower: OrdByFirst<T> = self.items[least];
                let upper: OrdByFirst<T> = self.items[i];
                self.items[i] = lower;
                self.items[least] = upper;
                i = least;
            } else {
                break;
            }
        }
    }
}

} // verus!
