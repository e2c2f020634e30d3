//! The heap structure and its operations.
//!
//! Elements live in a vector indexed from 0; the children of the node at
//! index `i` sit at `2i + 1` and `2i + 2`, so its parent sits at
//! `(i - 1) / 2`. The shape invariant `wf` says that no element outranks
//! its parent under the installed comparison rule, which places a
//! highest-priority element at index 0.

use vstd::prelude::*;

use crate::order::MaxCmp;
use crate::order::MinCmp;
use crate::order::Priority;

verus! {

broadcast use vstd::seq_lib::group_to_multiset_ensures;

/// Index of the parent of the node at index `i` (meaningful for `i >= 1`).
pub open spec fn parent_of(i: int) -> int {
    (i - 1) / 2
}

/// Every non-root element fails to outrank its parent.
pub open spec fn heap_ordered<T, C: Priority<T>>(c: C, s: Seq<T>) -> bool {
    forall|i: int| 1 <= i < s.len() ==> !c.outranks(#[trigger] s[i], s[parent_of(i)])
}

/// The heap shape holds at every edge except possibly the one from `x` up
/// to its parent (the state sift-up restores).
pub open spec fn ordered_except_up<T, C: Priority<T>>(c: C, s: Seq<T>, x: int) -> bool {
    forall|i: int| 1 <= i < s.len() && i != x ==> !c.outranks(#[trigger] s[i], s[parent_of(i)])
}

/// The heap shape holds at every edge except possibly those from the
/// children of `x` up to `x` (the state sift-down restores).
pub open spec fn ordered_except_down<T, C: Priority<T>>(c: C, s: Seq<T>, x: int) -> bool {
    forall|i: int|
        1 <= i < s.len() && parent_of(i) != x ==> !c.outranks(#[trigger] s[i], s[parent_of(i)])
}

/// The children of `x` fail to outrank the parent of `x`, so a swap across
/// `x` cannot break the edges below it.
pub open spec fn children_bounded<T, C: Priority<T>>(c: C, s: Seq<T>, x: int) -> bool {
    x > 0 ==> forall|i: int|
        1 <= i < s.len() && parent_of(i) == x ==> !c.outranks(#[trigger] s[i], s[parent_of(x)])
}

/// The sequence `s` with the values at `i` and `j` exchanged.
pub open spec fn swapped<T>(s: Seq<T>, i: int, j: int) -> Seq<T> {
    s.update(i, s[j]).update(j, s[i])
}

/// An array-backed binary heap ordered by a pluggable comparison rule.
pub struct Heap<T, C> {
    items: Vec<T>,
    comparator: C,
}

impl<T, C> View for Heap<T, C> {
    type V = Seq<T>;

    closed spec fn view(&self) -> Seq<T> {
        self.items@
    }
}

impl<T: Copy, C: Priority<T>> Heap<T, C> {
    /// The comparison rule this heap was built with.
    pub closed spec fn rule(self) -> C {
        self.comparator
    }

    /// Does `a` sit strictly above `b` under this heap's rule?
    pub open spec fn outranks(self, a: T, b: T) -> bool {
        self.rule().outranks(a, b)
    }

    /// Shape invariant: no element outranks its parent.
    pub closed spec fn wf(self) -> bool {
        heap_ordered(self.comparator, self.items@)
    }

    /// What `wf` says, stated over the public view: after any sequence of
    /// operations that keep the heap well formed, every non-root element
    /// fails to outrank its parent.
    pub proof fn lemma_wf_heap_ordered(self)
        requires
            self.wf(),
        ensures
            forall|i: int|
                1 <= i < self@.len() ==> !self.outranks(#[trigger] self@[i], self@[parent_of(i)]),
    {
    }

    /// An empty heap ordered by `comparator`.
    pub fn new(comparator: C) -> (h: Self)
        ensures
            h@ == Seq::<T>::empty(),
            h.wf(),
            h.rule() == comparator,
    {
        Heap { items: Vec::new(), comparator }
    }

    /// Number of elements currently stored.
    pub fn len(&self) -> (n: usize)
        ensures
            n == self@.len(),
    {
        self.items.len()
    }

    /// Does the heap hold no elements?
    pub fn is_empty(&self) -> (e: bool)
        ensures
            e == (self@.len() == 0),
    {
        self.len() == 0
    }

    /// Exchange the elements at `i` and `j`.
    fn swap_items(&mut self, i: usize, j: usize)
        requires
            i < old(self).items@.len(),
            j < old(self).items@.len(),
        ensures
            final(self).comparator == old(self).comparator,
            final(self).items@ == swapped(old(self).items@, i as int, j as int),
            final(self).items@.len() == old(self).items@.len(),
            final(self).items@.to_multiset() == old(self).items@.to_multiset(),
    {
        let ghost s = self.items@;
        let a: T = self.items[i];
        let b: T = self.items[j];
        self.items[i] = b;
        self.items[j] = a;
        proof {
            lemma_swap_multiset(s, i as int, j as int);
        }
    }

    /// Index of the parent of the node at `idx`.
    fn parent_idx(idx: usize) -> (p: usize)
        requires
            idx >= 1,
        ensures
            p == parent_of(idx as int),
    {
        (idx - 1) / 2
    }

    /// Does the element at `idx` outrank its parent, so that sift-up must
    /// lift it one level?
    fn outranks_parent(&self, idx: usize) -> (b: bool)
        requires
            idx < self.items@.len(),
        ensures
            b == (idx > 0 && self.comparator.outranks(
                self.items@[idx as int],
                self.items@[parent_of(idx as int)],
            )),
    {
        if idx == 0 {
            return false;
        }
        let p = Self::parent_idx(idx);
        self.comparator.higher_priority(&self.items[idx], &self.items[p])
    }

    /// Move the element at `idx` up toward the root until it no longer
    /// outranks its parent, restoring the heap shape.
    fn sift_up(&mut self, idx: usize)
        requires
            idx < old(self).items@.len(),
            ordered_except_up(old(self).comparator, old(self).items@, idx as int),
            children_bounded(old(self).comparator, old(self).items@, idx as int),
        ensures
            final(self).comparator == old(self).comparator,
            final(self).items@.len() == old(self).items@.len(),
            final(self).items@.to_multiset() == old(self).items@.to_multiset(),
            heap_ordered(final(self).comparator, final(self).items@),
    {
        let ghost orig = self.items@;
        let ghost c = self.comparator;
        let mut idx = idx;
        while self.outranks_parent(idx)
            invariant
                idx < self.items@.len(),
                self.comparator == c,
                self.items@.len() == orig.len(),
                self.items@.to_multiset() == orig.to_multiset(),
                ordered_except_up(c, self.items@, idx as int),
                children_bounded(c, self.items@, idx as int),
            decreases idx,
        {
            let p = Self::parent_idx(idx);
            proof {
                lemma_sift_up_step(c, self.items@, idx as int);
            }
            self.swap_items(idx, p);
            idx = p;
        }
    }

    /// Insert `value`, growing the heap by one element.
    pub fn add(&mut self, value: T)
        requires
            old(self).wf(),
        ensures
            final(self).wf(),
            final(self).rule() == old(self).rule(),
            final(self)@.len() == old(self)@.len() + 1,
            final(self)@.to_multiset() == old(self)@.to_multiset().insert(value),
    {
        self.items.push(value);
        let leaf = self.items.len() - 1;
        proof {
            let s = self.items@;
            assert forall|i: int| 1 <= i < s.len() && i != leaf as int implies !self.comparator
                .outranks(#[trigger] s[i], s[parent_of(i)]) by {
                assert(parent_of(i) < i);
                assert(s[i] == old(self).items@[i]);
                assert(s[parent_of(i)] == old(self).items@[parent_of(i)]);
            }
            assert forall|i: int| 1 <= i < s.len() && parent_of(i) == leaf as int implies false by {
                assert(i >= 2 * (leaf as int) + 1);
            }
        }
        self.sift_up(leaf);
    }

    /// Does the node at `idx` have at least a left child?
    fn children_present(&self, idx: usize) -> (b: bool)
        ensures
            b == (2 * (idx as int) + 1 < self.items@.len()),
    {
        idx < self.items.len() / 2
    }

    /// Index of the left child of the node at `idx`.
    fn left_child_idx(idx: usize) -> (l: usize)
        requires
            2 * (idx as int) + 1 <= usize::MAX,
        ensures
            l == 2 * (idx as int) + 1,
    {
        2 * idx + 1
    }

    /// Index of the right child of the node at `idx`.
    fn right_child_idx(idx: usize) -> (r: usize)
        requires
            2 * (idx as int) + 2 <= usize::MAX,
        ensures
            r == 2 * (idx as int) + 2,
    {
        2 * idx + 2
    }

    /// Move the element at `idx` down toward the leaves until no child
    /// outranks it, restoring the heap shape. At each level the candidate
    /// is the left child, unless the right child outranks the left one.
    fn sift_down(&mut self, idx: usize)
        requires
            idx < old(self).items@.len(),
            ordered_except_down(old(self).comparator, old(self).items@, idx as int),
            children_bounded(old(self).comparator, old(self).items@, idx as int),
        ensures
            final(self).comparator == old(self).comparator,
            final(self).items@.len() == old(self).items@.len(),
            final(self).items@.to_multiset() == old(self).items@.to_multiset(),
            heap_ordered(final(self).comparator, final(self).items@),
    {
        let ghost orig = self.items@;
        let ghost c = self.comparator;
        let mut idx = idx;
        loop
            invariant_except_break
                idx < self.items@.len(),
                self.comparator == c,
                self.items@.len() == orig.len(),
                self.items@.to_multiset() == orig.to_multiset(),
                ordered_except_down(c, self.items@, idx as int),
                children_bounded(c, self.items@, idx as int),
            ensures
                self.comparator == c,
                self.items@.len() == orig.len(),
                self.items@.to_multiset() == orig.to_multiset(),
                heap_ordered(c, self.items@),
            decreases self.items@.len() - idx,
        {
            if !self.children_present(idx) {
                proof {
                    lemma_sift_down_leaf(c, self.items@, idx as int);
                }
                break;
            }
            let n = self.items.len();
            let left = Self::left_child_idx(idx);
            let right = Self::right_child_idx(idx);
            let mut child = left;
            if right < n && self.comparator.higher_priority(
                &self.items[right],
                &self.items[left],
            ) {
                child = right;
            }
            assert(chosen_child(c, self.items@, idx as int, child as int));
            if self.comparator.higher_priority(&self.items[child], &self.items[idx]) {
                proof {
                    lemma_sift_down_step(c, self.items@, idx as int, child as int);
                }
                self.swap_items(idx, child);
                idx = child;
            } else {
                proof {
                    lemma_sift_down_stop(c, self.items@, idx as int, child as int);
                }
                break;
            }
        }
    }

    /// Any value stored in the heap (stated through the view's multiset)
    /// fails to outrank the element at the front. Together with the
    /// multiset clause of `next` this orders whole extraction runs: what
    /// remains after an extraction is still a sub-multiset of what was
    /// stored before it, so no later extraction outranks an earlier one,
    /// and draining a heap lists its elements sorted by the rule.
    pub proof fn lemma_stored_value_outranked_by_root(self, x: T)
        requires
            self.wf(),
            self@.to_multiset().count(x) > 0,
        ensures
            self@.len() > 0,
            !self.outranks(x, self@[0]),
    {
        assert(self@.contains(x));
        let i = choose|i: int| 0 <= i < self@.len() && self@[i] == x;
        lemma_no_element_outranks_root(self.comparator, self.items@, i);
    }

    /// No stored element outranks the one at the front of the view: the
    /// root of a well-formed heap has the highest priority, so repeated
    /// extraction hands the elements out in priority order.
    pub proof fn lemma_root_outranked_by_none(self)
        requires
            self.wf(),
        ensures
            forall|i: int| 0 <= i < self@.len() ==> !self.outranks(#[trigger] self@[i], self@[0]),
    {
        assert forall|i: int| 0 <= i < self@.len() implies !self.outranks(
            #[trigger] self@[i],
            self@[0],
        ) by {
            lemma_no_element_outranks_root(self.comparator, self.items@, i);
        }
    }

    /// Remove and return the highest-priority element, or `None` when the
    /// heap is empty. No element that was stored outranks the returned one,
    /// and exactly one occurrence of it leaves the heap.
    pub fn next(&mut self) -> (r: Option<T>)
        requires
            old(self).wf(),
        ensures
            final(self).wf(),
            final(self).rule() == old(self).rule(),
            old(self)@.len() == 0 ==> r is None && final(self)@ == old(self)@,
            old(self)@.len() > 0 ==> {
                &&& r == Some(old(self)@[0])
                &&& final(self)@.len() == old(self)@.len() - 1
                &&& final(self)@.to_multiset() == old(self)@.to_multiset().remove(old(self)@[0])
                &&& forall|i: int|
                    0 <= i < old(self)@.len() ==> !old(self).outranks(
                        #[trigger] old(self)@[i],
                        old(self)@[0],
                    )
            },
    {
        if self.is_empty() {
            return None;
        }
        proof {
            self.lemma_root_outranked_by_none();
        }
        let ghost s0 = self.items@;
        let last = self.items.len() - 1;
        self.swap_items(0, last);
        let ghost s1 = self.items@;
        let result = self.items.pop().unwrap();
        proof {
            assert(result == s0[0]);
            assert(self.items@ =~= s1.remove(last as int));
            assert(self.items@.to_multiset() == s1.to_multiset().remove(s1[last as int]));
            assert(s1[last as int] == s0[0]);
        }
        if self.items.len() > 0 {
            proof {
                let s = self.items@;
                assert forall|i: int| 1 <= i < s.len() && parent_of(i) != 0 implies !self
                    .comparator.outranks(#[trigger] s[i], s[parent_of(i)]) by {
                    assert(1 <= parent_of(i) < i < last as int);
                    assert(s[i] == s0[i] && s[parent_of(i)] == s0[parent_of(i)]);
                }
            }
            self.sift_down(0);
        }
        Some(result)
    }
}

/// One sift-up step: if `x` outranks its parent `p` while every other edge
/// is in shape and the children of `x` are bounded by `p`, then after
/// swapping `x` with `p` the same holds one level up, at `p`.
proof fn lemma_sift_up_step<T, C: Priority<T>>(c: C, s: Seq<T>, x: int)
    requires
        1 <= x < s.len(),
        ordered_except_up(c, s, x),
        children_bounded(c, s, x),
        c.outranks(s[x], s[parent_of(x)]),
    ensures
        ordered_except_up(c, swapped(s, x, parent_of(x)), parent_of(x)),
        children_bounded(c, swapped(s, x, parent_of(x)), parent_of(x)),
{
    c.properties();
    let p = parent_of(x);
    let t = swapped(s, x, p);
    assert(0 <= p < x);
    assert forall|i: int| 1 <= i < t.len() && i != p implies !c.outranks(
        #[trigger] t[i],
        t[parent_of(i)],
    ) by {
        assert(1 <= i < s.len());
        assert(parent_of(i) < i);
        if i == x {
            assert(t[i] == s[p] && t[parent_of(i)] == s[x]);
        } else if parent_of(i) == x {
            assert(t[i] == s[i] && t[parent_of(i)] == s[p]);
        } else if parent_of(i) == p {
            // `i` is a sibling of `x`: its old edge went up to `s[p]`, which
            // in turn fails to outrank `s[x]` by asymmetry of the rule.
            assert(t[i] == s[i] && t[parent_of(i)] == s[x]);
            assert(!c.outranks(s[i], s[p]));
            assert(!c.outranks(s[p], s[x]));
        } else {
            assert(t[i] == s[i] && t[parent_of(i)] == s[parent_of(i)]);
        }
    }
    if p > 0 {
        let g = parent_of(p);
        assert(0 <= g < p);
        assert forall|i: int| 1 <= i < t.len() && parent_of(i) == p implies !c.outranks(
            #[trigger] t[i],
            t[g],
        ) by {
            assert(t[g] == s[g]);
            if i == x {
                assert(t[i] == s[p]);
                assert(!c.outranks(s[p], s[g]));
            } else {
                assert(t[i] == s[i]);
                assert(!c.outranks(s[i], s[p]));
                assert(!c.outranks(s[p], s[g]));
            }
        }
    }
}

/// In a well-shaped heap no element outranks the root: walking the parent
/// chain from `i` to the root, "does not outrank" carries over each edge
/// by transitivity.
proof fn lemma_no_element_outranks_root<T, C: Priority<T>>(c: C, s: Seq<T>, i: int)
    requires
        heap_ordered(c, s),
        0 <= i < s.len(),
    ensures
        !c.outranks(s[i], s[0]),
    decreases i,
{
    c.properties();
    if i > 0 {
        let p = parent_of(i);
        assert(0 <= p < i);
        lemma_no_element_outranks_root(c, s, p);
        assert(!c.outranks(s[i], s[p]));
    }
}

/// The conditions under which sift-down picks `ch` as the candidate child
/// of `x`: `ch` is the left child unless the right child exists and
/// outranks it, in which case `ch` is the right child.
spec fn chosen_child<T, C: Priority<T>>(c: C, s: Seq<T>, x: int, ch: int) -> bool {
    &&& (ch == 2 * x + 1 || ch == 2 * x + 2)
    &&& ch < s.len()
    &&& (ch == 2 * x + 1 && 2 * x + 2 < s.len() ==> !c.outranks(s[2 * x + 2], s[2 * x + 1]))
    &&& (ch == 2 * x + 2 ==> c.outranks(s[2 * x + 2], s[2 * x + 1]))
}

/// One sift-down step: if the candidate child `ch` outranks `x`, swapping
/// them moves the out-of-shape spot down to `ch`.
proof fn lemma_sift_down_step<T, C: Priority<T>>(c: C, s: Seq<T>, x: int, ch: int)
    requires
        0 <= x < s.len(),
        ordered_except_down(c, s, x),
        children_bounded(c, s, x),
        chosen_child(c, s, x, ch),
        c.outranks(s[ch], s[x]),
    ensures
        ordered_except_down(c, swapped(s, x, ch), ch),
        children_bounded(c, swapped(s, x, ch), ch),
{
    c.properties();
    let t = swapped(s, x, ch);
    assert forall|i: int| 1 <= i < t.len() && parent_of(i) != ch implies !c.outranks(
        #[trigger] t[i],
        t[parent_of(i)],
    ) by {
        assert(parent_of(i) < i);
        if i == ch {
            assert(t[i] == s[x] && t[parent_of(i)] == s[ch]);
        } else if parent_of(i) == x {
            // `i` is the sibling of `ch`; the choice of candidate says the
            // sibling does not outrank `ch`, which now sits at `x`.
            assert(t[i] == s[i] && t[parent_of(i)] == s[ch]);
            if ch == 2 * x + 1 {
                assert(i == 2 * x + 2);
                assert(!c.outranks(s[i], s[ch]));
            } else {
                assert(i == 2 * x + 1);
                assert(c.outranks(s[ch], s[i]));
            }
        } else if i == x {
            assert(x >= 1);
            assert(t[i] == s[ch] && t[parent_of(i)] == s[parent_of(x)]);
            assert(parent_of(ch) == x);
            assert(!c.outranks(s[ch], s[parent_of(x)]));
        } else {
            assert(t[i] == s[i] && t[parent_of(i)] == s[parent_of(i)]);
        }
    }
    assert forall|i: int| 1 <= i < t.len() && parent_of(i) == ch implies !c.outranks(
        #[trigger] t[i],
        t[parent_of(ch)],
    ) by {
        assert(x < ch < i);
        assert(t[i] == s[i] && t[parent_of(ch)] == s[ch]);
        assert(!c.outranks(s[i], s[parent_of(i)]));
    }
}

/// When the candidate child fails to outrank `x`, the whole heap is back
/// in shape: the other child is handled by the choice of candidate and the
/// transitivity of "does not outrank".
proof fn lemma_sift_down_stop<T, C: Priority<T>>(c: C, s: Seq<T>, x: int, ch: int)
    requires
        0 <= x < s.len(),
        ordered_except_down(c, s, x),
        chosen_child(c, s, x, ch),
        !c.outranks(s[ch], s[x]),
    ensures
        heap_ordered(c, s),
{
    c.properties();
    assert forall|i: int| 1 <= i < s.len() implies !c.outranks(#[trigger] s[i], s[parent_of(i)]) by {
        if parent_of(i) == x {
            assert(i == 2 * x + 1 || i == 2 * x + 2);
            if i != ch {
                if ch == 2 * x + 1 {
                    assert(!c.outranks(s[i], s[ch]));
                } else {
                    assert(c.outranks(s[ch], s[i]));
                    assert(!c.outranks(s[i], s[ch]));
                }
                assert(!c.outranks(s[ch], s[x]));
            }
        }
    }
}

/// A node without a left child has no children at all, so the heap shape
/// short of the children of `x` is the heap shape outright.
proof fn lemma_sift_down_leaf<T, C: Priority<T>>(c: C, s: Seq<T>, x: int)
    requires
        0 <= x < s.len(),
        ordered_except_down(c, s, x),
        2 * x + 1 >= s.len(),
    ensures
        heap_ordered(c, s),
{
    assert forall|i: int| 1 <= i < s.len() implies !c.outranks(#[trigger] s[i], s[parent_of(i)]) by {
        assert(parent_of(i) != x);
    }
}

/// Swapping two positions of a sequence leaves its multiset unchanged.
proof fn lemma_swap_multiset<T>(s: Seq<T>, i: int, j: int)
    requires
        0 <= i < s.len(),
        0 <= j < s.len(),
    ensures
        swapped(s, i, j).to_multiset() == s.to_multiset(),
{
    let s1 = s.update(i, s[j]);
    let s2 = s1.update(j, s[i]);
    assert(s.to_multiset().count(s[i]) > 0) by {
        assert(s.contains(s[i]));
    }
    if i == j {
        assert(s2 =~= s);
    } else {
        assert(s1[j] == s[j]);
        assert(s1.to_multiset() == s.to_multiset().insert(s[j]).remove(s[i]));
        assert(s2.to_multiset() == s1.to_multiset().insert(s[i]).remove(s[j]));
        assert(s2.to_multiset() =~= s.to_multiset());
    }
}

impl Heap<i64, MinCmp> {
    /// An empty min-heap over `i64`: smaller values outrank larger ones.
    pub fn new_min() -> (h: Self)
        ensures
            h@ == Seq::<i64>::empty(),
            h.wf(),
            forall|a: i64, b: i64| #[trigger] h.outranks(a, b) == (a < b),
    {
        Heap::new(MinCmp {})
    }
}

impl Heap<i64, MaxCmp> {
    /// An empty max-heap over `i64`: larger values outrank smaller ones.
    pub fn new_max() -> (h: Self)
        ensures
            h@ == Seq::<i64>::empty(),
            h.wf(),
            forall|a: i64, b: i64| #[trigger] h.outranks(a, b) == (a > b),
    {
        Heap::new(MaxCmp {})
    }
}

/// Convenience constructor type for min-heaps over `i64`.
pub struct MinHeap;

/// Convenience constructor type for max-heaps over `i64`.
pub struct MaxHeap;

impl MinHeap {
    /// An empty min-heap: smaller values outrank larger ones.
    pub fn new() -> (h: Heap<i64, MinCmp>)
        ensures
            h@ == Seq::<i64>::empty(),
            h.wf(),
            forall|a: i64, b: i64| #[trigger] h.outranks(a, b) == (a < b),
    {
        Heap::new_min()
    }
}

impl MaxHeap {
    /// An empty max-heap: larger values outrank smaller ones.
    pub fn new() -> (h: Heap<i64, MaxCmp>)
        ensures
            h@ == Seq::<i64>::empty(),
            h.wf(),
            forall|a: i64, b: i64| #[trigger] h.outranks(a, b) == (a > b),
    {
        Heap::new_max()
    }
}

} // verus!

