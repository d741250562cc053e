use vstd::prelude::*;
use vstd::laws_cmp::obeys_cmp;
use vstd::multiset::Multiset;
use crate::order::{Comparator, MaxHeap, MinHeap};

verus! {

broadcast use vstd::seq_lib::group_to_multiset_ensures;

/// Index of the parent of position `i` in a heap laid out from position 0.
pub open spec fn parent_of(i: int) -> int {
    (i - 1) / 2
}

/// No element of `s` outranks the element at its parent's position.
pub open spec fn heap_ordered<T, C: Comparator<T>>(c: C, s: Seq<T>) -> bool {
    forall|i: int| 0 < i < s.len() ==> !c.outranks_spec(#[trigger] s[i], s[parent_of(i)])
}

/// `x` is one of the highest-priority elements of `m`: it is in `m`, and nothing
/// in `m` outranks it.
pub open spec fn is_top<T, C: Comparator<T>>(c: C, m: Multiset<T>, x: T) -> bool {
    &&& m.count(x) > 0
    &&& forall|y: T| m.count(y) > 0 ==> !#[trigger] c.outranks_spec(y, x)
}

/// The layout `s` with the elements at positions `i` and `j` exchanged.
pub open spec fn swapped<T>(s: Seq<T>, i: int, j: int) -> Seq<T> {
    s.update(i, s[j]).update(j, s[i])
}

/// Whether position `j` lies in the subtree rooted at position `r`.
pub open spec fn in_subtree(r: int, j: int) -> bool
    decreases j,
{
    if j <= r || j <= 0 {
        j == r
    } else {
        in_subtree(r, parent_of(j))
    }
}

/// Heap-ordered everywhere but between position `k` and its children, and no
/// child of `k` outranks the parent of `k`.
pub open spec fn ordered_except_at<T, C: Comparator<T>>(c: C, s: Seq<T>, k: int) -> bool {
    &&& forall|i: int|
        0 < i < s.len() && parent_of(i) != k ==> !c.outranks_spec(#[trigger] s[i], s[parent_of(i)])
    &&& forall|j: int|
        0 < j < s.len() && k > 0 && parent_of(j) == k ==> !c.outranks_spec(
            #[trigger] s[j],
            s[parent_of(k)],
        )
}

/// The child of position `i` that a sift-down looks at: the right one only
/// where it exists and outranks the left one, so ties go to the left child.
pub open spec fn ranked_child<T, C: Comparator<T>>(c: C, s: Seq<T>, i: int) -> int {
    if 2 * i + 2 < s.len() && c.outranks_spec(s[2 * i + 2], s[2 * i + 1]) {
        2 * i + 2
    } else {
        2 * i + 1
    }
}

/// Whether a sift-down at position `i` swaps: `i` has a child, and the ranked
/// child outranks it.
pub open spec fn moves_down<T, C: Comparator<T>>(c: C, s: Seq<T>, i: int) -> bool {
    0 <= i && 2 * i + 1 < s.len() && c.outranks_spec(s[ranked_child(c, s, i)], s[i])
}

/// The layout that sifting down from position `i` leaves.
pub open spec fn sifted_down<T, C: Comparator<T>>(c: C, s: Seq<T>, i: int) -> Seq<T>
    decreases s.len() - i,
{
    if moves_down(c, s, i) {
        sifted_down(c, swapped(s, i, ranked_child(c, s, i)), ranked_child(c, s, i))
    } else {
        s
    }
}

/// A priority queue kept as an array-backed binary heap.
pub struct Heap<T, C> {
    count: usize,
    items: Vec<T>,
    comparator: C,
}

impl<T, C> View for Heap<T, C> {
    type V = Seq<T>;

    /// The elements in heap layout: position 0 is the root, the children of
    /// position `i` are `2i + 1` and `2i + 2`.
    closed spec fn view(&self) -> Seq<T> {
        self.items@
    }
}

impl<T, C: Comparator<T>> Heap<T, C> {
    /// The priority rule of this heap.
    pub closed spec fn rule(&self) -> C {
        self.comparator
    }

    /// The elements held, without regard to layout.
    pub open spec fn contents(&self) -> Multiset<T> {
        self@.to_multiset()
    }

    /// The stored length agrees with the layout.
    pub closed spec fn count_matches(&self) -> bool {
        self.count == self.items.len()
    }

    /// The heap invariant: the rule is a strict weak order and the layout is
    /// heap-ordered under it.
    pub open spec fn well_formed(&self) -> bool {
        &&& self.count_matches()
        &&& self.rule().is_strict_order()
        &&& heap_ordered(self.rule(), self@)
    }

    /// An empty heap ordered by `comparator`.
    pub fn new(comparator: C) -> (h: Self)
        requires
            comparator.is_strict_order(),
        ensures
            h.well_formed(),
            h@ == Seq::<T>::empty(),
            h.contents() == Multiset::<T>::empty(),
            h.rule() == comparator,
    {
        let h = Heap { count: 0, items: Vec::new(), comparator };
        assert(h.contents() =~= Multiset::<T>::empty()) by {
            assert(h@.len() == 0);
            assert(h.contents().len() == 0);
        }
        h
    }

    /// The number of elements held.
    pub fn len(&self) -> (r: usize)
        requires
            self.well_formed(),
        ensures
            r == self@.len(),
            r == self.contents().len(),
    {
        self.count
    }

    /// Whether the heap holds no element.
    pub fn is_empty(&self) -> (r: bool)
        requires
            self.well_formed(),
        ensures
            r <==> self@.len() == 0,
    {
        self.len() == 0
    }

    /// Inserts `value`, moving it up while it outranks its parent. Only the
    /// positions on the path from the new position to the root change.
    pub fn add(&mut self, value: T)
        requires
            old(self).well_formed(),
        ensures
            forall|j: int|
                0 <= j < old(self)@.len() && !in_subtree(j, old(self)@.len() as int)
                    ==> #[trigger] final(self)@[j] == old(self)@[j],
            final(self).well_formed(),
            final(self).rule() == old(self).rule(),
            final(self)@.len() == old(self)@.len() + 1,
            final(self).contents() == old(self).contents().insert(value),
    {
        let ghost c = self.comparator;
        self.items.push(value);
        self.count = self.items.len();
        let mut idx: usize = self.count - 1;
        while idx > 0
            invariant
                self.comparator == c,
                c.is_strict_order(),
                self.count == self.items.len(),
                self.count == old(self).count + 1,
                idx < self.count,
                self.contents() == old(self).contents().insert(value),
                self@.len() == old(self)@.len() + 1,
                in_subtree(idx as int, old(self)@.len() as int),
                forall|j: int|
                    0 <= j < old(self)@.len() && !in_subtree(j, old(self)@.len() as int)
                        ==> #[trigger] self@[j] == old(self)@[j],
                forall|i: int|
                    0 < i < self@.len() && i != idx ==> !c.outranks_spec(
                        #[trigger] self@[i],
                        self@[parent_of(i)],
                    ),
                forall|j: int|
                    0 < j < self@.len() && idx > 0 && parent_of(j) == idx ==> !c.outranks_spec(
                        #[trigger] self@[j],
                        self@[parent_of(idx as int)],
                    ),
            ensures
                self.comparator == c,
                self.count == self.items.len(),
                self.count == old(self).count + 1,
                self.contents() == old(self).contents().insert(value),
                heap_ordered(c, self@),
                forall|j: int|
                    0 <= j < old(self)@.len() && !in_subtree(j, old(self)@.len() as int)
                        ==> #[trigger] self@[j] == old(self)@[j],
            decreases idx,
        {
            let p = self.parent_idx(idx);
            if !self.comparator.outranks(&self.items[idx], &self.items[p]) {
                break;
            }
            let ghost s = self@;
            swap_items(&mut self.items, idx, p);
            proof {
                c.lemma_strict_order();
                assert(self@ =~= s.update(idx as int, s[p as int]).update(p as int, s[idx as int]));
                lemma_parent_on_path(idx as int, old(self)@.len() as int);
                assert forall|j: int|
                    0 <= j < old(self)@.len() && !in_subtree(j, old(self)@.len() as int)
                        implies #[trigger] self@[j] == old(self)@[j] by {
                    assert(j != idx && j != p);
                    assert(self@[j] == s[j]);
                }
                assert(self@.to_multiset() == s.to_multiset()) by {
                    lemma_swap_keeps_contents(s, idx as int, p as int);
                }
                assert forall|i: int| 0 < i < self@.len() && i != p implies !c.outranks_spec(
                    #[trigger] self@[i],
                    self@[parent_of(i)],
                ) by {
                    if i == idx {
                        assert(self@[i] == s[p as int] && self@[p as int] == s[idx as int]);
                    } else if parent_of(i) == p {
                        // a sibling of the old position
                        assert(self@[i] == s[i] && self@[p as int] == s[idx as int]);
                        assert(!c.outranks_spec(s[i], s[p as int]));
                        assert(!c.outranks_spec(s[p as int], s[idx as int]));
                    } else if parent_of(i) == idx {
                        assert(self@[i] == s[i] && self@[idx as int] == s[p as int]);
                        assert(!c.outranks_spec(s[i], s[parent_of(idx as int)]));
                    } else {
                        assert(self@[i] == s[i]);
                    }
                }
                if p > 0 {
                    assert forall|j: int| 0 < j < self@.len() && parent_of(j) == p implies !c.outranks_spec(
                        #[trigger] self@[j],
                        self@[parent_of(p as int)],
                    ) by {
                        let pp = parent_of(p as int);
                        assert(self@[pp] == s[pp]);
                        assert(!c.outranks_spec(s[p as int], s[pp]));
                        if j == idx {
                            assert(self@[j] == s[p as int]);
                        } else {
                            assert(self@[j] == s[j]);
                            assert(!c.outranks_spec(s[j], s[p as int]));
                        }
                    }
                }
            }
            idx = p;
        }
    }

    /// Moves the element at `idx` down, swapping it with its highest-ranked
    /// child while that child outranks it. Only positions in the subtree of
    /// `idx` change. Where the layout was heap-ordered everywhere but between
    /// `idx` and its children, it ends heap-ordered.
    fn sift_down(&mut self, idx: usize)
        requires
            old(self).count_matches(),
            old(self).rule().is_strict_order(),
            idx < old(self)@.len(),
        ensures
            final(self).count_matches(),
            final(self).rule() == old(self).rule(),
            final(self)@.len() == old(self)@.len(),
            final(self).contents() == old(self).contents(),
            final(self)@ == sifted_down(old(self).rule(), old(self)@, idx as int),
            !moves_down(old(self).rule(), old(self)@, idx as int) ==> final(self)@ == old(self)@,
            forall|j: int|
                0 <= j < old(self)@.len() && !in_subtree(idx as int, j) ==> #[trigger] final(self)@[j]
                    == old(self)@[j],
            ordered_except_at(old(self).rule(), old(self)@, idx as int) ==> final(self).well_formed(),
    {
        let ghost c = self.comparator;
        let ghost start = idx as int;
        let ghost near = ordered_except_at(c, self@, start);
        let mut idx = idx;
        while self.children_present(idx)
            invariant
                self.comparator == c,
                c.is_strict_order(),
                self.count == self.items.len(),
                self.count == old(self).count,
                idx < self.count,
                self.contents() == old(self).contents(),
                sifted_down(c, self@, idx as int) == sifted_down(c, old(self)@, start),
                in_subtree(start, idx as int),
                forall|j: int|
                    0 <= j < self@.len() && !in_subtree(start, j) ==> #[trigger] self@[j]
                        == old(self)@[j],
                near ==> ordered_except_at(c, self@, idx as int),
            ensures
                self.comparator == c,
                self.count == self.items.len(),
                self.count == old(self).count,
                self.contents() == old(self).contents(),
                self@ == sifted_down(c, old(self)@, start),
                forall|j: int|
                    0 <= j < self@.len() && !in_subtree(start, j) ==> #[trigger] self@[j]
                        == old(self)@[j],
                near ==> heap_ordered(c, self@),
            decreases self.count - idx,
        {
            let child = self.smallest_child_idx(idx);
            if !self.comparator.outranks(&self.items[child], &self.items[idx]) {
                proof {
                    c.lemma_strict_order();
                    assert(!moves_down(c, self@, idx as int));
                    if near {
                        assert forall|i: int| 0 < i < self@.len() implies !c.outranks_spec(
                            #[trigger] self@[i],
                            self@[parent_of(i)],
                        ) by {
                            if parent_of(i) == idx && i != child {
                                let l = 2 * idx + 1;
                                let r = 2 * idx + 2;
                                if child == l {
                                    assert(i == r);
                                    assert(!c.outranks_spec(self@[r], self@[l]));
                                } else {
                                    assert(i == l);
                                    assert(c.outranks_spec(self@[r], self@[l]));
                                }
                            }
                        }
                    }
                }
                break;
            }
            let ghost s = self@;
            swap_items(&mut self.items, idx, child);
            proof {
                c.lemma_strict_order();
                lemma_swap_keeps_contents(s, idx as int, child as int);
                assert(self@ =~= swapped(s, idx as int, child as int));
                assert(parent_of(child as int) == idx);
                assert(in_subtree(start, child as int));
                assert forall|j: int|
                    0 <= j < self@.len() && !in_subtree(start, j) implies #[trigger] self@[j]
                        == old(self)@[j] by {
                    assert(j != idx && j != child);
                    assert(self@[j] == s[j]);
                }
                if near {
                    assert forall|i: int| 0 < i < self@.len() && parent_of(i) != child implies !c.outranks_spec(
                        #[trigger] self@[i],
                        self@[parent_of(i)],
                    ) by {
                        let l = 2 * idx + 1;
                        let r = 2 * idx + 2;
                        if i == child {
                            assert(self@[i] == s[idx as int] && self@[idx as int] == s[child as int]);
                        } else if parent_of(i) == idx {
                            assert(self@[i] == s[i] && self@[idx as int] == s[child as int]);
                            if child == l {
                                assert(i == r);
                            } else {
                                assert(i == l);
                            }
                        } else if i == idx {
                            assert(self@[i] == s[child as int]);
                            assert(self@[parent_of(i)] == s[parent_of(i)]);
                        } else {
                            assert(self@[i] == s[i]);
                            assert(self@[parent_of(i)] == s[parent_of(i)]);
                        }
                    }
                    assert forall|j: int| 0 < j < self@.len() && parent_of(j) == child implies !c.outranks_spec(
                        #[trigger] self@[j],
                        self@[parent_of(child as int)],
                    ) by {
                        assert(self@[j] == s[j]);
                        assert(self@[idx as int] == s[child as int]);
                    }
                }
            }
            idx = child;
        }
    }

    /// Removes and returns a highest-priority element, or `None` when the heap
    /// is empty.
    pub fn next(&mut self) -> (r: Option<T>)
        requires
            old(self).well_formed(),
        ensures
            final(self).well_formed(),
            final(self).rule() == old(self).rule(),
            old(self)@.len() == 0 ==> r is None && final(self)@ == old(self)@,
            old(self)@.len() > 0 ==> {
                &&& r is Some
                &&& is_top(old(self).rule(), old(self).contents(), r->0)
                &&& final(self).contents() == old(self).contents().remove(r->0)
                &&& final(self)@.len() == old(self)@.len() - 1
            },
            old(self)@.len() == 1 ==> r == Some(old(self)@[0]) && final(self)@.len() == 0,
            old(self)@.len() > 1 ==> r == Some(old(self)@[0]) && final(self)@ == sifted_down(
                old(self).rule(),
                old(self)@.update(0, old(self)@.last()).drop_last(),
                0,
            ),
    {
        if self.is_empty() {
            return None;
        }
        let ghost s = self@;
        proof {
            lemma_root_is_top(self.comparator, s);
        }
        if self.count == 1 {
            self.count = 0;
            let top = self.items.pop();
            proof {
                assert(self@ =~= s.remove(0));
            }
            return top;
        }
        let top = self.items.swap_remove(0);
        self.count = self.items.len();
        proof {
            lemma_move_last_to_root(s);
            let t = self@;
            assert forall|i: int| 0 < i < t.len() && parent_of(i) != 0 implies !self.comparator.outranks_spec(
                #[trigger] t[i],
                t[parent_of(i)],
            ) by {
                assert(t[i] == s[i] && t[parent_of(i)] == s[parent_of(i)]);
            }
        }
        self.sift_down(0);
        Some(top)
    }

    fn parent_idx(&self, idx: usize) -> (r: usize)
        requires
            idx > 0,
        ensures
            r == parent_of(idx as int),
    {
        (idx - 1) / 2
    }

    fn left_child_idx(&self, idx: usize) -> (r: usize)
        requires
            idx < usize::MAX / 2,
        ensures
            r == 2 * idx + 1,
    {
        idx * 2 + 1
    }

    fn right_child_idx(&self, idx: usize) -> (r: usize)
        requires
            idx < usize::MAX / 2,
        ensures
            r == 2 * idx + 2,
    {
        self.left_child_idx(idx) + 1
    }

    fn children_present(&self, idx: usize) -> (r: bool)
        ensures
            r <==> 2 * idx + 1 < self.count,
    {
        idx < self.count / 2
    }

    /// The child of `idx` that the rule ranks highest; the left one when
    /// neither outranks the other.
    fn smallest_child_idx(&self, idx: usize) -> (r: usize)
        requires
            self.count_matches(),
            self.rule().is_strict_order(),
            2 * idx + 1 < self.count,
        ensures
            r == ranked_child(self.rule(), self@, idx as int),
    {
        let left = self.left_child_idx(idx);
        let right = self.right_child_idx(idx);
        if right >= self.count {
            return left;
        }
        if self.comparator.outranks(&self.items[right], &self.items[left]) {
            right
        } else {
            left
        }
    }
}

impl<T: Ord> Heap<T, MinHeap> {
    /// An empty min-heap: the smallest value comes out first.
    pub fn new_min() -> (h: Self)
        requires
            obeys_cmp::<T>(),
        ensures
            h.well_formed(),
            h@ == Seq::<T>::empty(),
            h.contents() == Multiset::<T>::empty(),
            h.rule() == MinHeap,
    {
        Self::new(MinHeap)
    }
}

impl<T: Ord> Heap<T, MaxHeap> {
    /// An empty max-heap: the largest value comes out first.
    pub fn new_max() -> (h: Self)
        requires
            obeys_cmp::<T>(),
        ensures
            h.well_formed(),
            h@ == Seq::<T>::empty(),
            h.contents() == Multiset::<T>::empty(),
            h.rule() == MaxHeap,
    {
        Self::new(MaxHeap)
    }
}

impl MinHeap {
    /// An empty heap of `T` in which the smallest value comes out first.
    pub fn new<T: Ord>() -> (h: Heap<T, MinHeap>)
        requires
            obeys_cmp::<T>(),
        ensures
            h.well_formed(),
            h@ == Seq::<T>::empty(),
            h.contents() == Multiset::<T>::empty(),
            h.rule() == MinHeap,
    {
        Heap::new(MinHeap)
    }
}

impl MaxHeap {
    /// An empty heap of `T` in which the largest value comes out first.
    pub fn new<T: Ord>() -> (h: Heap<T, MaxHeap>)
        requires
            obeys_cmp::<T>(),
        ensures
            h.well_formed(),
            h@ == Seq::<T>::empty(),
            h.contents() == Multiset::<T>::empty(),
            h.rule() == MaxHeap,
    {
        Heap::new(MaxHeap)
    }
}

/// One call on a heap as a caller sees it: an `add` of a value, or a `next`
/// and what it returned.
pub enum HeapCall<T> {
    Add(T),
    Next(Option<T>),
}

/// What a heap holding `m` holds after `call`.
pub open spec fn after_call<T>(m: Multiset<T>, call: HeapCall<T>) -> Multiset<T> {
    match call {
        HeapCall::Add(v) => m.insert(v),
        HeapCall::Next(Some(x)) => m.remove(x),
        HeapCall::Next(None) => m,
    }
}

/// What the contracts of `add` and `next` allow `call` to be on a heap
/// holding `m`: `next` returns `None` only when nothing is held, and otherwise
/// a highest-priority element.
pub open spec fn call_allowed<T, C: Comparator<T>>(c: C, m: Multiset<T>, call: HeapCall<T>) -> bool {
    match call {
        HeapCall::Add(_) => true,
        HeapCall::Next(None) => m.len() == 0,
        HeapCall::Next(Some(x)) => is_top(c, m, x),
    }
}

/// What a heap that held `m0` holds after the first `k` of `calls`.
pub open spec fn held_after<T>(m0: Multiset<T>, calls: Seq<HeapCall<T>>, k: nat) -> Multiset<T>
    decreases k,
{
    if k == 0 {
        m0
    } else {
        after_call(held_after(m0, calls, (k - 1) as nat), calls[k - 1])
    }
}

/// The values that the first `k` of `calls` added.
pub open spec fn added_by<T>(calls: Seq<HeapCall<T>>, k: nat) -> Multiset<T>
    decreases k,
{
    if k == 0 {
        Multiset::empty()
    } else {
        match calls[k - 1] {
            HeapCall::Add(v) => added_by(calls, (k - 1) as nat).insert(v),
            HeapCall::Next(_) => added_by(calls, (k - 1) as nat),
        }
    }
}

/// The values that the first `k` of `calls` returned.
pub open spec fn returned_by<T>(calls: Seq<HeapCall<T>>, k: nat) -> Multiset<T>
    decreases k,
{
    if k == 0 {
        Multiset::empty()
    } else {
        match calls[k - 1] {
            HeapCall::Next(Some(x)) => returned_by(calls, (k - 1) as nat).insert(x),
            _ => returned_by(calls, (k - 1) as nat),
        }
    }
}

/// Any interleaving of `add` and `next` on a heap that held `m0` behaves as a
/// priority queue. After each prefix of the calls, what is held together with
/// what came out is what was there plus what went in, so the length is the
/// number held at the start plus the adds minus the values returned. Each
/// value returned is a highest-priority element of what was pending then. A
/// `next` on an empty heap returns `None` and leaves it empty, so it stays
/// exhausted until the next `add`.
pub proof fn lemma_call_sequence<T, C: Comparator<T>>(
    c: C,
    m0: Multiset<T>,
    calls: Seq<HeapCall<T>>,
)
    requires
        forall|k: int|
            0 <= k < calls.len() ==> call_allowed(c, held_after(m0, calls, k as nat), #[trigger] calls[k]),
    ensures
        forall|k: nat|
            k <= calls.len() ==> #[trigger] held_after(m0, calls, k).add(returned_by(calls, k)) == m0.add(
                added_by(calls, k),
            ),
        forall|k: nat|
            k <= calls.len() ==> #[trigger] held_after(m0, calls, k).len() + returned_by(calls, k).len()
                == m0.len() + added_by(calls, k).len(),
        forall|k: int|
            0 <= k < calls.len() && #[trigger] calls[k] is Next && calls[k]->Next_0 is Some ==> is_top(
                c,
                held_after(m0, calls, k as nat),
                calls[k]->Next_0->0,
            ),
        forall|k: int|
            0 <= k < calls.len() && held_after(m0, calls, k as nat).len() == 0 && #[trigger] calls[k] is Next
                ==> calls[k] == HeapCall::<T>::Next(None) && held_after(m0, calls, (k + 1) as nat).len() == 0,
{
    assert forall|k: nat| k <= calls.len() implies #[trigger] held_after(m0, calls, k).add(
        returned_by(calls, k),
    ) == m0.add(added_by(calls, k)) by {
        lemma_held_after_balance(c, m0, calls, k);
    }
    assert forall|k: nat| k <= calls.len() implies #[trigger] held_after(m0, calls, k).len()
        + returned_by(calls, k).len() == m0.len() + added_by(calls, k).len() by {
        lemma_held_after_balance(c, m0, calls, k);
    }
    assert forall|k: int|
        0 <= k < calls.len() && held_after(m0, calls, k as nat).len() == 0 && #[trigger] calls[k] is Next
            implies calls[k] == HeapCall::<T>::Next(None) && held_after(m0, calls, (k + 1) as nat).len() == 0 by {
        let m = held_after(m0, calls, k as nat);
        assert(call_allowed(c, m, calls[k]));
        if let HeapCall::Next(Some(x)) = calls[k] {
            assert(m.count(x) > 0);
            assert(m.len() > 0) by {
                broadcast use vstd::multiset::group_multiset_axioms;
                assert(m.remove(x).len() + 1 == m.len());
            }
        }
        assert(held_after(m0, calls, (k + 1) as nat) == m);
    }
}

proof fn lemma_held_after_balance<T, C: Comparator<T>>(
    c: C,
    m0: Multiset<T>,
    calls: Seq<HeapCall<T>>,
    k: nat,
)
    requires
        k <= calls.len(),
        forall|k: int|
            0 <= k < calls.len() ==> call_allowed(c, held_after(m0, calls, k as nat), #[trigger] calls[k]),
    ensures
        held_after(m0, calls, k).add(returned_by(calls, k)) == m0.add(added_by(calls, k)),
        held_after(m0, calls, k).len() + returned_by(calls, k).len() == m0.len() + added_by(calls, k).len(),
    decreases k,
{
    broadcast use vstd::multiset::group_multiset_axioms;

    if k == 0 {
        assert(m0.add(Multiset::empty()) =~= m0);
    } else {
        let k1 = (k - 1) as nat;
        lemma_held_after_balance(c, m0, calls, k1);
        let m = held_after(m0, calls, k1);
        let call = calls[k1 as int];
        assert(call_allowed(c, m, call));
        let r = returned_by(calls, k1);
        let a = added_by(calls, k1);
        match call {
            HeapCall::Add(v) => {
                assert(held_after(m0, calls, k) == m.insert(v));
                assert(added_by(calls, k) == a.insert(v));
                assert(returned_by(calls, k) == r);
                assert(m.add(r) == m0.add(a));
                assert forall|y: T| #[trigger] m.insert(v).add(r).count(y) == m0.add(a.insert(v)).count(y) by {
                    assert(m.add(r).count(y) == m0.add(a).count(y));
                }
                assert(m.insert(v).add(r) =~= m0.add(a.insert(v)));
            },
            HeapCall::Next(Some(x)) => {
                assert(held_after(m0, calls, k) == m.remove(x));
                assert(added_by(calls, k) == a);
                assert(returned_by(calls, k) == r.insert(x));
                assert(m.count(x) > 0);
                assert(m.remove(x).add(r.insert(x)) =~= m0.add(a));
            },
            HeapCall::Next(None) => {
                assert(held_after(m0, calls, k) == m);
                assert(added_by(calls, k) == a);
                assert(returned_by(calls, k) == r);
            },
        }
    }
}

/// Adding the values of `s` one by one to an empty heap and then consuming
/// as many values as were added yields exactly the values of `s`, in priority
/// order (ascending under `MinHeap`, descending under `MaxHeap`), and leaves
/// the heap empty, so that a further `next` returns `None`.
pub proof fn lemma_fill_then_drain<T, C: Comparator<T>>(c: C, s: Seq<T>, out: Seq<T>)
    requires
        out.len() == s.len(),
        forall|k: int|
            0 <= k < out.len() ==> is_top(
                c,
                remaining(s.to_multiset(), out, k as nat),
                #[trigger] out[k],
            ),
    ensures
        held_after(Multiset::empty(), s.map_values(|v: T| HeapCall::Add(v)), s.len())
            == s.to_multiset(),
        forall|i: int, j: int|
            0 <= i < j < out.len() ==> !c.outranks_spec(#[trigger] out[j], #[trigger] out[i]),
        out.to_multiset() == s.to_multiset(),
        remaining(s.to_multiset(), out, out.len()).len() == 0,
{
    broadcast use vstd::multiset::group_multiset_axioms;

    let adds = s.map_values(|v: T| HeapCall::Add(v));
    lemma_adds_hold(s, adds, s.len());
    assert(s.take(s.len() as int) =~= s);
    let m = s.to_multiset();
    lemma_consumption_sorted(c, m, out);
    let rest = remaining(m, out, out.len());
    assert(out.to_multiset().len() == out.len());
    assert(rest.len() == 0);
    assert(rest =~= Multiset::empty());
    assert(out.to_multiset().add(Multiset::empty()) =~= out.to_multiset());
}

proof fn lemma_adds_hold<T>(s: Seq<T>, adds: Seq<HeapCall<T>>, k: nat)
    requires
        adds == s.map_values(|v: T| HeapCall::Add(v)),
        k <= s.len(),
    ensures
        held_after(Multiset::empty(), adds, k) == s.take(k as int).to_multiset(),
    decreases k,
{
    if k == 0 {
        assert(s.take(0).len() == 0);
        assert(s.take(0).to_multiset() =~= Multiset::empty());
    } else {
        let k1 = (k - 1) as nat;
        lemma_adds_hold(s, adds, k1);
        assert(adds[k1 as int] == HeapCall::Add(s[k1 as int]));
        assert(s.take(k as int) =~= s.take(k1 as int).push(s[k1 as int]));
    }
}

/// What is left of `m` after the first `k` elements of `out` have been taken
/// out of it one at a time.
pub open spec fn remaining<T>(m: Multiset<T>, out: Seq<T>, k: nat) -> Multiset<T>
    decreases k,
{
    if k == 0 {
        m
    } else {
        remaining(m, out, (k - 1) as nat).remove(out[k - 1])
    }
}

/// Consumption comes out in priority order, and loses nothing: if each element
/// of `out` was a highest-priority element of what was left when it was taken
/// (as `next` promises), then no element of `out` outranks an earlier one, and
/// `out` together with what is left is exactly what was held at the start, so
/// nothing is left exactly when as many elements came out as were held.
/// Under `MinHeap` this is ascending order, under `MaxHeap` descending order.
pub proof fn lemma_consumption_sorted<T, C: Comparator<T>>(c: C, m: Multiset<T>, out: Seq<T>)
    requires
        forall|k: int|
            0 <= k < out.len() ==> is_top(c, remaining(m, out, k as nat), #[trigger] out[k]),
    ensures
        forall|i: int, j: int|
            0 <= i < j < out.len() ==> !c.outranks_spec(#[trigger] out[j], #[trigger] out[i]),
        out.to_multiset().add(remaining(m, out, out.len())) == m,
        out.len() + remaining(m, out, out.len()).len() == m.len(),
{
    assert forall|i: int, j: int| 0 <= i < j < out.len() implies !c.outranks_spec(
        #[trigger] out[j],
        #[trigger] out[i],
    ) by {
        assert(is_top(c, remaining(m, out, j as nat), out[j]));
        lemma_remaining_shrinks(m, out, i as nat, j as nat, out[j]);
        assert(is_top(c, remaining(m, out, i as nat), out[i]));
    }
    lemma_remaining_conserves(c, m, out, out.len());
    assert(out.take(out.len() as int) =~= out);
    assert(out.to_multiset().len() == out.len());
}

proof fn lemma_remaining_shrinks<T>(m: Multiset<T>, out: Seq<T>, i: nat, j: nat, y: T)
    requires
        i <= j <= out.len(),
        remaining(m, out, j).count(y) > 0,
    ensures
        remaining(m, out, i).count(y) > 0,
    decreases j - i,
{
    broadcast use vstd::multiset::group_multiset_axioms;

    if i < j {
        assert(remaining(m, out, j) == remaining(m, out, (j - 1) as nat).remove(out[j - 1]));
        lemma_remaining_shrinks(m, out, i, (j - 1) as nat, y);
    }
}

proof fn lemma_remaining_conserves<T, C: Comparator<T>>(
    c: C,
    m: Multiset<T>,
    out: Seq<T>,
    k: nat,
)
    requires
        k <= out.len(),
        forall|k: int|
            0 <= k < out.len() ==> is_top(c, remaining(m, out, k as nat), #[trigger] out[k]),
    ensures
        out.take(k as int).to_multiset().add(remaining(m, out, k)) == m,
    decreases k,
{
    broadcast use vstd::multiset::group_multiset_axioms;

    if k == 0 {
        assert(out.take(0).len() == 0);
        assert(out.take(0).to_multiset() =~= Multiset::empty());
        assert(Multiset::empty().add(m) =~= m);
    } else {
        let k1 = (k - 1) as nat;
        lemma_remaining_conserves(c, m, out, k1);
        let x = out[k1 as int];
        assert(out.take(k as int) =~= out.take(k1 as int).push(x));
        assert(is_top(c, remaining(m, out, k1), x));
        assert(out.take(k as int).to_multiset().add(remaining(m, out, k)) =~= out.take(
            k1 as int,
        ).to_multiset().add(remaining(m, out, k1)));
    }
}

/// The parent of a position on the path from `n` to the root is on it too.
proof fn lemma_parent_on_path(i: int, n: int)
    requires
        0 < i,
        in_subtree(i, n),
    ensures
        in_subtree(parent_of(i), n),
    decreases n,
{
    let p = parent_of(i);
    if n == i {
        assert(in_subtree(p, p));
    } else {
        lemma_parent_on_path(i, parent_of(n));
        assert(n > p && n > 0);
    }
}

/// The root of a heap-ordered layout is a highest-priority element of it.
pub proof fn lemma_root_is_top<T, C: Comparator<T>>(c: C, s: Seq<T>)
    requires
        c.is_strict_order(),
        heap_ordered(c, s),
        s.len() > 0,
    ensures
        is_top(c, s.to_multiset(), s[0]),
{
    assert(s.contains(s[0]));
    assert forall|y: T| s.to_multiset().count(y) > 0 implies !#[trigger] c.outranks_spec(y, s[0]) by {
        assert(s.contains(y));
        let k = choose|k: int| 0 <= k < s.len() && s[k] == y;
        lemma_below_root(c, s, k);
    }
}

proof fn lemma_below_root<T, C: Comparator<T>>(c: C, s: Seq<T>, i: int)
    requires
        c.is_strict_order(),
        heap_ordered(c, s),
        0 <= i < s.len(),
    ensures
        !c.outranks_spec(s[i], s[0]),
    decreases i,
{
    c.lemma_strict_order();
    if i > 0 {
        lemma_below_root(c, s, parent_of(i));
        assert(!c.outranks_spec(s[i], s[parent_of(i)]));
    }
}

/// Moving the last element into the root's place and dropping the root keeps
/// every other element.
proof fn lemma_move_last_to_root<T>(s: Seq<T>)
    requires
        s.len() > 1,
    ensures
        s.update(0, s.last()).drop_last().to_multiset() == s.to_multiset().remove(s[0]),
{
    let t = s.update(0, s.last());
    vstd::seq_lib::to_multiset_update(s, 0, s.last());
    assert(t.drop_last() =~= t.remove(t.len() - 1));
    vstd::seq_lib::to_multiset_remove(t, t.len() - 1);
    assert(t.to_multiset() =~= s.to_multiset().insert(s.last()).remove(s[0]));
    assert(s.to_multiset().count(s.last()) > 0) by {
        assert(s.contains(s.last()));
    }
    assert(t.drop_last().to_multiset() =~= s.to_multiset().remove(s[0])) by {
        broadcast use vstd::multiset::group_multiset_axioms;
    }
}

/// Exchanging two positions keeps the elements held.
proof fn lemma_swap_keeps_contents<T>(s: Seq<T>, i: int, j: int)
    requires
        0 <= i < s.len(),
        0 <= j < s.len(),
    ensures
        s.update(i, s[j]).update(j, s[i]).to_multiset() == s.to_multiset(),
{
    broadcast use vstd::multiset::group_multiset_axioms;

    let u = s.update(i, s[j]);
    vstd::seq_lib::to_multiset_update(s, i, s[j]);
    vstd::seq_lib::to_multiset_update(u, j, s[i]);
    if i != j {
        assert(u[j] == s[j]);
    }
    assert(u.update(j, s[i]).to_multiset() =~= s.to_multiset());
}

/// Exchanges the elements at positions `i` and `j` of `v`.
fn swap_items<T>(v: &mut Vec<T>, i: usize, j: usize)
    requires
        i < old(v).len(),
        j < old(v).len(),
        i != j,
    ensures
        final(v)@ == old(v)@.update(i as int, old(v)@[j as int]).update(j as int, old(v)@[i as int]),
{
    let n = v.len();
    let mut spare = v.pop().unwrap();
    if i == n - 1 {
        v.set_and_swap(j, &mut spare);
        v.push(spare);
    } else if j == n - 1 {
        v.set_and_swap(i, &mut spare);
        v.push(spare);
    } else {
        v.set_and_swap(i, &mut spare);
        v.set_and_swap(j, &mut spare);
        v.set_and_swap(i, &mut spare);
        v.push(spare);
    }
    assert(v@ =~= old(v)@.update(i as int, old(v)@[j as int]).update(j as int, old(v)@[i as int]));
}

} // verus!
