//! A max-heap in which every node has up to `D` children, stored in a vector.

use crate::sort::{lemma_swapped_multiset, swap_items, swapped};
use std::cmp::Ordering;
use vstd::multiset::Multiset;
use vstd::prelude::*;
use vstd::std_specs::cmp::PartialOrdSpec;

verus! {

broadcast use vstd::seq_lib::group_to_multiset_ensures;

/// `x` is at most `y` in the order of `T`.
pub open spec fn at_most<T: Ord>(x: T, y: T) -> bool {
    matches!(x.partial_cmp_spec(&y), Some(Ordering::Less | Ordering::Equal))
}

/// The comparison operators of `T` follow its specification, which is a
/// total preorder.
pub open spec fn is_total_order<T: Ord>() -> bool {
    &&& T::obeys_partial_cmp_spec()
    &&& forall|x: T, y: T| (#[trigger] x.partial_cmp_spec(&y)).is_some()
    &&& forall|x: T, y: T| #[trigger] at_most(x, y) || at_most(y, x)
    &&& forall|x: T, y: T, z: T| #[trigger]
        at_most(x, y) && #[trigger] at_most(y, z) ==> at_most(x, z)
}

/// The index of the parent of node `i` in a `d`-ary heap.
pub open spec fn parent_of(i: int, d: int) -> int {
    (i - 1) / d
}

/// Node `i` is at most its parent.
pub open spec fn below_parent<T: Ord>(s: Seq<T>, d: int, i: int) -> bool {
    at_most(s[i], s[parent_of(i, d)])
}

/// Every node but the root is at most its parent.
pub open spec fn heap_ordered<T: Ord>(s: Seq<T>, d: int) -> bool {
    forall|i: int| 1 <= i < s.len() ==> #[trigger] below_parent(s, d, i)
}

/// Heap order holds everywhere but at `hole` and at its children, and the
/// children of `hole` are at most the parent of `hole`.
pub open spec fn ordered_around<T: Ord>(s: Seq<T>, d: int, hole: int) -> bool {
    &&& forall|i: int|
        1 <= i < s.len() && i != hole && parent_of(i, d) != hole ==> #[trigger] below_parent(
            s,
            d,
            i,
        )
    &&& hole >= 1 ==> forall|i: int|
        1 <= i < s.len() && #[trigger] parent_of(i, d) == hole ==> at_most(
            s[i],
            s[parent_of(hole, d)],
        )
}

/// A parent's index is smaller than its child's.
pub proof fn lemma_parent_below(i: int, d: int)
    requires
        i >= 1,
        d >= 1,
    ensures
        0 <= parent_of(i, d) < i,
{
    assert(0 <= (i - 1) / d < i) by (nonlinear_arith)
        requires
            i >= 1,
            d >= 1,
    ;
}

/// The children of node `p` are the `d` indices that follow `p * d`.
pub proof fn lemma_children_range(p: int, i: int, d: int)
    requires
        i >= 1,
        d >= 1,
        p >= 0,
    ensures
        parent_of(i, d) == p <==> p * d + 1 <= i <= p * d + d,
{
    assert((i - 1) / d == p <==> p * d + 1 <= i <= p * d + d) by (nonlinear_arith)
        requires
            i >= 1,
            d >= 1,
            p >= 0,
    ;
}

/// In an ordered heap nothing exceeds the root.
pub proof fn lemma_root_is_greatest<T: Ord>(s: Seq<T>, d: int, i: int)
    requires
        d >= 1,
        is_total_order::<T>(),
        heap_ordered(s, d),
        0 <= i < s.len(),
    ensures
        at_most(s[i], s[0]),
    decreases i,
{
    if i >= 1 {
        lemma_parent_below(i, d);
        assert(below_parent(s, d, i));
        lemma_root_is_greatest(s, d, parent_of(i, d));
    } else {
        assert(at_most(s[0], s[0]) || at_most(s[0], s[0]));
    }
}

/// A max-heap with branching factor `D`, which must be at least 2.
pub struct DaryHeap<T, const D: usize> {
    data: Vec<T>,
}

impl<T: Ord, const D: usize> DaryHeap<T, D> {
    /// The elements held, with multiplicity.
    pub closed spec fn view(&self) -> Multiset<T> {
        self.data@.to_multiset()
    }

    /// The branching factor is legal and the storage is in heap order.
    pub closed spec fn wf(&self) -> bool {
        &&& D >= 2
        &&& is_total_order::<T>() ==> heap_ordered(self.data@, D + 0)
    }

    /// `x` is held, and nothing held exceeds it.
    pub open spec fn is_greatest(&self, x: T) -> bool {
        &&& self@.count(x) > 0
        &&& is_total_order::<T>() ==> forall|y: T| self@.count(y) > 0 ==> at_most(y, x)
    }

    proof fn lemma_first_is_greatest(&self)
        requires
            self.wf(),
            self.data@.len() > 0,
        ensures
            self.is_greatest(self.data@[0]),
    {
        let s = self.data@;
        s.to_multiset_ensures();
        assert(s.contains(s[0]));
        if is_total_order::<T>() {
            assert forall|y: T| self@.count(y) > 0 implies at_most(y, s[0]) by {
                assert(s.contains(y));
                let i = choose|i: int| 0 <= i < s.len() && s[i] == y;
                lemma_root_is_greatest(s, D + 0, i);
            }
        }
    }

    /// An empty heap.
    pub fn new() -> (h: Self)
        requires
            D >= 2,
        ensures
            h.wf(),
            h@ == Multiset::<T>::empty(),
    {
        DaryHeap { data: Vec::new() }
    }

    /// An empty heap with room reserved for `capacity` elements.
    pub fn with_capacity(capacity: usize) -> (h: Self)
        requires
            D >= 2,
        ensures
            h.wf(),
            h@ == Multiset::<T>::empty(),
    {
        DaryHeap { data: Vec::with_capacity(capacity) }
    }

    /// The greatest element, if there is one.
    pub fn peek(&self) -> (r: Option<&T>)
        requires
            self.wf(),
        ensures
            match r {
                None => self@ == Multiset::<T>::empty(),
                Some(x) => self.is_greatest(*x),
            },
    {
        if self.data.len() == 0 {
            None
        } else {
            proof {
                self.lemma_first_is_greatest();
            }
            Some(&self.data[0])
        }
    }

    /// Removes every element.
    pub fn clear(&mut self)
        requires
            old(self).wf(),
        ensures
            final(self).wf(),
            final(self)@ == Multiset::<T>::empty(),
    {
        self.data.clear();
    }

    /// Moves the element at `pos` towards the root until its parent is at
    /// least as large.
    fn sift_up(&mut self, pos: usize)
        requires
            D >= 2,
            pos < old(self).data@.len(),
            is_total_order::<T>() ==> ordered_around(old(self).data@, D + 0, pos + 0) && forall|
                i: int,
            |
                1 <= i < old(self).data@.len() && #[trigger] parent_of(i, D + 0) == pos
                    ==> at_most(old(self).data@[i], old(self).data@[pos + 0]),
        ensures
            final(self).wf(),
            final(self)@ == old(self)@,
    {
        let mut child: usize = pos;
        let mut rising = true;
        while child > 0 && rising
            invariant
                D >= 2,
                child < self.data@.len(),
                self@ == old(self)@,
                is_total_order::<T>() ==> ordered_around(self.data@, D + 0, child + 0),
                is_total_order::<T>() ==> forall|i: int|
                    1 <= i < self.data@.len() && #[trigger] parent_of(i, D + 0) == child
                        ==> at_most(self.data@[i], self.data@[child + 0]),
                is_total_order::<T>() && !rising ==> heap_ordered(self.data@, D + 0),
            decreases child + (if rising { 1int } else { 0int }),
        {
            let parent: usize = (child - 1) / D;
            proof {
                lemma_parent_below(child + 0, D + 0);
            }
            let ghost s = self.data@;
            if self.data[child] <= self.data[parent] {
                proof {
                    if is_total_order::<T>() {
                        assert forall|i: int| 1 <= i < s.len() implies #[trigger] below_parent(
                            s,
                            D + 0,
                            i,
                        ) by {
                            lemma_parent_below(i, D + 0);
                            if i != child && parent_of(i, D + 0) == child {
                                assert(at_most(s[i], s[child + 0]));
                            }
                        }
                    }
                }
                rising = false;
            } else {
                swap_items(&mut self.data, child, parent);
                proof {
                    lemma_swapped_multiset(s, child + 0, parent + 0);
                    let t = self.data@;
                    if is_total_order::<T>() {
                        assert(at_most(s[child + 0], s[parent + 0]) || at_most(
                            s[parent + 0],
                            s[child + 0],
                        ));
                        assert forall|i: int|
                            1 <= i < t.len() && i != parent && parent_of(i, D + 0)
                                != parent implies #[trigger] below_parent(t, D + 0, i) by {
                            lemma_parent_below(i, D + 0);
                            if i == child {
                            } else if parent_of(i, D + 0) == child {
                                assert(at_most(s[i], s[child + 0]));
                                assert(at_most(s[i], s[parent_of(child + 0, D + 0)]));
                            } else {
                                assert(below_parent(s, D + 0, i));
                            }
                        }
                        if parent >= 1 {
                            lemma_parent_below(parent + 0, D + 0);
                            assert(below_parent(s, D + 0, parent + 0));
                            assert forall|i: int|
                                1 <= i < t.len() && #[trigger] parent_of(i, D + 0)
                                    == parent implies at_most(
                                t[i],
                                t[parent_of(parent + 0, D + 0)],
                            ) by {
                                if i != child {
                                    assert(below_parent(s, D + 0, i));
                                }
                            }
                        }
                        assert forall|i: int|
                            1 <= i < t.len() && #[trigger] parent_of(i, D + 0)
                                == parent implies at_most(t[i], t[parent + 0]) by {
                            if i != child {
                                assert(below_parent(s, D + 0, i));
                            }
                        }
                    }
                }
                child = parent;
            }
        }
        proof {
            if is_total_order::<T>() && rising {
                let s = self.data@;
                assert forall|i: int| 1 <= i < s.len() implies #[trigger] below_parent(
                    s,
                    D + 0,
                    i,
                ) by {
                    lemma_parent_below(i, D + 0);
                    if parent_of(i, D + 0) == 0 {
                        assert(at_most(s[i], s[0]));
                    }
                }
            }
        }
    }

    /// Adds `item`.
    pub fn push(&mut self, item: T)
        requires
            old(self).wf(),
        ensures
            final(self).wf(),
            final(self)@ == old(self)@.insert(item),
    {
        self.data.push(item);
        let pos = self.data.len() - 1;
        proof {
            if is_total_order::<T>() {
                let s = self.data@;
                assert forall|i: int|
                    1 <= i < s.len() && i != pos && parent_of(i, D + 0)
                        != pos implies #[trigger] below_parent(s, D + 0, i) by {
                    lemma_parent_below(i, D + 0);
                    assert(below_parent(old(self).data@, D + 0, i));
                }
                assert forall|i: int| 1 <= i < s.len() implies #[trigger] parent_of(i, D + 0)
                    != pos by {
                    lemma_parent_below(i, D + 0);
                }
            }
        }
        self.sift_up(pos);
    }

    /// Removes and returns the greatest element, if there is one.
    ///
    /// The last element takes the root's place, sinks along the path of
    /// greatest children down to a leaf, and rises again from there.
    pub fn pop(&mut self) -> (r: Option<T>)
        requires
            old(self).wf(),
        ensures
            final(self).wf(),
            match r {
                None => old(self)@ == Multiset::<T>::empty() && final(self)@ == old(self)@,
                Some(x) => old(self).is_greatest(x) && final(self)@ == old(self)@.remove(x),
            },
    {
        if self.data.len() == 0 {
            return None;
        }
        proof {
            self.lemma_first_is_greatest();
        }
        let ret = self.data.swap_remove(0);
        let len = self.data.len();
        proof {
            let s0 = old(self).data@;
            vstd::seq_lib::to_multiset_update(s0, 0, s0.last());
            let s1 = s0.update(0, s0.last());
            assert(s1.drop_last() =~= s1.remove(s1.len() - 1));
            vstd::seq_lib::to_multiset_remove(s1, s1.len() - 1);
            s0.to_multiset_ensures();
            assert(s0.to_multiset().count(s0.last()) > 0);
            assert(self.data@.to_multiset() =~= s0.to_multiset().remove(ret)) by {
                broadcast use vstd::multiset::group_multiset_axioms;

            }
        }
        if len == 0 {
            return Some(ret);
        }
        let mut hole: usize = 0;
        proof {
            if is_total_order::<T>() {
                let s = self.data@;
                assert forall|i: int|
                    1 <= i < s.len() && i != 0 && parent_of(i, D + 0)
                        != 0 implies #[trigger] below_parent(s, D + 0, i) by {
                    lemma_parent_below(i, D + 0);
                    assert(below_parent(old(self).data@, D + 0, i));
                }
            }
        }
        while len >= 2 && hole <= (len - 2) / D
            invariant
                D >= 2,
                len == self.data@.len(),
                hole < len,
                self@ == old(self)@.remove(ret),
                is_total_order::<T>() ==> ordered_around(self.data@, D + 0, hole + 0),
            decreases len - hole,
        {
            proof {
                assert(hole <= hole * D <= len - 2) by (nonlinear_arith)
                    requires
                        hole <= (len - 2) / (D + 0),
                        D >= 2,
                        len >= 2,
                ;
            }
            let first: usize = hole * D + 1;
            let mut best: usize = first;
            let mut i: usize = first + 1;
            while i < len && i - first < D
                invariant
                    D >= 2,
                    len == self.data@.len(),
                    first < i <= len,
                    i - first <= D,
                    first <= best < i,
                    is_total_order::<T>() ==> forall|k: int|
                        first <= k < i ==> at_most(#[trigger] self.data@[k], self.data@[best + 0]),
                decreases len - i,
            {
                if self.data[i] > self.data[best] {
                    proof {
                        if is_total_order::<T>() {
                            let s = self.data@;
                            assert(at_most(s[i + 0], s[best + 0]) || at_most(
                                s[best + 0],
                                s[i + 0],
                            ));
                            assert(at_most(s[i + 0], s[i + 0]) || at_most(s[i + 0], s[i + 0]));
                            assert forall|k: int| first <= k < i + 1 implies at_most(
                                #[trigger] s[k],
                                s[i + 0],
                            ) by {
                                if k < i {
                                    assert(at_most(s[k], s[best + 0]));
                                }
                            }
                        }
                    }
                    best = i;
                }
                i += 1;
            }
            let ghost s = self.data@;
            swap_items(&mut self.data, hole, best);
            proof {
                lemma_swapped_multiset(s, hole + 0, best + 0);
                let t = self.data@;
                let d = D + 0;
                let h = hole + 0;
                if is_total_order::<T>() {
                    assert forall|k: int| 1 <= k < len && parent_of(k, d) == h implies at_most(
                        #[trigger] s[k],
                        s[best + 0],
                    ) by {
                        lemma_children_range(h, k, d);
                    }
                    lemma_children_range(h, best + 0, d);
                    assert(parent_of(best + 0, d) == h);
                    assert forall|k: int|
                        1 <= k < t.len() && k != best && parent_of(k, d)
                            != best implies #[trigger] below_parent(t, d, k) by {
                        lemma_parent_below(k, d);
                        if k == h {
                            assert(at_most(s[best + 0], s[parent_of(h, d)]));
                        } else if parent_of(k, d) == h {
                            assert(at_most(s[k], s[best + 0]));
                        } else {
                            assert(below_parent(s, d, k));
                        }
                    }
                    assert forall|k: int|
                        1 <= k < t.len() && #[trigger] parent_of(k, d) == best implies at_most(
                        t[k],
                        t[parent_of(best + 0, d)],
                    ) by {
                        lemma_parent_below(k, d);
                        assert(below_parent(s, d, k));
                    }
                }
            }
            hole = best;
        }
        proof {
            if is_total_order::<T>() {
                let s = self.data@;
                let d = D + 0;
                assert forall|k: int| 1 <= k < s.len() implies #[trigger] parent_of(k, d)
                    != hole by {
                    if parent_of(k, d) == hole {
                        lemma_children_range(hole + 0, k, d);
                        assert(len >= 2);
                        assert(hole * d <= len - 2) by (nonlinear_arith)
                            requires
                                hole * d + 1 <= k,
                                k < len,
                        ;
                        assert(hole <= (len - 2) / d) by (nonlinear_arith)
                            requires
                                hole * d <= len - 2,
                                d >= 2,
                                hole >= 0,
                        ;
                    }
                }
            }
        }
        self.sift_up(hole);
        Some(ret)
    }
}

} // verus!
