//! Comparison sorts over a caller-supplied three-way comparator.
//!
//! Every sort rearranges its input (the multiset of elements is kept) and
//! leaves it in ascending order for every strict weak order that the
//! comparator decides: no element comes before an earlier one.

use std::cmp::Ordering;
use vstd::prelude::*;

verus! {

broadcast use vstd::seq_lib::group_to_multiset_ensures;

/// The relation `lt` is what the comparator `f` decides: whenever `f` may
/// answer `o` on `x` and `y`, the answer is `Less` exactly if `lt(x, y)`,
/// and `Equal` only if neither comes before the other.
pub open spec fn decides<T, F: Fn(&T, &T) -> Ordering>(f: F, lt: spec_fn(T, T) -> bool) -> bool {
    forall|x: T, y: T, o: Ordering| #[trigger]
        f.ensures((&x, &y), o) ==> ((o == Ordering::Less) == lt(x, y)) && (o == Ordering::Equal
            ==> !lt(y, x))
}

/// The relation is a strict weak order: asymmetric, with a transitive
/// complement.
pub open spec fn is_order<T>(lt: spec_fn(T, T) -> bool) -> bool {
    &&& forall|x: T, y: T| #[trigger] lt(x, y) ==> !lt(y, x)
    &&& forall|x: T, y: T, z: T| !#[trigger] lt(y, x) && !#[trigger] lt(z, y) ==> !lt(z, x)
}

/// The relation is a strict weak order that the comparator decides.
pub open spec fn orders<T, F: Fn(&T, &T) -> Ordering>(f: F, lt: spec_fn(T, T) -> bool) -> bool {
    decides(f, lt) && is_order(lt)
}

/// `x` comes strictly before `y` in some strict weak order that the
/// comparator `f` decides. So where `precedes(f, y, x)` is false, `y` is
/// not before `x` in any of them.
pub open spec fn precedes<T, F: Fn(&T, &T) -> Ordering>(f: F, x: T, y: T) -> bool {
    exists|lt: spec_fn(T, T) -> bool| #[trigger] orders(f, lt) && lt(x, y)
}

/// What the answers of a comparator tell, and how `precedes` chains.
pub open spec fn is_consistent<T, F: Fn(&T, &T) -> Ordering>(f: F) -> bool {
    &&& forall|x: T, y: T, o: Ordering| #[trigger]
        f.ensures((&x, &y), o) && o != Ordering::Less ==> !precedes(f, x, y)
    &&& forall|x: T, y: T| #[trigger] f.ensures((&x, &y), Ordering::Less) ==> !precedes(f, y, x)
    &&& forall|x: T, y: T| #[trigger] f.ensures((&x, &y), Ordering::Equal) ==> !precedes(f, y, x)
    &&& forall|x: T, y: T, z: T|
        !#[trigger] precedes(f, y, x) && !#[trigger] precedes(f, z, y) ==> !precedes(f, z, x)
}

/// Every comparator is consistent in this sense.
pub proof fn lemma_consistent<T, F: Fn(&T, &T) -> Ordering>(f: F)
    ensures
        is_consistent::<T, F>(f),
{
    assert forall|x: T, y: T, o: Ordering| #[trigger]
        f.ensures((&x, &y), o) && o != Ordering::Less implies !precedes(f, x, y) by {
        if precedes(f, x, y) {
            let lt = choose|lt: spec_fn(T, T) -> bool| #[trigger] orders(f, lt) && lt(x, y);
            assert(decides(f, lt));
        }
    }
    assert forall|x: T, y: T| #[trigger] f.ensures((&x, &y), Ordering::Less) implies !precedes(
        f,
        y,
        x,
    ) by {
        if precedes(f, y, x) {
            let lt = choose|lt: spec_fn(T, T) -> bool| #[trigger] orders(f, lt) && lt(y, x);
            assert(decides(f, lt));
            assert(lt(x, y));
        }
    }
    assert forall|x: T, y: T| #[trigger] f.ensures((&x, &y), Ordering::Equal) implies !precedes(
        f,
        y,
        x,
    ) by {
        if precedes(f, y, x) {
            let lt = choose|lt: spec_fn(T, T) -> bool| #[trigger] orders(f, lt) && lt(y, x);
            assert(decides(f, lt));
        }
    }
    assert forall|x: T, y: T, z: T|
        !#[trigger] precedes(f, y, x) && !#[trigger] precedes(f, z, y) implies !precedes(
        f,
        z,
        x,
    ) by {
        if precedes(f, z, x) {
            let lt = choose|lt: spec_fn(T, T) -> bool| #[trigger] orders(f, lt) && lt(z, x);
            assert(orders(f, lt));
            assert(!lt(y, x));
            assert(!lt(z, y));
        }
    }
}

/// The comparator may be called on every pair of values.
pub open spec fn is_total<T, F: Fn(&T, &T) -> Ordering>(f: F) -> bool {
    forall|x: &T, y: &T| f.requires((x, y))
}

/// No element of `s[lo..hi]` comes strictly before an earlier one, in
/// any order that the comparator decides.
pub open spec fn sorted_range<T, F: Fn(&T, &T) -> Ordering>(
    s: Seq<T>,
    lo: int,
    hi: int,
    f: F,
) -> bool {
    forall|p: int, q: int| lo <= p < q < hi ==> !precedes(f, #[trigger] s[q], #[trigger] s[p])
}

/// The whole sequence is in ascending order.
pub open spec fn sorted_by<T, F: Fn(&T, &T) -> Ordering>(s: Seq<T>, f: F) -> bool {
    sorted_range(s, 0, s.len() - 0, f)
}

/// `t` differs from `s` only inside `[lo, hi)`, where it is a rearrangement.
pub open spec fn rearranged_within<T>(s: Seq<T>, t: Seq<T>, lo: int, hi: int) -> bool {
    &&& s.len() == t.len()
    &&& forall|k: int| 0 <= k < s.len() && !(lo <= k < hi) ==> #[trigger] t[k] == s[k]
    &&& s.subrange(lo, hi).to_multiset() == t.subrange(lo, hi).to_multiset()
}

/// A rearrangement inside a window is a rearrangement of the whole sequence.
pub proof fn lemma_rearranged_whole<T>(s: Seq<T>, t: Seq<T>, lo: int, hi: int)
    requires
        0 <= lo <= hi <= s.len(),
        rearranged_within(s, t, lo, hi),
    ensures
        s.to_multiset() == t.to_multiset(),
{
    let (s0, s1, s2) = (s.subrange(0, lo), s.subrange(lo, hi), s.subrange(hi, s.len() as int));
    let (t0, t1, t2) = (t.subrange(0, lo), t.subrange(lo, hi), t.subrange(hi, t.len() as int));
    assert(s =~= s0 + s1 + s2);
    assert(t =~= t0 + t1 + t2);
    assert(s0 =~= t0);
    assert(s2 =~= t2);
    vstd::seq_lib::lemma_multiset_commutative(s0, s1);
    vstd::seq_lib::lemma_multiset_commutative(s0 + s1, s2);
    vstd::seq_lib::lemma_multiset_commutative(t0, t1);
    vstd::seq_lib::lemma_multiset_commutative(t0 + t1, t2);
}

/// A rearrangement inside a window is one inside every wider window.
pub proof fn lemma_rearranged_widen<T>(s: Seq<T>, t: Seq<T>, lo: int, hi: int, lo2: int, hi2: int)
    requires
        0 <= lo2 <= lo <= hi <= hi2 <= s.len(),
        rearranged_within(s, t, lo, hi),
    ensures
        rearranged_within(s, t, lo2, hi2),
{
    let ss = s.subrange(lo2, hi2);
    let tt = t.subrange(lo2, hi2);
    assert(rearranged_within(ss, tt, lo - lo2, hi - lo2)) by {
        assert(ss.subrange(lo - lo2, hi - lo2) =~= s.subrange(lo, hi));
        assert(tt.subrange(lo - lo2, hi - lo2) =~= t.subrange(lo, hi));
    }
    lemma_rearranged_whole(ss, tt, lo - lo2, hi - lo2);
}

/// Rearranging twice within one window is rearranging once.
pub proof fn lemma_rearranged_trans<T>(s: Seq<T>, t: Seq<T>, u: Seq<T>, lo: int, hi: int)
    requires
        rearranged_within(s, t, lo, hi),
        rearranged_within(t, u, lo, hi),
    ensures
        rearranged_within(s, u, lo, hi),
{
}

/// The sequence `s` with the elements at `i` and `j` exchanged.
pub open spec fn swapped<T>(s: Seq<T>, i: int, j: int) -> Seq<T> {
    s.update(i, s[j]).update(j, s[i])
}

/// Exchanging two elements keeps the multiset of elements.
pub proof fn lemma_swapped_multiset<T>(s: Seq<T>, i: int, j: int)
    requires
        0 <= i < s.len(),
        0 <= j < s.len(),
    ensures
        swapped(s, i, j).to_multiset() == s.to_multiset(),
{
    broadcast use vstd::multiset::group_multiset_axioms;

    vstd::seq_lib::to_multiset_update(s, i, s[j]);
    vstd::seq_lib::to_multiset_update(s.update(i, s[j]), j, s[i]);
    s.to_multiset_ensures();
    assert(s.to_multiset().count(s[i]) > 0);
    assert(s.to_multiset().count(s[j]) > 0);
    assert(swapped(s, i, j).to_multiset() =~= s.to_multiset());
}

/// `<[T]>::swap` of std: exchanges the elements at the two positions and
/// touches nothing else. Both positions must be in bounds, or it panics.
#[verifier::external_body]
pub(crate) fn swap_items<T>(a: &mut Vec<T>, i: usize, j: usize)
    requires
        i < old(a)@.len(),
        j < old(a)@.len(),
    ensures
        final(a)@ == swapped(old(a)@, i + 0, j + 0),
{
    a.swap(i, j)
}

/// Sorts `a` by repeatedly sinking the next element into the sorted prefix.
pub fn insertion_sort<T, F: Fn(&T, &T) -> Ordering>(a: &mut Vec<T>, is_less: F)
    requires
        is_total::<T, F>(is_less),
    ensures
        final(a)@.to_multiset() == old(a)@.to_multiset(),
        sorted_by(final(a)@, is_less),
{
    proof {
        lemma_consistent::<T, F>(is_less);
    }
    let n = a.len();
    let mut i: usize = 1;
    while i < n
        invariant
            n == a.len(),
            1 <= i,
            is_total::<T, F>(is_less),
            a@.to_multiset() == old(a)@.to_multiset(),
            is_consistent::<T, F>(is_less) ==> (forall|p: int, q: int|
                0 <= p < q < i && q < n ==> !precedes(is_less, #[trigger] a@[q], #[trigger] a@[p])),
        decreases n - i,
    {
        let mut j: usize = i;
        let mut sinking = true;
        while j > 0 && sinking
            invariant
                n == a.len(),
                j <= i < n,
                is_total::<T, F>(is_less),
                a@.to_multiset() == old(a)@.to_multiset(),
                is_consistent::<T, F>(is_less) ==> (forall|p: int, q: int|
                    0 <= p < q <= i && q != j ==> !precedes(
                        is_less,
                        #[trigger] a@[q],
                        #[trigger] a@[p],
                    )),
                is_consistent::<T, F>(is_less) && !sinking ==> (forall|p: int|
                    0 <= p < j ==> !precedes(is_less, a@[j + 0], #[trigger] a@[p])),
            decreases j + (if sinking { 1int } else { 0int }),
        {
            let o = is_less(&a[j], &a[j - 1]);
            match o {
                Ordering::Less => {
                    let ghost before = a@;
                    swap_items(a, j, j - 1);
                    proof {
                        lemma_swapped_multiset(before, j + 0, j - 1);
                    }
                    j -= 1;
                },
                _ => {
                    proof {
                        if is_consistent::<T, F>(is_less) {
                            assert(!precedes(is_less, a@[j + 0], a@[j - 1]));
                            assert forall|p: int| 0 <= p < j implies !precedes(
                                is_less,
                                a@[j + 0],
                                #[trigger] a@[p],
                            ) by {
                                if p < j - 1 {
                                    assert(!precedes(is_less, a@[j - 1], a@[p]));
                                }
                            }
                        }
                    }
                    sinking = false;
                },
            }
        }
        i += 1;
    }
}

/// Merges the two adjacent runs `a[lo..=mid]` and `a[mid+1..=hi]`, taking
/// from the right run only where its head comes strictly first.
fn merge<T: Copy, F: Fn(&T, &T) -> Ordering>(
    a: &mut Vec<T>,
    aux: &mut Vec<T>,
    lo: usize,
    mid: usize,
    hi: usize,
    is_less: &F,
)
    requires
        lo <= mid < hi < old(a).len(),
        old(aux).len() == old(a).len(),
        is_total::<T, F>(*is_less),
    ensures
        final(aux).len() == old(aux).len(),
        rearranged_within(old(a)@, final(a)@, lo + 0, hi + 1),
        is_consistent::<T, F>(*is_less) && sorted_range(old(a)@, lo + 0, mid + 1, *is_less)
            && sorted_range(old(a)@, mid + 1, hi + 1, *is_less) ==> sorted_range(
            final(a)@,
            lo + 0,
            hi + 1,
            *is_less,
        ),
{
    let mut k: usize = lo;
    while k <= hi
        invariant
            lo <= k <= hi + 1,
            hi < a.len(),
            aux.len() == a.len(),
            a@ == old(a)@,
            forall|m: int| lo <= m < k ==> #[trigger] aux@[m] == a@[m],
        decreases hi + 1 - k,
    {
        aux[k] = a[k];
        k += 1;
    }
    let ghost src = aux@;
    let ghost ordered = is_consistent::<T, F>(*is_less) && sorted_range(
        old(a)@,
        lo + 0,
        mid + 1,
        *is_less,
    ) && sorted_range(old(a)@, mid + 1, hi + 1, *is_less);
    proof {
        assert(src.subrange(lo + 0, hi + 1) =~= old(a)@.subrange(lo + 0, hi + 1));
        assert(a@.subrange(lo + 0, lo + 0) =~= Seq::<T>::empty());
        assert(src.subrange(lo + 0, lo + 0) =~= Seq::<T>::empty());
        assert(src.subrange(mid + 1, mid + 1) =~= Seq::<T>::empty());
        assert(Seq::<T>::empty().to_multiset().add(Seq::<T>::empty().to_multiset())
            =~= Seq::<T>::empty().to_multiset());
    }
    let mut i: usize = lo;
    let mut j: usize = mid + 1;
    k = lo;
    while k <= hi
        invariant
            lo <= mid < hi < a.len(),
            lo <= i <= mid + 1,
            mid + 1 <= j <= hi + 1,
            lo <= k <= hi + 1,
            k - lo == (i - lo) + (j - (mid + 1)),
            aux@ == src,
            aux.len() == a.len(),
            a.len() == old(a).len(),
            is_total::<T, F>(*is_less),
            forall|m: int| lo <= m <= hi ==> #[trigger] src[m] == old(a)@[m],
            forall|m: int| 0 <= m < a.len() && !(lo <= m < k) ==> #[trigger] a@[m] == old(a)@[m],
            a@.subrange(lo + 0, k + 0).to_multiset() == src.subrange(lo + 0, i + 0).to_multiset().add(
                src.subrange(mid + 1, j + 0).to_multiset(),
            ),
            ordered == (is_consistent::<T, F>(*is_less) && sorted_range(
                old(a)@,
                lo + 0,
                mid + 1,
                *is_less,
            ) && sorted_range(old(a)@, mid + 1, hi + 1, *is_less)),
            ordered ==> sorted_range(a@, lo + 0, k + 0, *is_less),
            ordered ==> (forall|p: int, q: int|
                lo <= p < k && (i <= q <= mid || j <= q <= hi) ==> !precedes(
                    *is_less,
                    #[trigger] src[q],
                    #[trigger] a@[p],
                )),
        decreases hi + 1 - k,
    {
        let ghost before = a@;
        let mut take_right = false;
        if i > mid {
            take_right = true;
        } else if j <= hi {
            let o = is_less(&aux[j], &aux[i]);
            match o {
                Ordering::Less => {
                    take_right = true;
                },
                _ => {},
            }
            proof {
                if ordered {
                    assert(src[j + 0] == old(a)@[j + 0]);
                    assert(src[i + 0] == old(a)@[i + 0]);
                    if take_right {
                        assert(!precedes(*is_less, src[i + 0], src[j + 0]));
                        assert forall|q: int| i <= q <= mid implies !precedes(
                            *is_less,
                            #[trigger] src[q],
                            src[j + 0],
                        ) by {
                            assert(src[q] == old(a)@[q]);
                            if q > i {
                                assert(!precedes(*is_less, old(a)@[q], old(a)@[i + 0]));
                            }
                        }
                    } else {
                        assert(!precedes(*is_less, src[j + 0], src[i + 0]));
                        assert forall|q: int| j <= q <= hi implies !precedes(
                            *is_less,
                            #[trigger] src[q],
                            src[i + 0],
                        ) by {
                            assert(src[q] == old(a)@[q]);
                            if q > j {
                                assert(!precedes(*is_less, old(a)@[q], old(a)@[j + 0]));
                            }
                        }
                    }
                }
            }
        }
        if take_right {
            a[k] = aux[j];
            proof {
                assert(src.subrange(mid + 1, j + 1) =~= src.subrange(mid + 1, j + 0).push(
                    src[j + 0],
                ));
                assert(a@.subrange(lo + 0, k + 1) =~= before.subrange(lo + 0, k + 0).push(
                    src[j + 0],
                ));
                assert(a@.subrange(lo + 0, k + 1).to_multiset() =~= src.subrange(
                    lo + 0,
                    i + 0,
                ).to_multiset().add(src.subrange(mid + 1, j + 1).to_multiset()));
                if ordered {
                    assert forall|q: int| j < q <= hi implies !precedes(
                        *is_less,
                        #[trigger] src[q],
                        src[j + 0],
                    ) by {
                        assert(src[q] == old(a)@[q]);
                        assert(src[j + 0] == old(a)@[j + 0]);
                    }
                    assert forall|p: int, q: int|
                        lo <= p < k + 1 && (i <= q <= mid || j + 1 <= q <= hi) implies !precedes(
                        *is_less,
                        #[trigger] src[q],
                        #[trigger] a@[p],
                    ) by {
                        if p < k {
                            assert(a@[p] == before[p]);
                        }
                    }
                    assert forall|p: int, q: int| lo <= p < q < k + 1 implies !precedes(
                        *is_less,
                        #[trigger] a@[q],
                        #[trigger] a@[p],
                    ) by {
                        assert(a@[p] == before[p]);
                        if q < k {
                            assert(a@[q] == before[q]);
                        }
                    }
                }
            }
            j += 1;
        } else {
            a[k] = aux[i];
            proof {
                assert(src.subrange(lo + 0, i + 1) =~= src.subrange(lo + 0, i + 0).push(
                    src[i + 0],
                ));
                assert(a@.subrange(lo + 0, k + 1) =~= before.subrange(lo + 0, k + 0).push(
                    src[i + 0],
                ));
                assert(a@.subrange(lo + 0, k + 1).to_multiset() =~= src.subrange(
                    lo + 0,
                    i + 1,
                ).to_multiset().add(src.subrange(mid + 1, j + 0).to_multiset()));
                if ordered {
                    assert forall|q: int| i < q <= mid implies !precedes(
                        *is_less,
                        #[trigger] src[q],
                        src[i + 0],
                    ) by {
                        assert(src[q] == old(a)@[q]);
                        assert(src[i + 0] == old(a)@[i + 0]);
                    }
                    assert forall|p: int, q: int|
                        lo <= p < k + 1 && (i + 1 <= q <= mid || j <= q <= hi) implies !precedes(
                        *is_less,
                        #[trigger] src[q],
                        #[trigger] a@[p],
                    ) by {
                        if p < k {
                            assert(a@[p] == before[p]);
                        }
                    }
                    assert forall|p: int, q: int| lo <= p < q < k + 1 implies !precedes(
                        *is_less,
                        #[trigger] a@[q],
                        #[trigger] a@[p],
                    ) by {
                        assert(a@[p] == before[p]);
                        if q < k {
                            assert(a@[q] == before[q]);
                        }
                    }
                }
            }
            i += 1;
        }
        k += 1;
    }
    proof {
        assert(src.subrange(lo + 0, hi + 1) =~= src.subrange(lo + 0, mid + 1) + src.subrange(
            mid + 1,
            hi + 1,
        ));
        vstd::seq_lib::lemma_multiset_commutative(
            src.subrange(lo + 0, mid + 1),
            src.subrange(mid + 1, hi + 1),
        );
        assert(src.subrange(lo + 0, hi + 1) =~= old(a)@.subrange(lo + 0, hi + 1));
    }
}

/// Sorts `a[lo..=hi]` by sorting each half and merging them.
fn top_down_merge_sort_aux<T: Copy, F: Fn(&T, &T) -> Ordering>(
    a: &mut Vec<T>,
    aux: &mut Vec<T>,
    lo: usize,
    hi: usize,
    is_less: &F,
)
    requires
        lo <= hi < old(a).len(),
        old(aux).len() == old(a).len(),
        is_total::<T, F>(*is_less),
    ensures
        final(aux).len() == old(aux).len(),
        rearranged_within(old(a)@, final(a)@, lo + 0, hi + 1),
        is_consistent::<T, F>(*is_less) ==> sorted_range(
            final(a)@,
            lo + 0,
            hi + 1,
            *is_less,
        ),
    decreases hi - lo,
{
    if hi <= lo {
        return ;
    }
    let mid = lo + (hi - lo) / 2;
    top_down_merge_sort_aux(a, aux, lo, mid, is_less);
    let ghost a1 = a@;
    top_down_merge_sort_aux(a, aux, mid + 1, hi, is_less);
    let ghost a2 = a@;
    proof {
        if is_consistent::<T, F>(*is_less) {
            assert forall|p: int, q: int| lo <= p < q < mid + 1 implies !precedes(
                *is_less,
                #[trigger] a2[q],
                #[trigger] a2[p],
            ) by {
                assert(a2[p] == a1[p]);
                assert(a2[q] == a1[q]);
            }
        }
    }
    merge(a, aux, lo, mid, hi, is_less);
    proof {
        lemma_rearranged_widen(old(a)@, a1, lo + 0, mid + 1, lo + 0, hi + 1);
        lemma_rearranged_widen(a1, a2, mid + 1, hi + 1, lo + 0, hi + 1);
        lemma_rearranged_trans(old(a)@, a1, a2, lo + 0, hi + 1);
        lemma_rearranged_trans(old(a)@, a2, a@, lo + 0, hi + 1);
    }
}

/// Sorts `a` by recursive halving and merging.
pub fn top_down_merge_sort<T: Copy, F: Fn(&T, &T) -> Ordering>(a: &mut Vec<T>, is_less: F)
    requires
        is_total::<T, F>(is_less),
    ensures
        final(a)@.to_multiset() == old(a)@.to_multiset(),
        sorted_by(final(a)@, is_less),
{
    proof {
        lemma_consistent::<T, F>(is_less);
    }
    let n = a.len();
    if n == 0 {
        return ;
    }
    let mut aux = a.clone();
    top_down_merge_sort_aux(a, &mut aux, 0, n - 1, &is_less);
    proof {
        lemma_rearranged_whole(old(a)@, a@, 0, n + 0);
    }
}

/// `st[p]` is the start of the run that holds position `p`, where the
/// runs are `width` long, but for the last, which may be shorter.
pub open spec fn runs_of(st: Seq<int>, width: int, upto: int) -> bool {
    &&& forall|p: int| 0 <= p < upto ==> 0 <= #[trigger] st[p] <= p < st[p] + width
    &&& forall|p: int, q: int| 0 <= p <= q < upto ==> #[trigger] st[p] <= #[trigger] st[q]
    &&& forall|p: int, q: int|
        0 <= p < upto && 0 <= q < upto && #[trigger] st[p] < #[trigger] st[q] ==> st[p] + width
            <= st[q]
}

/// Within every run no element comes strictly before an earlier one.
pub open spec fn runs_sorted<T, F: Fn(&T, &T) -> Ordering>(
    s: Seq<T>,
    st: Seq<int>,
    from: int,
    upto: int,
    f: F,
) -> bool {
    forall|p: int, q: int|
        from <= p < q < upto && st[p] == st[q] ==> !precedes(f, #[trigger] s[q], #[trigger] s[p])
}

/// Sorts `a` by merging runs of doubling width, from single elements up.
pub fn bottom_up_merge_sort<T: Copy, F: Fn(&T, &T) -> Ordering>(a: &mut Vec<T>, is_less: F)
    requires
        is_total::<T, F>(is_less),
    ensures
        final(a)@.to_multiset() == old(a)@.to_multiset(),
        sorted_by(final(a)@, is_less),
{
    proof {
        lemma_consistent::<T, F>(is_less);
    }
    let n = a.len();
    let mut aux = a.clone();
    let ghost ordered = is_consistent::<T, F>(is_less);
    let ghost mut st: Seq<int> = Seq::new(a@.len(), |p: int| p);
    let ghost mut width: int = 1;
    let mut sz: usize = 1;
    while sz < n
        invariant
            n == a.len(),
            aux.len() == n,
            is_total::<T, F>(is_less),
            ordered == is_consistent::<T, F>(is_less),
            a@.to_multiset() == old(a)@.to_multiset(),
            1 <= sz,
            sz == width || (sz == n && width >= n),
            st.len() == n,
            runs_of(st, width, n + 0),
            ordered ==> runs_sorted(a@, st, 0, n + 0, is_less),
        decreases n - sz,
    {
        let ghost mut st2: Seq<int> = st;
        let ghost pass = a@;
        let mut lo: usize = 0;
        while lo < n - sz
            invariant
                n == a.len(),
                aux.len() == n,
                is_total::<T, F>(is_less),
                ordered == is_consistent::<T, F>(is_less),
                a@.to_multiset() == old(a)@.to_multiset(),
                1 <= sz < n,
                sz == width,
                lo <= n,
                st.len() == n,
                st2.len() == n,
                runs_of(st, width, n + 0),
                lo < n ==> st[lo + 0] == lo,
                forall|p: int| lo <= p < n ==> #[trigger] a@[p] == pass[p],
                ordered ==> runs_sorted(pass, st, 0, n + 0, is_less),
                runs_of(st2, width + width, lo + 0),
                pass.len() == n,
                lo < n ==> forall|p: int| 0 <= p < lo ==> (#[trigger] st2[p]) + width + width <= lo,
                ordered ==> runs_sorted(a@, st2, 0, lo + 0, is_less),
            decreases n - lo,
        {
            let mid = lo + sz - 1;
            let hi = if n - lo - sz <= sz {
                n - 1
            } else {
                lo + sz + sz - 1
            };
            let ghost before = a@;
            proof {
                assert forall|p: int| lo <= p <= mid implies #[trigger] st[p] == lo by {}
                assert(st[mid + 1] == mid + 1);
                assert forall|p: int| mid < p <= hi implies #[trigger] st[p] == mid + 1 by {}
                if ordered {
                    assert forall|p: int, q: int| lo <= p < q < mid + 1 implies !precedes(
                        is_less,
                        #[trigger] before[q],
                        #[trigger] before[p],
                    ) by {
                        assert(st[p] == st[q]);
                        assert(!precedes(is_less, pass[q], pass[p]));
                    }
                    assert forall|p: int, q: int| mid + 1 <= p < q < hi + 1 implies !precedes(
                        is_less,
                        #[trigger] before[q],
                        #[trigger] before[p],
                    ) by {
                        assert(st[p] == st[q]);
                        assert(!precedes(is_less, pass[q], pass[p]));
                    }
                }
            }
            merge(a, &mut aux, lo, mid, hi, &is_less);
            proof {
                lemma_rearranged_whole(before, a@, lo + 0, hi + 1);
                let ghost old_st2 = st2;
                st2 = Seq::new(
                    st2.len(),
                    |p: int|
                        if lo <= p <= hi {
                            lo + 0
                        } else {
                            old_st2[p]
                        },
                );
                if hi + 1 < n {
                    assert(st[hi + 1] == hi + 1) by {
                        assert(st[hi + 1] > st[mid + 1]);
                    }
                }
                assert forall|p: int| 0 <= p < hi + 1 implies 0 <= #[trigger] st2[p] <= p < st2[p]
                    + (width + width) by {
                    if p < lo {
                        assert(old_st2[p] + width + width <= lo);
                    }
                }
                assert forall|p: int, q: int| 0 <= p <= q < hi + 1 implies #[trigger] st2[p]
                    <= #[trigger] st2[q] by {
                    if p < lo {
                        assert(old_st2[p] + width + width <= lo);
                    }
                }
                assert forall|p: int, q: int|
                    0 <= p < hi + 1 && 0 <= q < hi + 1 && #[trigger] st2[p]
                        < #[trigger] st2[q] implies st2[p] + (width + width) <= st2[q] by {
                    if p < lo {
                        assert(old_st2[p] + width + width <= lo);
                    }
                    if q < lo {
                        assert(old_st2[q] + width + width <= lo);
                    }
                }
                if ordered {
                    assert forall|p: int, q: int|
                        0 <= p < q < hi + 1 && st2[p] == st2[q] implies !precedes(
                        is_less,
                        #[trigger] a@[q],
                        #[trigger] a@[p],
                    ) by {
                        if q < lo {
                            assert(a@[p] == before[p]);
                            assert(a@[q] == before[q]);
                            assert(old_st2[p] == old_st2[q]);
                        } else if p < lo {
                            assert(old_st2[p] + width + width <= lo);
                        }
                    }
                }
            }
            lo = hi + 1;
        }
        proof {
            let ghost old_st2 = st2;
            st2 = Seq::new(
                st2.len(),
                |p: int|
                    if lo <= p {
                        lo + 0
                    } else {
                        old_st2[p]
                    },
            );
            assert forall|p: int| 0 <= p < lo implies #[trigger] st2[p] == old_st2[p] by {}
            assert forall|p: int| lo <= p < n implies #[trigger] st[p] == lo by {}
            assert forall|p: int| 0 <= p < n implies 0 <= #[trigger] st2[p] <= p < st2[p] + (width
                + width) by {
                if p < lo {
                    if lo < n {
                        if lo < n {
                            assert(old_st2[p] + width + width <= lo);
                        }
                    }
                }
            }
            assert forall|p: int, q: int| 0 <= p <= q < n implies #[trigger] st2[p]
                <= #[trigger] st2[q] by {
                if p < lo {
                    if lo < n {
                        if lo < n {
                            assert(old_st2[p] + width + width <= lo);
                        }
                    }
                }
            }
            assert forall|p: int, q: int|
                0 <= p < n && 0 <= q < n && #[trigger] st2[p] < #[trigger] st2[q] implies st2[p] + (
                width + width) <= st2[q] by {
                if p < lo {
                    if lo < n {
                        if lo < n {
                            assert(old_st2[p] + width + width <= lo);
                        }
                    }
                }
                if q < lo {
                    if lo < n {
                        assert(old_st2[q] + width + width <= lo);
                    }
                }
            }
            if ordered {
                assert forall|p: int, q: int|
                    0 <= p < q < n && st2[p] == st2[q] implies !precedes(
                    is_less,
                    #[trigger] a@[q],
                    #[trigger] a@[p],
                ) by {
                    if q < lo {
                        assert(old_st2[p] == old_st2[q]);
                    } else if p < lo {
                        if lo < n {
                        if lo < n {
                            assert(old_st2[p] + width + width <= lo);
                        }
                    }
                    } else {
                        assert(st[p] == st[q]);
                        assert(!precedes(is_less, pass[q], pass[p]));
                    }
                }
            }
            st = st2;
            width = width + width;
        }
        sz = if sz >= n - sz {
            n
        } else {
            sz + sz
        };
    }
    proof {
        if ordered {
            assert forall|p: int, q: int| 0 <= p < q < n implies !precedes(
                is_less,
                #[trigger] a@[q],
                #[trigger] a@[p],
            ) by {
                if n > 1 {
                    assert(st[0] == 0);
                    assert(st[p] == 0) by {
                        if st[p] > st[0] {
                            assert(st[0] + width <= st[p]);
                        }
                    }
                    assert(st[q] == 0) by {
                        if st[q] > st[0] {
                            assert(st[0] + width <= st[q]);
                        }
                    }
                }
            }
        }
    }
}

/// `SliceRandom::shuffle` of the `rand` crate with the thread's generator
/// from `rand::rng`: the elements are put in a random order, none is lost
/// or added.
#[verifier::external_body]
fn shuffle_items<T>(a: &mut Vec<T>)
    ensures
        final(a)@.to_multiset() == old(a)@.to_multiset(),
{
    rand::seq::SliceRandom::shuffle(a.as_mut_slice(), &mut rand::rng())
}

/// Exchanging two elements inside a window rearranges within the window.
pub proof fn lemma_swap_within<T>(s: Seq<T>, i: int, j: int, lo: int, hi: int)
    requires
        0 <= lo <= i < hi <= s.len(),
        lo <= j < hi,
    ensures
        rearranged_within(s, swapped(s, i, j), lo, hi),
{
    let w = s.subrange(lo, hi);
    lemma_swapped_multiset(w, i - lo, j - lo);
    assert(swapped(s, i, j).subrange(lo, hi) =~= swapped(w, i - lo, j - lo));
}

/// After a rearrangement within a window, every element in the window was
/// in the window before.
pub proof fn lemma_rearranged_member<T>(s: Seq<T>, t: Seq<T>, lo: int, hi: int, k: int) -> (from: int)
    requires
        0 <= lo <= k < hi <= s.len(),
        rearranged_within(s, t, lo, hi),
    ensures
        lo <= from < hi,
        s[from] == t[k],
{
    let sw = s.subrange(lo, hi);
    let tw = t.subrange(lo, hi);
    assert(tw[k - lo] == t[k]);
    assert(tw.contains(t[k]));
    vstd::seq_lib::to_multiset_contains(tw, t[k]);
    vstd::seq_lib::to_multiset_contains(sw, t[k]);
    assert(sw.contains(t[k]));
    let m = choose|m: int| 0 <= m < sw.len() && sw[m] == t[k];
    lo + m
}

/// Nothing in `s[lo..hi]` comes strictly after `v`.
pub open spec fn none_after<T, F: Fn(&T, &T) -> Ordering>(
    s: Seq<T>,
    lo: int,
    hi: int,
    v: T,
    f: F,
) -> bool {
    forall|k: int| lo <= k < hi ==> !precedes(f, v, #[trigger] s[k])
}

/// Nothing in `s[lo..hi]` comes strictly before `v`.
pub open spec fn none_before<T, F: Fn(&T, &T) -> Ordering>(
    s: Seq<T>,
    lo: int,
    hi: int,
    v: T,
    f: F,
) -> bool {
    forall|k: int| lo <= k < hi ==> !precedes(f, #[trigger] s[k], v)
}

/// A rearrangement within a window keeps what holds of all its elements.
pub proof fn lemma_bounds_kept<T, F: Fn(&T, &T) -> Ordering>(
    s: Seq<T>,
    t: Seq<T>,
    lo: int,
    hi: int,
    v: T,
    f: F,
)
    requires
        0 <= lo <= hi <= s.len(),
        rearranged_within(s, t, lo, hi),
    ensures
        none_after(s, lo, hi, v, f) ==> none_after(t, lo, hi, v, f),
        none_before(s, lo, hi, v, f) ==> none_before(t, lo, hi, v, f),
{
    assert forall|k: int| lo <= k < hi implies (none_after(s, lo, hi, v, f) ==> !precedes(
        f,
        v,
        #[trigger] t[k],
    )) && (none_before(s, lo, hi, v, f) ==> !precedes(f, t[k], v)) by {
        let from = lemma_rearranged_member(s, t, lo, hi, k);
        assert(s[from] == t[k]);
    }
}

/// Splits `a[lo..=hi]` around its first element: returns the place `j`
/// where that element ends up, with nothing after it to the left and
/// nothing before it to the right.
fn partition<T: Copy, F: Fn(&T, &T) -> Ordering>(
    a: &mut Vec<T>,
    lo: usize,
    hi: usize,
    is_less: &F,
) -> (j: usize)
    requires
        lo < hi < old(a).len(),
        is_total::<T, F>(*is_less),
    ensures
        lo <= j <= hi,
        rearranged_within(old(a)@, final(a)@, lo + 0, hi + 1),
        is_consistent::<T, F>(*is_less) ==> none_after(
            final(a)@,
            lo + 0,
            j + 0,
            final(a)@[j + 0],
            *is_less,
        ) && none_before(final(a)@, j + 1, hi + 1, final(a)@[j + 0], *is_less),
{
    let ghost ordered = is_consistent::<T, F>(*is_less);
    let mut i: usize = lo;
    let mut j: usize = hi + 1;
    let v = a[lo];
    let mut open = true;
    while open
        invariant
            lo < hi < a.len(),
            a.len() == old(a).len(),
            is_total::<T, F>(*is_less),
            ordered == is_consistent::<T, F>(*is_less),
            a@[lo + 0] == v,
            rearranged_within(old(a)@, a@, lo + 0, hi + 1),
            open ==> (i == lo && j == hi + 1) || (lo < i < j <= hi),
            !open ==> lo <= j <= i <= hi && j <= hi,
            ordered && open ==> none_after(a@, lo + 1, i + 1, v, *is_less),
            ordered && !open ==> none_after(a@, lo + 1, j + 1, v, *is_less),
            ordered && open ==> none_before(a@, j + 0, hi + 1, v, *is_less),
            ordered && !open ==> none_before(a@, j + 1, hi + 1, v, *is_less),
        decreases (if open { 1int } else { 0int }), j - i,
    {
        let ghost i0 = i;
        let ghost j0 = j;
        i += 1;
        let mut rising = true;
        let mut low_not_before = false;
        while i < hi && rising
            invariant
                i0 < i,
                lo < i <= hi < a.len(),
                is_total::<T, F>(*is_less),
                ordered == is_consistent::<T, F>(*is_less),
                ordered ==> none_after(a@, lo + 1, i + 0, v, *is_less),
                !rising ==> low_not_before,
                ordered && low_not_before ==> !precedes(*is_less, a@[i + 0], v),
            decreases hi - i + (if rising { 1int } else { 0int }),
        {
            let o = is_less(&a[i], &v);
            match o {
                Ordering::Less => {
                    i += 1;
                },
                _ => {
                    rising = false;
                    low_not_before = true;
                },
            }
        }
        j -= 1;
        let mut falling = true;
        let mut high_not_after = false;
        while j > lo && falling
            invariant
                j < j0,
                lo <= j <= hi < a.len(),
                is_total::<T, F>(*is_less),
                ordered == is_consistent::<T, F>(*is_less),
                ordered ==> none_before(a@, j + 1, hi + 1, v, *is_less),
                !falling ==> high_not_after,
                ordered && high_not_after ==> !precedes(*is_less, v, a@[j + 0]),
            decreases j + (if falling { 1int } else { 0int }),
        {
            let o = is_less(&v, &a[j]);
            match o {
                Ordering::Less => {
                    j -= 1;
                },
                _ => {
                    falling = false;
                    high_not_after = true;
                },
            }
        }
        if i >= j {
            open = false;
        } else {
            let ghost before = a@;
            swap_items(a, i, j);
            proof {
                lemma_swap_within(before, i + 0, j + 0, lo + 0, hi + 1);
                lemma_rearranged_trans(old(a)@, before, a@, lo + 0, hi + 1);
                if ordered {
                    assert forall|k: int| lo + 1 <= k < i + 1 implies !precedes(
                        *is_less,
                        v,
                        #[trigger] a@[k],
                    ) by {
                        if k < i {
                            assert(a@[k] == before[k]);
                        }
                    }
                    assert forall|k: int| j <= k < hi + 1 implies !precedes(
                        *is_less,
                        #[trigger] a@[k],
                        v,
                    ) by {
                        if k > j {
                            assert(a@[k] == before[k]);
                        }
                    }
                }
            }
        }
    }
    let ghost before = a@;
    swap_items(a, lo, j);
    proof {
        lemma_swap_within(before, lo + 0, j + 0, lo + 0, hi + 1);
        lemma_rearranged_trans(old(a)@, before, a@, lo + 0, hi + 1);
        if ordered {
            assert forall|k: int| lo <= k < j implies !precedes(
                *is_less,
                a@[j + 0],
                #[trigger] a@[k],
            ) by {
                if k > lo {
                    assert(a@[k] == before[k]);
                }
            }
            assert forall|k: int| j + 1 <= k < hi + 1 implies !precedes(
                *is_less,
                #[trigger] a@[k],
                a@[j + 0],
            ) by {
                assert(a@[k] == before[k]);
            }
        }
    }
    j
}

/// The end of the window `[lo, hi]`, which is empty where `hi < lo`.
pub open spec fn window_end(lo: int, hi: int) -> int {
    if hi >= lo {
        hi + 1
    } else {
        lo
    }
}

/// Two sorted windows around a place that bounds them make one sorted window.
pub proof fn lemma_sorted_around<T, F: Fn(&T, &T) -> Ordering>(
    s: Seq<T>,
    lo: int,
    left: int,
    right: int,
    hi: int,
    v: T,
    f: F,
)
    requires
        0 <= lo <= left < right <= hi <= s.len(),
        is_consistent::<T, F>(f),
        sorted_range(s, lo, left, f),
        sorted_range(s, right, hi, f),
        none_after(s, lo, right, v, f),
        none_before(s, left, hi, v, f),
    ensures
        sorted_range(s, lo, hi, f),
{
    assert forall|p: int, q: int| lo <= p < q < hi implies !precedes(
        f,
        #[trigger] s[q],
        #[trigger] s[p],
    ) by {
        if q < left || p >= right {
        } else {
            assert(!precedes(f, v, s[p]));
            assert(!precedes(f, s[q], v));
        }
    }
}

/// Sorts `a[lo..=hi]` by splitting around a pivot and sorting both sides.
fn quick_sort_aux<T: Copy, F: Fn(&T, &T) -> Ordering>(
    a: &mut Vec<T>,
    lo: usize,
    hi: usize,
    is_less: &F,
)
    requires
        lo <= old(a).len(),
        hi < old(a).len() || hi <= lo,
        is_total::<T, F>(*is_less),
    ensures
        rearranged_within(old(a)@, final(a)@, lo + 0, window_end(lo + 0, hi + 0)),
        is_consistent::<T, F>(*is_less) ==> sorted_range(
            final(a)@,
            lo + 0,
            window_end(lo + 0, hi + 0),
            *is_less,
        ),
    decreases window_end(lo + 0, hi + 0) - lo,
{
    if hi <= lo {
        return ;
    }
    let j = partition(a, lo, hi, is_less);
    let ghost a1 = a@;
    let ghost v = a1[j + 0];
    if j >= 1 {
        quick_sort_aux(a, lo, j - 1, is_less);
    }
    let ghost a2 = a@;
    quick_sort_aux(a, j + 1, hi, is_less);
    proof {
        let ghost a3 = a@;
        let e1 = window_end(lo + 0, j - 1);
        let e2 = window_end(j + 1, hi + 0);
        assert(rearranged_within(a1, a2, lo + 0, e1));
        lemma_bounds_kept(a1, a2, lo + 0, e1, v, *is_less);
        lemma_bounds_kept(a2, a3, j + 1, e2, v, *is_less);
        lemma_rearranged_widen(a1, a2, lo + 0, e1, lo + 0, hi + 1);
        lemma_rearranged_widen(a2, a3, j + 1, e2, lo + 0, hi + 1);
        lemma_rearranged_trans(old(a)@, a1, a2, lo + 0, hi + 1);
        lemma_rearranged_trans(old(a)@, a2, a3, lo + 0, hi + 1);
        if is_consistent::<T, F>(*is_less) {
            assert(a3[j + 0] == v);
            assert(!precedes(*is_less, v, v));
            assert(none_after(a3, lo + 0, j + 1, v, *is_less)) by {
                assert forall|k: int| lo <= k < j + 1 implies !precedes(
                    *is_less,
                    v,
                    #[trigger] a3[k],
                ) by {
                    if k < j {
                        assert(a3[k] == a2[k]);
                        assert(!precedes(*is_less, v, a1[k]));
                    }
                }
            }
            assert(none_before(a3, j + 0, hi + 1, v, *is_less)) by {
                assert forall|k: int| j <= k < hi + 1 implies !precedes(
                    *is_less,
                    #[trigger] a3[k],
                    v,
                ) by {
                    if k > j {
                        assert(a2[k] == a1[k]);
                        assert(!precedes(*is_less, a1[k], v));
                    }
                }
            }
            assert(sorted_range(a3, lo + 0, j + 0, *is_less)) by {
                assert forall|p: int, q: int| lo <= p < q < j implies !precedes(
                    *is_less,
                    #[trigger] a3[q],
                    #[trigger] a3[p],
                ) by {
                    assert(a3[p] == a2[p]);
                    assert(a3[q] == a2[q]);
                }
            }
            lemma_sorted_around(a3, lo + 0, j + 0, j + 1, hi + 1, v, *is_less);
        }
    }
}

/// Sorts `a` by quicksort, after shuffling it.
pub fn quick_sort<T: Copy, F: Fn(&T, &T) -> Ordering>(a: &mut Vec<T>, is_less: F)
    requires
        is_total::<T, F>(is_less),
    ensures
        final(a)@.to_multiset() == old(a)@.to_multiset(),
        sorted_by(final(a)@, is_less),
{
    proof {
        lemma_consistent::<T, F>(is_less);
    }
    let n = a.len();
    if n == 0 {
        return ;
    }
    shuffle_items(a);
    let ghost shuffled = a@;
    proof {
        shuffled.to_multiset_ensures();
        old(a)@.to_multiset_ensures();
    }
    quick_sort_aux(a, 0, n - 1, &is_less);
    proof {
        lemma_rearranged_whole(shuffled, a@, 0, n + 0);
    }
}

/// Sorts `a[lo..=hi]` by splitting it in three around its first element
/// (before it, level with it, after it) and sorting the outer two.
fn quick_sort_3way_aux<T: Copy, F: Fn(&T, &T) -> Ordering>(
    a: &mut Vec<T>,
    lo: usize,
    hi: usize,
    is_less: &F,
)
    requires
        lo <= old(a).len(),
        hi < old(a).len() || hi <= lo,
        is_total::<T, F>(*is_less),
    ensures
        rearranged_within(old(a)@, final(a)@, lo + 0, window_end(lo + 0, hi + 0)),
        is_consistent::<T, F>(*is_less)
            ==> sorted_range(final(a)@, lo + 0, window_end(lo + 0, hi + 0), *is_less),
    decreases window_end(lo + 0, hi + 0) - lo,
{
    if hi <= lo {
        return ;
    }
    let ghost good = is_consistent::<T, F>(*is_less);
    let mut lt: usize = lo;
    let mut gt: usize = hi;
    let v = a[lo];
    let mut i: usize = lo + 1;
    proof {
        if good {
            assert(!precedes(*is_less, v, v));
        }
    }
    while i <= gt
        invariant
            lo <= lt < i <= gt + 1 <= hi + 1,
            hi < a.len(),
            a.len() == old(a).len(),
            is_total::<T, F>(*is_less),
            good == (is_consistent::<T, F>(*is_less)),
            rearranged_within(old(a)@, a@, lo + 0, hi + 1),
            good ==> none_after(a@, lo + 0, i + 0, v, *is_less),
            good ==> none_before(a@, lt + 0, i + 0, v, *is_less),
            good ==> none_before(a@, gt + 1, hi + 1, v, *is_less),
        decreases gt + 1 - i,
    {
        let ghost before = a@;
        let o = is_less(&a[i], &v);
        match o {
            Ordering::Less => {
                swap_items(a, lt, i);
                proof {
                    lemma_swap_within(before, lt + 0, i + 0, lo + 0, hi + 1);
                    lemma_rearranged_trans(old(a)@, before, a@, lo + 0, hi + 1);
                    if good {
                        assert(!precedes(*is_less, v, before[i + 0]));
                        assert forall|k: int| lo <= k < i + 1 implies !precedes(
                            *is_less,
                            v,
                            #[trigger] a@[k],
                        ) by {
                            if k != lt && k != i {
                                assert(a@[k] == before[k]);
                            }
                        }
                        assert forall|k: int| lt + 1 <= k < i + 1 implies !precedes(
                            *is_less,
                            #[trigger] a@[k],
                            v,
                        ) by {
                            if k != i {
                                assert(a@[k] == before[k]);
                            }
                        }
                        assert forall|k: int| gt + 1 <= k < hi + 1 implies !precedes(
                            *is_less,
                            #[trigger] a@[k],
                            v,
                        ) by {
                            assert(a@[k] == before[k]);
                        }
                    }
                }
                lt += 1;
                i += 1;
            },
            Ordering::Equal => {
                proof {
                    if good {
                        assert(!precedes(*is_less, v, before[i + 0]));
                        assert(!precedes(*is_less, before[i + 0], v));
                    }
                }
                i += 1;
            },
            Ordering::Greater => {
                swap_items(a, i, gt);
                proof {
                    lemma_swap_within(before, i + 0, gt + 0, lo + 0, hi + 1);
                    lemma_rearranged_trans(old(a)@, before, a@, lo + 0, hi + 1);
                    if good {
                        assert(!precedes(*is_less, before[i + 0], v));
                        assert forall|k: int| lo <= k < i implies !precedes(
                            *is_less,
                            v,
                            #[trigger] a@[k],
                        ) by {
                            assert(a@[k] == before[k]);
                        }
                        assert forall|k: int| lt <= k < i implies !precedes(
                            *is_less,
                            #[trigger] a@[k],
                            v,
                        ) by {
                            assert(a@[k] == before[k]);
                        }
                        assert forall|k: int| gt <= k < hi + 1 implies !precedes(
                            *is_less,
                            #[trigger] a@[k],
                            v,
                        ) by {
                            if k != gt {
                                assert(a@[k] == before[k]);
                            }
                        }
                    }
                }
                gt -= 1;
            },
        }
    }
    let ghost a1 = a@;
    if lt >= 1 {
        quick_sort_3way_aux(a, lo, lt - 1, is_less);
    }
    let ghost a2 = a@;
    quick_sort_3way_aux(a, gt + 1, hi, is_less);
    proof {
        let ghost a3 = a@;
        let e1 = window_end(lo + 0, lt - 1);
        let e2 = window_end(gt + 1, hi + 0);
        assert(rearranged_within(a1, a2, lo + 0, e1));
        lemma_bounds_kept(a1, a2, lo + 0, e1, v, *is_less);
        lemma_bounds_kept(a2, a3, gt + 1, e2, v, *is_less);
        lemma_rearranged_widen(a1, a2, lo + 0, e1, lo + 0, hi + 1);
        lemma_rearranged_widen(a2, a3, gt + 1, e2, lo + 0, hi + 1);
        lemma_rearranged_trans(old(a)@, a1, a2, lo + 0, hi + 1);
        lemma_rearranged_trans(old(a)@, a2, a3, lo + 0, hi + 1);
        if good {
            assert(none_after(a1, lo + 0, e1, v, *is_less));
            assert(none_before(a2, gt + 1, e2, v, *is_less)) by {
                assert forall|k: int| gt + 1 <= k < e2 implies !precedes(
                    *is_less,
                    #[trigger] a2[k],
                    v,
                ) by {
                    assert(a2[k] == a1[k]);
                }
            }
            assert(none_after(a3, lo + 0, gt + 1, v, *is_less)) by {
                assert forall|k: int| lo <= k < gt + 1 implies !precedes(
                    *is_less,
                    v,
                    #[trigger] a3[k],
                ) by {
                    assert(a3[k] == a2[k]);
                    if k >= lt {
                        assert(a2[k] == a1[k]);
                    }
                }
            }
            assert(none_before(a3, lt + 0, hi + 1, v, *is_less)) by {
                assert forall|k: int| lt <= k < hi + 1 implies !precedes(
                    *is_less,
                    #[trigger] a3[k],
                    v,
                ) by {
                    if k < gt + 1 {
                        assert(a3[k] == a2[k]);
                        assert(a2[k] == a1[k]);
                    }
                }
            }
            assert(sorted_range(a3, lo + 0, lt + 0, *is_less)) by {
                assert forall|p: int, q: int| lo <= p < q < lt implies !precedes(
                    *is_less,
                    #[trigger] a3[q],
                    #[trigger] a3[p],
                ) by {
                    assert(a3[p] == a2[p]);
                    assert(a3[q] == a2[q]);
                }
            }
            lemma_sorted_around(a3, lo + 0, lt + 0, gt + 1, hi + 1, v, *is_less);
        }
    }
}

/// Sorts `a` by three-way quicksort, after shuffling it.
pub fn quick_sort_3way<T: Copy, F: Fn(&T, &T) -> Ordering>(a: &mut Vec<T>, is_less: F)
    requires
        is_total::<T, F>(is_less),
    ensures
        final(a)@.to_multiset() == old(a)@.to_multiset(),
        sorted_by(final(a)@, is_less),
{
    proof {
        lemma_consistent::<T, F>(is_less);
    }
    let n = a.len();
    if n == 0 {
        return ;
    }
    shuffle_items(a);
    let ghost shuffled = a@;
    proof {
        shuffled.to_multiset_ensures();
        old(a)@.to_multiset_ensures();
    }
    quick_sort_3way_aux(a, 0, n - 1, &is_less);
    proof {
        lemma_rearranged_whole(shuffled, a@, 0, n + 0);
    }
}

} // verus!
