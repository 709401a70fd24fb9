//! Substrings, suffixes and occurrence counts of byte strings.

use vstd::prelude::*;

verus! {

/// `p` occurs in `t` starting at offset `start`.
pub open spec fn occurs_at(p: Seq<u8>, t: Seq<u8>, start: int) -> bool {
    &&& 0 <= start
    &&& start + p.len() <= t.len()
    &&& t.subrange(start, start + p.len()) == p
}

/// The offsets at which `p` occurs in `t`.
pub open spec fn occurrence_starts(p: Seq<u8>, t: Seq<u8>) -> Set<int> {
    Set::new(|start: int| occurs_at(p, t, start))
}

/// How often `p` occurs in `t`, counting overlapping occurrences.
pub open spec fn occurrences(p: Seq<u8>, t: Seq<u8>) -> nat {
    occurrence_starts(p, t).len()
}

/// `s` is a suffix of `t`.
pub open spec fn is_suffix(s: Seq<u8>, t: Seq<u8>) -> bool {
    &&& s.len() <= t.len()
    &&& t.subrange(t.len() - s.len(), t.len() as int) == s
}

/// The positions `e` of `t` at which an occurrence of `p` has its last byte.
pub open spec fn occurrence_ends(p: Seq<u8>, t: Seq<u8>) -> Set<int> {
    Set::new(|e: int| 0 <= e < t.len() && is_suffix(p, t.take(e + 1)))
}

/// Every string ends in itself and in the empty string.
pub proof fn lemma_suffix_refl(s: Seq<u8>)
    ensures
        is_suffix(s, s),
        is_suffix(Seq::<u8>::empty(), s),
{
    assert(s.subrange(0, s.len() as int) =~= s);
    assert(s.subrange(s.len() as int, s.len() as int) =~= Seq::<u8>::empty());
}

/// A suffix as long as the string is the string.
pub proof fn lemma_suffix_full(s: Seq<u8>, t: Seq<u8>)
    requires
        is_suffix(s, t),
        s.len() == t.len(),
    ensures
        s == t,
{
    assert(t.subrange(0, t.len() as int) =~= t);
}

/// A suffix of a suffix is a suffix.
pub proof fn lemma_suffix_trans(a: Seq<u8>, b: Seq<u8>, c: Seq<u8>)
    requires
        is_suffix(a, b),
        is_suffix(b, c),
    ensures
        is_suffix(a, c),
{
    let bb = c.subrange(c.len() - b.len(), c.len() as int);
    assert(c.subrange(c.len() - a.len(), c.len() as int) =~= bb.subrange(
        b.len() - a.len(),
        b.len() as int,
    ));
}

/// Of two suffixes of one string, the shorter is a suffix of the longer.
pub proof fn lemma_suffix_comparable(a: Seq<u8>, b: Seq<u8>, c: Seq<u8>)
    requires
        is_suffix(a, c),
        is_suffix(b, c),
        a.len() <= b.len(),
    ensures
        is_suffix(a, b),
{
    let bb = c.subrange(c.len() - b.len(), c.len() as int);
    assert(c.subrange(c.len() - a.len(), c.len() as int) =~= bb.subrange(
        b.len() - a.len(),
        b.len() as int,
    ));
}

/// Suffixes stay suffixes when both strings get the same last byte.
pub proof fn lemma_suffix_push(a: Seq<u8>, t: Seq<u8>, x: u8)
    requires
        is_suffix(a, t),
    ensures
        is_suffix(a.push(x), t.push(x)),
{
    let t2 = t.push(x);
    assert(t2.subrange(t2.len() - (a.len() + 1), t2.len() as int) =~= t.subrange(
        t.len() - a.len(),
        t.len() as int,
    ).push(x));
}

/// A non-empty suffix of a string that ends in `x` ends in `x`, and the
/// rest of it is a suffix of the rest of the string.
pub proof fn lemma_suffix_pop(a: Seq<u8>, t: Seq<u8>, x: u8)
    requires
        is_suffix(a, t.push(x)),
        a.len() > 0,
    ensures
        a.last() == x,
        is_suffix(a.drop_last(), t),
{
    let t2 = t.push(x);
    let w = t2.subrange(t2.len() - a.len(), t2.len() as int);
    assert(w.last() == x);
    assert(t.subrange(t.len() - (a.len() - 1), t.len() as int) =~= w.drop_last());
}

/// The proper suffixes of a non-empty string are the suffixes of its tail.
pub proof fn lemma_suffix_proper(a: Seq<u8>, t: Seq<u8>)
    requires
        t.len() > 0,
    ensures
        is_suffix(a, t.drop_first()) <==> (is_suffix(a, t) && a.len() < t.len()),
{
    let d = t.drop_first();
    if a.len() < t.len() {
        assert(d.subrange(d.len() - a.len(), d.len() as int) =~= t.subrange(
            t.len() - a.len(),
            t.len() as int,
        ));
    }
}

/// An occurrence that starts at `start` ends at `start + |p| - 1`.
pub proof fn lemma_end_is_start(p: Seq<u8>, t: Seq<u8>, e: int)
    requires
        p.len() > 0,
    ensures
        occurrence_ends(p, t).contains(e) <==> occurs_at(p, t, e + 1 - p.len()),
{
    if 0 <= e < t.len() && p.len() <= e + 1 {
        let h = t.take(e + 1);
        assert(h.subrange(h.len() - p.len(), h.len() as int) =~= t.subrange(
            e + 1 - p.len(),
            e + 1,
        ));
    }
}

/// A non-empty pattern has as many occurrence ends as occurrence starts,
/// and at most one per text position.
pub proof fn lemma_count_by_ends(p: Seq<u8>, t: Seq<u8>)
    requires
        p.len() > 0,
    ensures
        occurrence_ends(p, t).finite(),
        occurrence_ends(p, t).len() == occurrences(p, t),
        occurrences(p, t) <= t.len(),
{
    let ends = occurrence_ends(p, t);
    let starts = occurrence_starts(p, t);
    let range = vstd::set_lib::set_int_range(0, t.len() as int);
    vstd::set_lib::lemma_int_range(0, t.len() as int);
    assert(ends.subset_of(range));
    vstd::set_lib::lemma_len_subset(ends, range);
    let shift = |e: int| e + 1 - p.len();
    assert(vstd::relations::injective_on(shift, ends));
    assert(ends.map(shift) =~= starts) by {
        assert forall|s: int| starts.contains(s) implies ends.map(shift).contains(s) by {
            let e = s + p.len() - 1;
            lemma_end_is_start(p, t, e);
            assert(ends.contains(e) && shift(e) == s);
        }
        assert forall|s: int| ends.map(shift).contains(s) implies starts.contains(s) by {
            let e = choose|e: int| ends.contains(e) && shift(e) == s;
            lemma_end_is_start(p, t, e);
        }
    }
    vstd::set_lib::lemma_map_size(ends, starts, shift);
}

/// `p` occurs at no offset of `t`.
pub open spec fn never_occurs(p: Seq<u8>, t: Seq<u8>) -> bool {
    forall|start: int| !occurs_at(p, t, start)
}

/// A pattern that occurs at no offset of the text has count zero.
pub proof fn lemma_absent_pattern(p: Seq<u8>, t: Seq<u8>)
    requires
        never_occurs(p, t),
    ensures
        occurrences(p, t) == 0,
{
    assert(occurrence_starts(p, t) =~= Set::<int>::empty());
}

/// A pattern longer than the text has count zero.
pub proof fn lemma_longer_pattern(p: Seq<u8>, t: Seq<u8>)
    requires
        p.len() > t.len(),
    ensures
        occurrences(p, t) == 0,
{
    lemma_absent_pattern(p, t);
}

} // verus!
