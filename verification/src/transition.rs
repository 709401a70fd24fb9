//! Per-node transition tables: a partial map from a byte to a target node.
//!
//! Node 0 is the root. It is never stored as a target: a byte without a
//! binding leads to the root.

use vstd::prelude::*;

verus! {

/// A partial map from bytes to non-root node ids.
pub trait TransitionStore: Sized {
    /// The representation's internal invariant.
    spec fn wf(&self) -> bool;

    /// The bindings held.
    spec fn edges(&self) -> Map<u8, usize>;

    /// A store without bindings.
    fn new() -> (s: Self)
        ensures
            s.wf(),
            s.edges() == Map::<u8, usize>::empty(),
    ;

    /// The target bound to `byte`, if any. A bound target is never the root.
    fn get(&self, byte: u8) -> (r: Option<usize>)
        requires
            self.wf(),
        ensures
            r == (if self.edges().contains_key(byte) {
                Some(self.edges()[byte])
            } else {
                None
            }),
            r != Some(0usize),
    ;

    /// Binds `byte` to `target`, replacing an earlier binding.
    fn set(&mut self, byte: u8, target: usize)
        requires
            old(self).wf(),
            target != 0,
        ensures
            final(self).wf(),
            final(self).edges() == old(self).edges().insert(byte, target),
    ;

    /// The bindings, each once, in ascending order of their bytes.
    fn children(&self) -> (r: Vec<(u8, usize)>)
        requires
            self.wf(),
        ensures
            is_listing(r@, self.edges()),
    ;
}

/// `r` lists the bindings of `edges`, each once, in ascending order of the
/// bytes.
pub open spec fn is_listing(r: Seq<(u8, usize)>, edges: Map<u8, usize>) -> bool {
    &&& forall|i: int, j: int| 0 <= i < j < r.len() ==> (#[trigger] r[i]).0 < (#[trigger] r[j]).0
    &&& forall|i: int|
        0 <= i < r.len() ==> edges.contains_key((#[trigger] r[i]).0) && edges[r[i].0] == r[i].1
    &&& forall|b: u8| #[trigger] edges.contains_key(b) ==> listed(r, b)
}

/// Byte `b` stands in the listing `r`.
pub open spec fn listed(r: Seq<(u8, usize)>, b: u8) -> bool {
    exists|i: int| 0 <= i < r.len() && (#[trigger] r[i]).0 == b
}

/// The node reached from a store on `byte`: the bound target, or the root.
pub open spec fn target_of<S: TransitionStore>(s: S, byte: u8) -> int {
    if s.edges().contains_key(byte) {
        s.edges()[byte] as int
    } else {
        0
    }
}

/// A table with one slot per byte value; the slot holds 0 while unbound.
pub struct DenseStore {
    slots: Vec<usize>,
}

impl TransitionStore for DenseStore {
    closed spec fn wf(&self) -> bool {
        self.slots@.len() == 256
    }

    closed spec fn edges(&self) -> Map<u8, usize> {
        Map::new(|b: u8| self.slots@[b as int] != 0, |b: u8| self.slots@[b as int])
    }

    fn new() -> (s: Self) {
        let mut slots: Vec<usize> = Vec::with_capacity(256);
        let mut i: usize = 0;
        while i < 256
            invariant
                i <= 256,
                slots@.len() == i,
                forall|k: int| 0 <= k < i ==> slots@[k] == 0,
            decreases 256 - i,
        {
            slots.push(0);
            i += 1;
        }
        let s = DenseStore { slots };
        assert(s.edges() =~= Map::<u8, usize>::empty());
        s
    }

    fn get(&self, byte: u8) -> (r: Option<usize>) {
        let t = self.slots[byte as usize];
        if t == 0 {
            None
        } else {
            Some(t)
        }
    }

    fn set(&mut self, byte: u8, target: usize) {
        self.slots[byte as usize] = target;
        assert(self.edges() =~= old(self).edges().insert(byte, target));
    }

    fn children(&self) -> (r: Vec<(u8, usize)>) {
        let mut r: Vec<(u8, usize)> = Vec::new();
        let mut b: usize = 0;
        while b < 256
            invariant
                b <= 256,
                self.wf(),
                forall|i: int, j: int| 0 <= i < j < r@.len() ==> (#[trigger] r@[i]).0 < (#[trigger] r@[j]).0,
                forall|i: int|
                    0 <= i < r@.len() ==> (#[trigger] r@[i]).0 < b && self.edges().contains_key(r@[i].0)
                        && self.edges()[r@[i].0] == r@[i].1,
                forall|x: u8| x < b && #[trigger] self.edges().contains_key(x) ==> listed(r@, x),
            decreases 256 - b,
        {
            let byte = b as u8;
            let ghost before = r@;
            match self.get(byte) {
                Some(t) => {
                    r.push((byte, t));
                    proof {
                        assert(r@[before.len() as int].0 == byte);
                        assert forall|x: u8| x < b + 1 && #[trigger] self.edges().contains_key(
                            x,
                        ) implies listed(r@, x) by {
                            if x < b {
                                assert(listed(before, x));
                                let i = choose|i: int| 0 <= i < before.len() && (#[trigger] before[i]).0 == x;
                                assert(r@[i].0 == x);
                            }
                        }
                    }
                },
                None => {},
            }
            b += 1;
        }
        r
    }
}

/// The hasher of the `fnv` crate: a value that the maps below carry along.
#[verifier::external_type_specification]
#[verifier::external_body]
pub struct ExFnvHasher(fnv::FnvHasher);

/// std's builder of default-constructed hashers.
#[verifier::external_type_specification]
#[verifier::external_body]
#[verifier::reject_recursive_types(H)]
pub struct ExBuildHasherDefault<H>(core::hash::BuildHasherDefault<H>);

/// `FnvHashMap::default` of the `fnv` crate: a map without entries.
#[verifier::external_body]
fn fnv_map_new() -> (table: fnv::FnvHashMap<u8, usize>)
    ensures
        forall|byte: u8| !table@.contains_key(byte),
{
    fnv::FnvHashMap::default()
}

/// `HashMap::get` on a map hashed by FNV: the value stored under `byte`,
/// if there is one.
#[verifier::external_body]
fn fnv_map_get(m: &fnv::FnvHashMap<u8, usize>, byte: u8) -> (r: Option<usize>)
    ensures
        r == (if m@.contains_key(byte) {
            Some(m@[byte])
        } else {
            None
        }),
{
    m.get(&byte).copied()
}

/// `HashMap::insert` on a map hashed by FNV: afterwards `byte` maps to
/// `target`, and every other key is as before.
#[verifier::external_body]
fn fnv_map_insert(m: &mut fnv::FnvHashMap<u8, usize>, byte: u8, target: usize)
    ensures
        final(m)@ == old(m)@.insert(byte, target),
{
    m.insert(byte, target);
}

/// A hash map from bytes to targets that holds the bound bytes only.
pub struct HashStore {
    map: fnv::FnvHashMap<u8, usize>,
}

impl TransitionStore for HashStore {
    closed spec fn wf(&self) -> bool {
        forall|b: u8| self.map@.contains_key(b) ==> #[trigger] self.map@[b] != 0
    }

    closed spec fn edges(&self) -> Map<u8, usize> {
        self.map@
    }

    fn new() -> (s: Self) {
        let s = HashStore { map: fnv_map_new() };
        assert(s.edges() =~= Map::<u8, usize>::empty());
        s
    }

    fn get(&self, byte: u8) -> (r: Option<usize>) {
        fnv_map_get(&self.map, byte)
    }

    fn set(&mut self, byte: u8, target: usize) {
        fnv_map_insert(&mut self.map, byte, target);
    }

    fn children(&self) -> (r: Vec<(u8, usize)>) {
        let mut r: Vec<(u8, usize)> = Vec::new();
        let mut b: usize = 0;
        while b < 256
            invariant
                b <= 256,
                self.wf(),
                forall|i: int, j: int| 0 <= i < j < r@.len() ==> (#[trigger] r@[i]).0 < (#[trigger] r@[j]).0,
                forall|i: int|
                    0 <= i < r@.len() ==> (#[trigger] r@[i]).0 < b && self.edges().contains_key(r@[i].0)
                        && self.edges()[r@[i].0] == r@[i].1,
                forall|x: u8| x < b && #[trigger] self.edges().contains_key(x) ==> listed(r@, x),
            decreases 256 - b,
        {
            let byte = b as u8;
            let ghost before = r@;
            match self.get(byte) {
                Some(t) => {
                    r.push((byte, t));
                    proof {
                        assert(r@[before.len() as int].0 == byte);
                        assert forall|x: u8| x < b + 1 && #[trigger] self.edges().contains_key(
                            x,
                        ) implies listed(r@, x) by {
                            if x < b {
                                assert(listed(before, x));
                                let i = choose|i: int| 0 <= i < before.len() && (#[trigger] before[i]).0 == x;
                                assert(r@[i].0 == x);
                            }
                        }
                    }
                },
                None => {},
            }
            b += 1;
        }
        r
    }
}

/// The 256-bit unsigned integer of the `ethnum` crate, used as a set of
/// byte values: bit `b` stands for byte `b`.
#[verifier::external_type_specification]
#[verifier::external_body]
pub struct ExU256(ethnum::U256);

/// The byte values whose bit is set in `x`.
pub uninterp spec fn bits_of(x: ethnum::U256) -> Set<u8>;

/// `b` is the one member of `s`.
pub open spec fn is_single(s: Set<u8>, b: u8) -> bool {
    forall|i: u8| s.contains(i) == (i == b)
}

/// `i` is below every member of `s`.
pub open spec fn under_all(s: Set<u8>, i: u8) -> bool {
    forall|b: u8| s.contains(b) ==> i < b
}

/// No member of `s` is below `i`.
pub open spec fn is_lowest(s: Set<u8>, i: u8) -> bool {
    forall|b: u8| s.contains(b) ==> i <= b
}

/// `U256::ZERO`: no bit is set.
#[verifier::external_body]
fn bits_none() -> (x: ethnum::U256)
    ensures
        forall|i: u8| !bits_of(x).contains(i),
{
    ethnum::U256::ZERO
}

/// `U256::ONE << b`: bit `b` alone is set.
#[verifier::external_body]
fn bits_single(b: u8) -> (x: ethnum::U256)
    ensures
        forall|i: u8| bits_of(x).contains(i) == (i == b),
{
    ethnum::U256::ONE << b
}

/// `&` on `U256`: the bits set in both.
#[verifier::external_body]
fn bits_and(x: ethnum::U256, y: ethnum::U256) -> (z: ethnum::U256)
    ensures
        forall|i: u8| bits_of(z).contains(i) == (bits_of(x).contains(i) && bits_of(y).contains(i)),
{
    x & y
}

/// `|` on `U256`: the bits set in either.
#[verifier::external_body]
fn bits_or(x: ethnum::U256, y: ethnum::U256) -> (z: ethnum::U256)
    ensures
        forall|i: u8| bits_of(z).contains(i) == (bits_of(x).contains(i) || bits_of(y).contains(i)),
{
    x | y
}

/// `-` on `U256`, for a minuend that is not zero and the subtrahend one:
/// the lowest bit of the minuend is cleared, the bits below it are set, and
/// those above it stay. (For zero `-` would overflow.)
#[verifier::external_body]
fn bits_less_one(x: ethnum::U256, one: ethnum::U256) -> (z: ethnum::U256)
    requires
        exists|b: u8| bits_of(x).contains(b),
        is_single(bits_of(one), 0),
    ensures
        forall|i: u8|
            bits_of(z).contains(i) == (under_all(bits_of(x), i) || (bits_of(x).contains(i)
                && !is_lowest(bits_of(x), i))),
{
    x - one
}

/// `U256::trailing_zeros`, for a value that is not zero: the place of its
/// lowest bit.
#[verifier::external_body]
fn bits_lowest(x: ethnum::U256) -> (b: u8)
    requires
        exists|i: u8| bits_of(x).contains(i),
    ensures
        bits_of(x).contains(b) && is_lowest(bits_of(x), b),
{
    x.trailing_zeros() as u8
}

/// `==` on `U256` against `U256::ZERO`: whether no bit is set.
#[verifier::external_body]
fn bits_empty(x: ethnum::U256) -> (r: bool)
    ensures
        r == (forall|i: u8| !bits_of(x).contains(i)),
{
    x == ethnum::U256::ZERO
}

/// `U256::count_ones`: the number of bits set.
#[verifier::external_body]
fn bits_count(x: ethnum::U256) -> (r: u32)
    ensures
        r == bits_of(x).len(),
{
    x.count_ones()
}

/// A set of bytes is finite.
pub proof fn lemma_bytes_finite(s: Set<u8>)
    ensures
        s.finite(),
{
    let range = vstd::set_lib::set_int_range(0, 256);
    vstd::set_lib::lemma_int_range(0, 256);
    let narrow = |i: int| i as u8;
    range.lemma_map_finite(narrow);
    let all = range.map(narrow);
    assert forall|b: u8| s.contains(b) implies all.contains(b) by {
        assert(range.contains(b as int) && narrow(b as int) == b);
    }
    assert(s.subset_of(all));
    vstd::set_lib::lemma_len_subset(s, all);
}

/// The members of `s` below `b`.
pub open spec fn members_below(s: Set<u8>, b: u8) -> Set<u8> {
    Set::new(|i: u8| s.contains(i) && i < b)
}

/// The members of `s` below the bound `lim`.
pub open spec fn members_under(s: Set<u8>, lim: int) -> Set<u8> {
    Set::new(|i: u8| s.contains(i) && i < lim)
}

/// The members of `s` from the bound `lim` on.
pub open spec fn members_from(s: Set<u8>, lim: int) -> Set<u8> {
    Set::new(|i: u8| s.contains(i) && i >= lim)
}

/// The members below a bound and those from it on are all the members.
pub proof fn lemma_split_len(s: Set<u8>, lim: int)
    requires
        s.finite(),
    ensures
        members_under(s, lim).finite(),
        members_from(s, lim).finite(),
        members_under(s, lim).len() + members_from(s, lim).len() == s.len(),
{
    let a = members_under(s, lim);
    let b = members_from(s, lim);
    assert(a.subset_of(s));
    assert(b.subset_of(s));
    vstd::set_lib::lemma_len_subset(a, s);
    vstd::set_lib::lemma_len_subset(b, s);
    assert(a.disjoint(b));
    vstd::set_lib::lemma_set_disjoint_lens(a, b);
    assert(a + b =~= s);
}

/// The members below `b` are fewer than the members if `b` is one.
pub proof fn lemma_rank_bound(s: Set<u8>, b: u8)
    requires
        s.finite(),
    ensures
        members_below(s, b).finite(),
        members_below(s, b).len() <= s.len(),
        s.contains(b) ==> members_below(s, b).len() < s.len(),
{
    let m = members_below(s, b);
    assert(m.subset_of(s));
    vstd::set_lib::lemma_len_subset(m, s);
    if s.contains(b) {
        assert(m.subset_of(s.remove(b)));
        vstd::set_lib::lemma_len_subset(m, s.remove(b));
    }
}

/// Two members have equal ranks only if they are equal.
pub proof fn lemma_rank_order(s: Set<u8>, a: u8, b: u8)
    requires
        s.finite(),
        s.contains(a),
        a < b,
    ensures
        members_below(s, a).len() < members_below(s, b).len(),
{
    lemma_rank_bound(s, a);
    lemma_rank_bound(s, b);
    let mb = members_below(s, b);
    assert(members_below(s, a).subset_of(mb.remove(a)));
    vstd::set_lib::lemma_len_subset(members_below(s, a), mb.remove(a));
}

/// What a new member does to the ranks.
pub proof fn lemma_rank_insert(s: Set<u8>, b: u8, x: u8)
    requires
        s.finite(),
        !s.contains(b),
    ensures
        members_below(s.insert(b), x).len() == members_below(s, x).len() + (if b < x {
            1int
        } else {
            0int
        }),
{
    lemma_rank_bound(s, x);
    if b < x {
        assert(members_below(s.insert(b), x) =~= members_below(s, x).insert(b));
    } else {
        assert(members_below(s.insert(b), x) =~= members_below(s, x));
    }
}

/// A 256-bit set of the bound bytes and their targets in the order of the
/// bytes: the target of byte `b` stands at the number of bound bytes
/// below `b`.
pub struct BitmapStore {
    map: ethnum::U256,
    children: Vec<usize>,
}

impl BitmapStore {
    /// The place of the target of `byte` among the targets.
    pub closed spec fn rank(&self, byte: u8) -> int {
        members_below(bits_of(self.map), byte).len() as int
    }

    /// Whether `byte` is bound and, if so, where its target stands.
    fn locate(&self, byte: u8) -> (r: (bool, usize))
        requires
            self.wf(),
        ensures
            r.0 == bits_of(self.map).contains(byte),
            r.1 == self.rank(byte),
            r.1 <= self.children@.len(),
            r.0 ==> r.1 < self.children@.len(),
    {
        let probe = bits_single(byte);
        let hit = bits_and(self.map, probe);
        let absent = bits_empty(hit);
        proof {
            if !absent {
                let i = choose|i: u8| bits_of(hit).contains(i);
                assert(i == byte);
            }
        }
        let one = bits_single(0);
        proof {
            assert(bits_of(probe).contains(byte));
            assert(is_single(bits_of(one), 0));
        }
        let below = bits_less_one(probe, one);
        let lower = bits_and(self.map, below);
        let count = bits_count(lower);
        proof {
            assert forall|i: u8| bits_of(below).contains(i) == (i < byte) by {
                assert(bits_of(probe).contains(byte));
                if i < byte {
                    assert(under_all(bits_of(probe), i));
                }
            }
            assert(bits_of(lower) =~= members_below(bits_of(self.map), byte));
            lemma_bytes_finite(bits_of(self.map));
            lemma_rank_bound(bits_of(self.map), byte);
        }
        (!absent, count as usize)
    }
}

impl TransitionStore for BitmapStore {
    closed spec fn wf(&self) -> bool {
        &&& self.children@.len() == bits_of(self.map).len()
        &&& forall|k: int| 0 <= k < self.children@.len() ==> #[trigger] self.children@[k] != 0
    }

    closed spec fn edges(&self) -> Map<u8, usize> {
        Map::new(|b: u8| bits_of(self.map).contains(b), |b: u8| self.children@[self.rank(b)])
    }

    fn new() -> (s: Self) {
        let s = BitmapStore { map: bits_none(), children: Vec::new() };
        proof {
            assert(bits_of(s.map) =~= Set::<u8>::empty());
            assert(s.edges() =~= Map::<u8, usize>::empty());
        }
        s
    }

    fn get(&self, byte: u8) -> (r: Option<usize>) {
        let (bound, at) = self.locate(byte);
        if bound {
            Some(self.children[at])
        } else {
            None
        }
    }

    fn set(&mut self, byte: u8, target: usize) {
        let (bound, at) = self.locate(byte);
        let ghost s = bits_of(self.map);
        let ghost before = self.children@;
        proof {
            lemma_bytes_finite(s);
        }
        if bound {
            self.children[at] = target;
            proof {
                let e1 = self.edges();
                let e2 = old(self).edges().insert(byte, target);
                assert forall|b: u8| e1.contains_key(b) == e2.contains_key(b) && (e1.contains_key(b)
                    ==> e1[b] == e2[b]) by {
                    if s.contains(b) && b != byte {
                        lemma_rank_bound(s, b);
                        if b < byte {
                            lemma_rank_order(s, b, byte);
                        } else {
                            lemma_rank_order(s, byte, b);
                        }
                        assert(self.rank(b) == old(self).rank(b));
                        assert(self.rank(b) != at);
                    }
                }
                assert(e1 =~= e2);
            }
        } else {
            self.children.insert(at, target);
            self.map = bits_or(self.map, bits_single(byte));
            proof {
                let s2 = bits_of(self.map);
                assert(s2 =~= s.insert(byte));
                let e1 = self.edges();
                let e2 = old(self).edges().insert(byte, target);
                lemma_bytes_finite(s2);
                assert forall|b: u8| e1.contains_key(b) == e2.contains_key(b) && (e1.contains_key(b)
                    ==> e1[b] == e2[b]) by {
                    if s2.contains(b) {
                        lemma_rank_insert(s, byte, b);
                        lemma_rank_bound(s, b);
                        lemma_rank_bound(s, byte);
                        if b < byte {
                            lemma_rank_order(s, b, byte);
                        } else if b > byte {
                            lemma_rank_insert(s, byte, byte);
                            lemma_rank_order(s2, byte, b);
                        }
                    }
                }
                assert(e1 =~= e2);
            }
        }
    }

    fn children(&self) -> (r: Vec<(u8, usize)>) {
        let count = self.children.len();
        let ghost s = bits_of(self.map);
        let one = bits_single(0);
        let mut r: Vec<(u8, usize)> = Vec::with_capacity(count);
        let mut rest = self.map;
        let ghost mut lim: int = 0;
        let mut i: usize = 0;
        proof {
            lemma_bytes_finite(s);
            assert(members_under(s, 0) =~= Set::<u8>::empty());
            assert(is_single(bits_of(one), 0));
        }
        while i < count
            invariant
                self.wf(),
                s == bits_of(self.map),
                s.finite(),
                count == self.children@.len(),
                is_single(bits_of(one), 0),
                0 <= lim <= 256,
                i <= count,
                i == members_under(s, lim).len(),
                r@.len() == i,
                forall|x: u8| #[trigger] bits_of(rest).contains(x) == (s.contains(x) && x >= lim),
                forall|a: int, b: int| 0 <= a < b < r@.len() ==> (#[trigger] r@[a]).0 < (#[trigger] r@[b]).0,
                forall|a: int|
                    0 <= a < r@.len() ==> (#[trigger] r@[a]).0 < lim && s.contains(r@[a].0)
                        && self.children@[self.rank(r@[a].0)] == r@[a].1,
                forall|x: u8| x < lim && #[trigger] s.contains(x) ==> listed(r@, x),
            decreases count - i,
        {
            proof {
                lemma_split_len(s, lim);
                if forall|x: u8| !bits_of(rest).contains(x) {
                    assert forall|x: u8| !members_from(s, lim).contains(x) by {
                        assert(bits_of(rest).contains(x) == (s.contains(x) && x >= lim));
                    }
                    assert(members_from(s, lim) =~= Set::<u8>::empty());
                }
            }
            let b = bits_lowest(rest);
            let ghost before = r@;
            proof {
                assert(bits_of(rest).contains(b));
                assert forall|x: u8| s.contains(x) && x < b implies x < lim by {
                    if x >= lim {
                        assert(bits_of(rest).contains(x));
                    }
                }
                assert(b >= lim && s.contains(b));
                assert forall|x: u8| members_below(s, b).contains(x) == members_under(
                    s,
                    lim,
                ).contains(x) by {}
                assert(members_below(s, b) =~= members_under(s, lim));
                lemma_rank_bound(s, b);
            }
            r.push((b, self.children[i]));
            rest = bits_and(rest, bits_less_one(rest, one));
            proof {
                assert(members_under(s, b + 1) =~= members_under(s, lim).insert(b));
                assert(r@[before.len() as int].0 == b);
                assert forall|x: u8| x < b + 1 && #[trigger] s.contains(x) implies listed(r@, x) by {
                    if x < lim {
                        assert(listed(before, x));
                        let k = choose|k: int| 0 <= k < before.len() && (#[trigger] before[k]).0 == x;
                        assert(r@[k].0 == x);
                    }
                }
                lim = b + 1;
            }
            i += 1;
        }
        proof {
            lemma_split_len(s, lim);
            assert(members_from(s, lim).len() == 0);
            assert forall|x: u8| #[trigger] s.contains(x) implies listed(r@, x) by {
                if x >= lim {
                    assert(members_from(s, lim).contains(x));
                }
            }
        }
        r
    }
}

} // verus!
