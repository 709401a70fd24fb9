//! Disjoint sets over the sites `0..n`, merged by `union` and queried through
//! a canonical representative per set.

use vstd::prelude::*;

verus! {

/// A partition of the sites `0..size()` into sets, each named by one of its
/// members, its root.
pub trait UnionFind: Sized {
    /// The structure's internal invariant.
    spec fn wf(&self) -> bool;

    /// The number of sites.
    spec fn size(&self) -> nat;

    /// The root of the set that holds site `p`.
    spec fn root_of(&self, p: int) -> int;

    /// Roots are sites, and a root is its own root.
    proof fn lemma_roots(&self, p: int)
        requires
            self.wf(),
            0 <= p < self.size(),
        ensures
            0 <= self.root_of(p) < self.size(),
            self.root_of(self.root_of(p)) == self.root_of(p),
    ;

    /// `size` singleton sets.
    fn new(size: usize) -> (u: Self)
        ensures
            u.wf(),
            u.size() == size,
            forall|p: int| 0 <= p < size ==> u.root_of(p) == p,
    ;

    /// The root of the set of `p`. The partition and its roots stay as they
    /// were, though the representation may be rearranged.
    fn find(&mut self, p: usize) -> (r: usize)
        requires
            old(self).wf(),
            p < old(self).size(),
        ensures
            final(self).wf(),
            final(self).size() == old(self).size(),
            r == old(self).root_of(p as int),
            forall|x: int|
                0 <= x < old(self).size() ==> final(self).root_of(x) == old(self).root_of(x),
    ;

    /// Whether `p` and `q` are in one set.
    fn connected(&mut self, p: usize, q: usize) -> (r: bool)
        requires
            old(self).wf(),
            p < old(self).size(),
            q < old(self).size(),
        ensures
            final(self).wf(),
            final(self).size() == old(self).size(),
            r == (old(self).root_of(p as int) == old(self).root_of(q as int)),
            forall|x: int|
                0 <= x < old(self).size() ==> final(self).root_of(x) == old(self).root_of(x),
    {
        let a = self.find(p);
        let b = self.find(q);
        a == b
    }

    /// Merges the sets of `p` and `q`; every other set stays as it was. The
    /// merged set's root is one of the two old roots.
    fn union(&mut self, p: usize, q: usize)
        requires
            old(self).wf(),
            p < old(self).size(),
            q < old(self).size(),
        ensures
            final(self).wf(),
            final(self).size() == old(self).size(),
            final(self).root_of(p as int) == old(self).root_of(p as int) || final(self).root_of(
                p as int,
            ) == old(self).root_of(q as int),
            forall|x: int|
                0 <= x < old(self).size() ==> final(self).root_of(x) == (if old(self).root_of(x)
                    == old(self).root_of(p as int) || old(self).root_of(x) == old(self).root_of(
                    q as int,
                ) {
                    final(self).root_of(p as int)
                } else {
                    old(self).root_of(x)
                }),
    ;

    /// Back to singleton sets.
    fn reset(&mut self)
        requires
            old(self).wf(),
        ensures
            final(self).wf(),
            final(self).size() == old(self).size(),
            forall|p: int| 0 <= p < old(self).size() ==> final(self).root_of(p) == p,
    ;
}

/// Every site stores the root of its set: `find` is one lookup, `union`
/// rewrites every member of one set.
pub struct QuickUnion {
    id: Vec<usize>,
}

/// Fills `id` with `0, 1, .., size - 1`.
fn identity(size: usize) -> (id: Vec<usize>)
    ensures
        id@.len() == size,
        forall|p: int| 0 <= p < size ==> id@[p] == p,
{
    let mut id: Vec<usize> = Vec::new();
    let mut i: usize = 0;
    while i < size
        invariant
            i <= size,
            id@.len() == i,
            forall|p: int| 0 <= p < i ==> id@[p] == p,
        decreases size - i,
    {
        id.push(i);
        i += 1;
    }
    id
}

impl UnionFind for QuickUnion {
    closed spec fn wf(&self) -> bool {
        forall|p: int|
            0 <= p < self.id@.len() ==> 0 <= #[trigger] self.id@[p] < self.id@.len()
                && self.id@[self.id@[p] as int] == self.id@[p]
    }

    closed spec fn size(&self) -> nat {
        self.id@.len()
    }

    closed spec fn root_of(&self, p: int) -> int {
        self.id@[p] as int
    }

    proof fn lemma_roots(&self, p: int) {
    }

    fn new(size: usize) -> (u: Self) {
        QuickUnion { id: identity(size) }
    }

    fn find(&mut self, p: usize) -> (r: usize) {
        self.id[p]
    }

    fn union(&mut self, p: usize, q: usize) {
        let rt_p = self.id[p];
        let rt_q = self.id[q];
        if rt_p == rt_q {
            return ;
        }
        let n = self.id.len();
        let mut i: usize = 0;
        while i < n
            invariant
                i <= n,
                n == self.id@.len(),
                n == old(self).id@.len(),
                old(self).wf(),
                rt_p != rt_q,
                rt_p == old(self).id@[p as int],
                rt_q == old(self).id@[q as int],
                forall|x: int|
                    0 <= x < i ==> #[trigger] self.id@[x] == (if old(self).id@[x] == rt_p {
                        rt_q
                    } else {
                        old(self).id@[x]
                    }),
                forall|x: int| i <= x < n ==> #[trigger] self.id@[x] == old(self).id@[x],
            decreases n - i,
        {
            if self.id[i] == rt_p {
                self.id[i] = rt_q;
            }
            i += 1;
        }
        proof {
            assert forall|x: int| 0 <= x < n implies 0 <= #[trigger] self.id@[x] < n
                && self.id@[self.id@[x] as int] == self.id@[x] by {
                let r = old(self).id@[x];
                assert(old(self).id@[r as int] == r);
                assert(old(self).id@[rt_q as int] == rt_q);
            }
        }
    }

    fn reset(&mut self) {
        self.id = identity(self.id.len());
    }
}

/// A forest of parent links with a height that grows towards the roots.
pub ghost struct Forest {
    /// Each site's parent; a root is its own parent.
    pub id: Seq<usize>,
    /// A number per site that is greater at the parent.
    pub height: Seq<nat>,
    /// A number that no height exceeds.
    pub bound: nat,
}

/// Parents are sites, and heights grow along parent links up to the bound.
pub open spec fn forest_ok(f: Forest) -> bool {
    &&& f.height.len() == f.id.len()
    &&& forall|p: int| 0 <= p < f.id.len() ==> (#[trigger] f.id[p]) < f.id.len()
    &&& forall|p: int| 0 <= p < f.id.len() ==> (#[trigger] f.height[p]) <= f.bound
    &&& forall|p: int|
        0 <= p < f.id.len() && f.id[p] != p ==> (#[trigger] f.height[p]) < f.height[f.id[p] as int]
}

/// The root reached from `p` by following parent links.
pub open spec fn forest_root(f: Forest, p: int) -> int
    decreases f.bound - f.height[p],
    when forest_ok(f) && 0 <= p < f.id.len()
{
    if f.id[p] == p {
        p
    } else {
        forest_root(f, f.id[p] as int)
    }
}

/// The root of a site is a site that is its own parent, and at least as
/// high.
pub proof fn lemma_forest_root(f: Forest, p: int)
    requires
        forest_ok(f),
        0 <= p < f.id.len(),
    ensures
        0 <= forest_root(f, p) < f.id.len(),
        f.id[forest_root(f, p)] == forest_root(f, p),
        forest_root(f, forest_root(f, p)) == forest_root(f, p),
        f.height[p] <= f.height[forest_root(f, p)],
        forest_root(f, p) != p ==> f.height[p] < f.height[forest_root(f, p)],
    decreases f.bound - f.height[p],
{
    if f.id[p] != p {
        lemma_forest_root(f, f.id[p] as int);
    }
}

/// Hanging the root `a` below the root `b` moves the sites of `a` to `b`
/// and leaves every other site's root as it was.
pub proof fn lemma_link(f: Forest, g: Forest, a: int, b: int, x: int)
    requires
        forest_ok(f),
        forest_ok(g),
        0 <= a < f.id.len(),
        0 <= b < f.id.len(),
        a != b,
        f.id[a] == a,
        f.id[b] == b,
        g.id == f.id.update(a, b as usize),
        0 <= x < f.id.len(),
    ensures
        forest_root(g, x) == (if forest_root(f, x) == a {
            b
        } else {
            forest_root(f, x)
        }),
    decreases f.bound - f.height[x],
{
    if x == a {
        assert(forest_root(g, b) == b);
    } else if f.id[x] != x {
        lemma_link(f, g, a, b, f.id[x] as int);
    }
}

/// Pointing a site straight at its root leaves every site's root as it
/// was.
pub proof fn lemma_shortcut(f: Forest, g: Forest, p: int, x: int)
    requires
        forest_ok(f),
        forest_ok(g),
        0 <= p < f.id.len(),
        g.id == f.id.update(p, forest_root(f, p) as usize),
        0 <= x < f.id.len(),
    ensures
        forest_root(g, x) == forest_root(f, x),
    decreases f.bound - f.height[x],
{
    lemma_forest_root(f, p);
    let r = forest_root(f, p);
    if x == p {
        if r != p {
            assert(g.id[r] == r);
            assert(forest_root(g, r) == r);
        }
    } else if f.id[x] != x {
        lemma_shortcut(f, g, p, f.id[x] as int);
    }
}

/// The sites whose root is `r`.
pub open spec fn members(f: Forest, r: int) -> Set<int> {
    Set::new(|p: int| 0 <= p < f.id.len() && forest_root(f, p) == r)
}

/// Every root's recorded size is the number of its members.
pub open spec fn sizes_ok(f: Forest, sz: Seq<usize>) -> bool {
    &&& sz.len() == f.id.len()
    &&& forall|r: int|
        0 <= r < f.id.len() && f.id[r] == r ==> (#[trigger] sz[r]) == members(f, r).len()
}

/// The members of a root are finitely many sites.
pub proof fn lemma_members_bound(f: Forest, r: int)
    ensures
        members(f, r).finite(),
        members(f, r).len() <= f.id.len(),
{
    let range = vstd::set_lib::set_int_range(0, f.id.len() as int);
    vstd::set_lib::lemma_int_range(0, f.id.len() as int);
    assert(members(f, r).subset_of(range));
    vstd::set_lib::lemma_len_subset(members(f, r), range);
}

/// Two distinct roots have, together, at most as many members as there
/// are sites.
pub proof fn lemma_members_disjoint(f: Forest, a: int, b: int)
    requires
        a != b,
    ensures
        (members(f, a) + members(f, b)).len() == members(f, a).len() + members(f, b).len(),
        members(f, a).len() + members(f, b).len() <= f.id.len(),
{
    lemma_members_bound(f, a);
    lemma_members_bound(f, b);
    assert(members(f, a).disjoint(members(f, b)));
    vstd::set_lib::lemma_set_disjoint_lens(members(f, a), members(f, b));
    let range = vstd::set_lib::set_int_range(0, f.id.len() as int);
    vstd::set_lib::lemma_int_range(0, f.id.len() as int);
    assert((members(f, a) + members(f, b)).subset_of(range));
    vstd::set_lib::lemma_len_subset(members(f, a) + members(f, b), range);
}

/// Fills a vector with `size` ones.
fn ones(size: usize) -> (sz: Vec<usize>)
    ensures
        sz@.len() == size,
        forall|p: int| 0 <= p < size ==> sz@[p] == 1,
{
    let mut sz: Vec<usize> = Vec::new();
    let mut i: usize = 0;
    while i < size
        invariant
            i <= size,
            sz@.len() == i,
            forall|p: int| 0 <= p < i ==> sz@[p] == 1,
        decreases size - i,
    {
        sz.push(1);
        i += 1;
    }
    sz
}

/// The forest of singletons.
pub proof fn lemma_singletons(f: Forest, sz: Seq<usize>)
    requires
        f.height.len() == f.id.len(),
        sz.len() == f.id.len(),
        forall|p: int| 0 <= p < f.id.len() ==> f.id[p] == p,
        forall|p: int| 0 <= p < f.id.len() ==> f.height[p] <= f.bound,
        forall|p: int| 0 <= p < f.id.len() ==> sz[p] == 1,
    ensures
        forest_ok(f),
        sizes_ok(f, sz),
        forall|p: int| 0 <= p < f.id.len() ==> forest_root(f, p) == p,
{
    assert(forest_ok(f));
    assert forall|r: int| 0 <= r < f.id.len() && f.id[r] == r implies (#[trigger] sz[r])
        == members(f, r).len() by {
        assert(members(f, r) =~= Set::<int>::empty().insert(r));
    }
}

/// Links the root `a` below the root `b` in the forest held by `id` and
/// `sz`, and says what became of the roots and sizes.
pub proof fn lemma_union_sizes(f: Forest, g: Forest, sz: Seq<usize>, a: int, b: int)
    requires
        forest_ok(f),
        forest_ok(g),
        sizes_ok(f, sz),
        0 <= a < f.id.len(),
        0 <= b < f.id.len(),
        a != b,
        f.id[a] == a,
        f.id[b] == b,
        g.id == f.id.update(a, b as usize),
        f.id.len() <= usize::MAX,
    ensures
        sz[a] + sz[b] <= f.id.len(),
        sizes_ok(g, sz.update(b, (sz[a] + sz[b]) as usize)),
        forall|x: int|
            0 <= x < f.id.len() ==> #[trigger] forest_root(g, x) == (if forest_root(f, x) == a {
                b
            } else {
                forest_root(f, x)
            }),
{
    lemma_members_disjoint(f, a, b);
    assert forall|x: int| 0 <= x < f.id.len() implies #[trigger] forest_root(g, x) == (if forest_root(
        f,
        x,
    ) == a {
        b
    } else {
        forest_root(f, x)
    }) by {
        lemma_link(f, g, a, b, x);
    }
    let sz2 = sz.update(b, (sz[a] + sz[b]) as usize);
    assert forall|r: int| 0 <= r < g.id.len() && g.id[r] == r implies (#[trigger] sz2[r])
        == members(g, r).len() by {
        if r == b {
            assert(members(g, b) =~= members(f, a) + members(f, b));
        } else {
            assert(members(g, r) =~= members(f, r)) by {
                assert forall|x: int| 0 <= x < f.id.len() implies (forest_root(g, x) == r)
                    == (forest_root(f, x) == r) by {
                    lemma_link(f, g, a, b, x);
                    lemma_forest_root(f, x);
                }
            }
        }
    }
}

/// A forest whose roots know the sizes of their sets; `union` hangs the
/// smaller set below the larger.
pub struct WeightedQuickUnion {
    id: Vec<usize>,
    sz: Vec<usize>,
    height: Ghost<Seq<nat>>,
    bound: Ghost<nat>,
}

impl WeightedQuickUnion {
    /// The forest of parent links.
    pub closed spec fn forest(&self) -> Forest {
        Forest { id: self.id@, height: self.height@, bound: self.bound@ }
    }

    /// The root of the set of `p`; every site on the way is pointed
    /// straight at it.
    fn find_and_compress(&mut self, p: usize) -> (r: usize)
        requires
            old(self).wf(),
            p < old(self).id@.len(),
        ensures
            final(self).wf(),
            final(self).size() == old(self).size(),
            r == old(self).root_of(p as int),
            forall|x: int|
                0 <= x < old(self).id@.len() ==> final(self).root_of(x) == old(self).root_of(x),
    {
        let mut root = p;
        while root != self.id[root]
            invariant
                self.wf(),
                *self == *old(self),
                root < self.id@.len(),
                forest_root(self.forest(), root as int) == old(self).root_of(p as int),
            decreases self.bound@ - self.height@[root as int],
        {
            root = self.id[root];
        }
        let mut at = p;
        while at != root
            invariant
                self.wf(),
                self.id@.len() == old(self).id@.len(),
                self.height@ == old(self).height@,
                self.bound@ == old(self).bound@,
                at < self.id@.len(),
                root < self.id@.len(),
                self.id@[root as int] == root,
                root == old(self).root_of(p as int),
                forest_root(self.forest(), at as int) == root,
                forall|x: int|
                    0 <= x < self.id@.len() ==> #[trigger] forest_root(self.forest(), x) == old(
                        self,
                    ).root_of(x),
            decreases self.bound@ - self.height@[at as int],
        {
            let next = self.id[at];
            let ghost f = self.forest();
            let ghost g = Forest { id: f.id.update(at as int, root), ..f };
            proof {
                lemma_forest_root(f, at as int);
                assert(forest_ok(g));
                assert forall|x: int| 0 <= x < f.id.len() implies #[trigger] forest_root(g, x)
                    == forest_root(f, x) by {
                    lemma_shortcut(f, g, at as int, x);
                }
                assert forall|r: int| 0 <= r < g.id.len() && g.id[r] == r implies (
                #[trigger] self.sz@[r]) == members(g, r).len() by {
                    assert(members(g, r) =~= members(f, r));
                }
            }
            self.id[at] = root;
            proof {
                assert(self.forest() =~= g);
            }
            at = next;
        }
        root
    }

    /// Hangs the root `a` below the root `b`.
    fn link(&mut self, a: usize, b: usize)
        requires
            old(self).wf(),
            a < old(self).id@.len(),
            b < old(self).id@.len(),
            a != b,
            old(self).id@[a as int] == a,
            old(self).id@[b as int] == b,
        ensures
            final(self).wf(),
            final(self).size() == old(self).size(),
            forall|x: int|
                0 <= x < old(self).id@.len() ==> #[trigger] final(self).root_of(x) == (if old(
                    self,
                ).root_of(x) == a {
                    b as int
                } else {
                    old(self).root_of(x)
                }),
    {
        let sites = self.id.len();
        let ghost f = self.forest();
        let ghost h = self.height@[a as int] + 1;
        let ghost top = if self.height@[b as int] > h {
            self.height@[b as int]
        } else {
            h
        };
        let ghost g = Forest {
            id: f.id.update(a as int, b),
            height: f.height.update(b as int, top),
            bound: f.bound + 1,
        };
        proof {
            assert(forest_ok(g));
            lemma_union_sizes(f, g, self.sz@, a as int, b as int);
        }
        self.id[a] = b;
        self.sz[b] = self.sz[b] + self.sz[a];
        proof {
            self.height@ = g.height;
            self.bound@ = g.bound;
            assert(self.forest() =~= g);
        }
    }

    /// Merges the sets of the roots `a` and `b`, the smaller below the
    /// larger.
    fn union_roots(&mut self, a: usize, b: usize)
        requires
            old(self).wf(),
            a < old(self).id@.len(),
            b < old(self).id@.len(),
            old(self).id@[a as int] == a,
            old(self).id@[b as int] == b,
        ensures
            final(self).wf(),
            final(self).size() == old(self).size(),
            final(self).root_of(a as int) == a || final(self).root_of(a as int) == b,
            forall|x: int|
                0 <= x < old(self).id@.len() ==> #[trigger] final(self).root_of(x) == (if old(
                    self,
                ).root_of(x) == a || old(self).root_of(x) == b {
                    final(self).root_of(a as int)
                } else {
                    old(self).root_of(x)
                }),
    {
        proof {
            lemma_forest_root(self.forest(), a as int);
            lemma_forest_root(self.forest(), b as int);
        }
        if a == b {
            return ;
        }
        if self.sz[a] < self.sz[b] {
            self.link(a, b);
        } else {
            self.link(b, a);
        }
    }
}

impl UnionFind for WeightedQuickUnion {
    closed spec fn wf(&self) -> bool {
        &&& forest_ok(self.forest())
        &&& sizes_ok(self.forest(), self.sz@)
    }

    closed spec fn size(&self) -> nat {
        self.id@.len()
    }

    closed spec fn root_of(&self, p: int) -> int {
        forest_root(self.forest(), p)
    }

    proof fn lemma_roots(&self, p: int) {
        lemma_forest_root(self.forest(), p);
    }

    fn new(size: usize) -> (u: Self) {
        let u = WeightedQuickUnion {
            id: identity(size),
            sz: ones(size),
            height: Ghost(Seq::new(size as nat, |p: int| 0nat)),
            bound: Ghost(0nat),
        };
        proof {
            lemma_singletons(u.forest(), u.sz@);
        }
        u
    }

    fn find(&mut self, p: usize) -> (r: usize) {
        let mut at = p;
        while at != self.id[at]
            invariant
                self.wf(),
                *self == *old(self),
                at < self.id@.len(),
                forest_root(self.forest(), at as int) == old(self).root_of(p as int),
            decreases self.bound@ - self.height@[at as int],
        {
            at = self.id[at];
        }
        at
    }

    fn union(&mut self, p: usize, q: usize) {
        let rt_p = self.find(p);
        let rt_q = self.find(q);
        proof {
            lemma_forest_root(self.forest(), p as int);
            lemma_forest_root(self.forest(), q as int);
        }
        self.union_roots(rt_p, rt_q);
    }

    fn reset(&mut self) {
        let n = self.id.len();
        self.id = identity(n);
        self.sz = ones(n);
        proof {
            self.height@ = Seq::new(n as nat, |p: int| 0nat);
            self.bound@ = 0nat;
            lemma_singletons(self.forest(), self.sz@);
        }
    }
}

/// As `WeightedQuickUnion`, and `find` points every site it passes
/// straight at the root.
pub struct WeightedQuickUnionWithPathCompression {
    inner: WeightedQuickUnion,
}

impl UnionFind for WeightedQuickUnionWithPathCompression {
    closed spec fn wf(&self) -> bool {
        self.inner.wf()
    }

    closed spec fn size(&self) -> nat {
        self.inner.size()
    }

    closed spec fn root_of(&self, p: int) -> int {
        self.inner.root_of(p)
    }

    proof fn lemma_roots(&self, p: int) {
        self.inner.lemma_roots(p);
    }

    fn new(size: usize) -> (u: Self) {
        WeightedQuickUnionWithPathCompression { inner: WeightedQuickUnion::new(size) }
    }

    fn find(&mut self, p: usize) -> (r: usize) {
        self.inner.find_and_compress(p)
    }

    fn union(&mut self, p: usize, q: usize) {
        let rt_p = self.inner.find_and_compress(p);
        let rt_q = self.inner.find_and_compress(q);
        proof {
            lemma_forest_root(self.inner.forest(), p as int);
            lemma_forest_root(self.inner.forest(), q as int);
        }
        self.inner.union_roots(rt_p, rt_q);
    }

    fn reset(&mut self) {
        self.inner.reset();
    }
}

} // verus!
