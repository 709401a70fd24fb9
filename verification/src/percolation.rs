//! A square grid of sites that are opened one by one, with a virtual site
//! above the top row and one below the bottom row; the sets of a union-find
//! structure tell which sites are joined through open neighbours.

use crate::union_find::UnionFind;
use vstd::prelude::*;

verus! {

/// The grid's storage: a bit vector of the `bitvec` crate, one bit per
/// site.
#[verifier::external_body]
pub struct Grid {
    bits: bitvec::vec::BitVec,
}

/// The bits that a bit vector holds, in order.
pub uninterp spec fn bits_held(v: Grid) -> Seq<bool>;

/// `BitVec::repeat` with `false`: `len` bits, none set. Above an eighth of
/// the address space it panics.
#[verifier::external_body]
fn grid_new(len: usize) -> (v: Grid)
    requires
        len <= usize::MAX / 8,
    ensures
        bits_held(v).len() == len && forall|i: int| 0 <= i < len ==> !bits_held(v)[i],
{
    Grid { bits: bitvec::vec::BitVec::repeat(false, len) }
}

/// Indexing a `BitVec`: the bit at `pos`, which must be in bounds.
#[verifier::external_body]
fn grid_get(v: &Grid, pos: usize) -> (bit: bool)
    requires
        pos < bits_held(*v).len(),
    ensures
        bit == bits_held(*v)[pos as int],
{
    v.bits[pos]
}

/// `BitSlice::set`: writes the bit at `pos`, which must be in bounds, and
/// no other.
#[verifier::external_body]
fn grid_set(v: &mut Grid, pos: usize, bit: bool)
    requires
        pos < bits_held(*old(v)).len(),
    ensures
        bits_held(*final(v)) == bits_held(*old(v)).update(pos as int, bit),
{
    v.bits.set(pos, bit)
}

/// `BitSlice::fill` with `false`: as many bits as before, none set.
#[verifier::external_body]
fn grid_clear(v: &mut Grid)
    ensures
        bits_held(*final(v)).len() == bits_held(*old(v)).len() && forall|i: int|
            0 <= i < bits_held(*final(v)).len() ==> !bits_held(*final(v))[i],
{
    v.bits.fill(false)
}

/// When site `pos` of a grid of side `side` is opened, it is joined with
/// site `q`: the virtual top for a site of the first row, the virtual
/// bottom for one of the last row, and every open neighbour above, below,
/// left and right.
pub open spec fn linked(open: Seq<bool>, side: int, pos: int, q: int) -> bool {
    let top = side * side;
    let last_row = side * (side - 1);
    let col = pos % side;
    ||| pos < side && q == top
    ||| pos >= last_row && q == top + 1
    ||| pos < last_row && q == pos + side && open[q]
    ||| pos >= side && q == pos - side && open[q]
    ||| col != side - 1 && q == pos + 1 && open[q]
    ||| col != 0 && q == pos - 1 && open[q]
}

/// Site `x` is in the set of `pos` or in that of a site among `done`.
pub open spec fn hit<U: UnionFind>(before: U, pos: int, done: Seq<int>, x: int) -> bool {
    before.root_of(x) == before.root_of(pos) || exists|i: int|
        0 <= i < done.len() && before.root_of(#[trigger] done[i]) == before.root_of(x)
}

/// `now` is `before` with the sets of `pos` and of the sites among `done`
/// merged into one.
pub open spec fn merged_into<U: UnionFind>(before: U, now: U, pos: int, done: Seq<int>) -> bool {
    &&& now.wf()
    &&& now.size() == before.size()
    &&& hit(before, pos, done, now.root_of(pos))
    &&& before.root_of(now.root_of(pos)) == now.root_of(pos)
    &&& forall|x: int|
        0 <= x < before.size() ==> #[trigger] now.root_of(x) == (if hit(before, pos, done, x) {
            now.root_of(pos)
        } else {
            before.root_of(x)
        })
}

/// One more union with `pos` merges one more set.
pub proof fn lemma_join<U: UnionFind>(before: U, mid: U, after: U, pos: int, done: Seq<int>, q: int)
    requires
        before.wf(),
        0 <= pos < before.size(),
        0 <= q < before.size(),
        forall|i: int| 0 <= i < done.len() ==> 0 <= #[trigger] done[i] < before.size(),
        merged_into(before, mid, pos, done),
        after.wf(),
        after.size() == mid.size(),
        after.root_of(pos) == mid.root_of(pos) || after.root_of(pos) == mid.root_of(q),
        forall|x: int|
            0 <= x < mid.size() ==> after.root_of(x) == (if mid.root_of(x) == mid.root_of(pos)
                || mid.root_of(x) == mid.root_of(q) {
                after.root_of(pos)
            } else {
                mid.root_of(x)
            }),
    ensures
        merged_into(before, after, pos, done.push(q)),
{
    let done2 = done.push(q);
    before.lemma_roots(pos);
    before.lemma_roots(q);
    assert(done2[done.len() as int] == q);
    assert forall|x: int| 0 <= x < before.size() implies (hit(before, pos, done2, x) <==> (hit(
        before,
        pos,
        done,
        x,
    ) || before.root_of(x) == before.root_of(q))) by {
        if hit(before, pos, done, x) && before.root_of(x) != before.root_of(pos) {
            let i = choose|i: int|
                0 <= i < done.len() && before.root_of(#[trigger] done[i]) == before.root_of(x);
            assert(done2[i] == done[i]);
        }
        if hit(before, pos, done2, x) && before.root_of(x) != before.root_of(pos) {
            let i = choose|i: int|
                0 <= i < done2.len() && before.root_of(#[trigger] done2[i]) == before.root_of(x);
            if i < done.len() {
                assert(done2[i] == done[i]);
            }
        }
    }
    let r = mid.root_of(pos);
    assert(0 <= r < before.size()) by {
        mid.lemma_roots(pos);
    }
    assert forall|x: int| 0 <= x < before.size() && !hit(before, pos, done, x) implies mid.root_of(
        x,
    ) != r by {
        if before.root_of(x) == r {
            if before.root_of(r) == before.root_of(pos) {
            } else {
                let i = choose|i: int|
                    0 <= i < done.len() && before.root_of(#[trigger] done[i]) == before.root_of(r);
            }
        }
    }
    assert(mid.root_of(q) == (if hit(before, pos, done, q) {
        r
    } else {
        before.root_of(q)
    }));
    assert forall|x: int| 0 <= x < before.size() implies #[trigger] after.root_of(x) == (if hit(
        before,
        pos,
        done2,
        x,
    ) {
        after.root_of(pos)
    } else {
        before.root_of(x)
    }) by {
        assert(mid.root_of(x) == (if hit(before, pos, done, x) {
            r
        } else {
            before.root_of(x)
        }));
    }
    let r2 = after.root_of(pos);
    if r2 == mid.root_of(q) && !hit(before, pos, done, q) {
        assert(hit(before, pos, done2, r2));
    } else {
        assert(r2 == r);
        assert(hit(before, pos, done2, r));
    }
}

/// The last site of a row is the only one whose right neighbour is not in
/// the grid.
pub proof fn lemma_right_neighbour(side: int, pos: int)
    requires
        side >= 2,
        0 <= pos < side * side,
        pos % side != side - 1,
    ensures
        pos + 1 < side * side,
{
    if pos + 1 == side * side {
        assert(pos == (side - 1) * side + (side - 1)) by (nonlinear_arith)
            requires
                pos + 1 == side * side,
        ;
        vstd::arithmetic::div_mod::lemma_fundamental_div_mod_converse(
            pos,
            side,
            side - 1,
            side - 1,
        );
    }
}

/// A grid of `side * side` sites with a union-find structure over them and
/// the two virtual sites.
pub struct Percolation<U: UnionFind> {
    grid: Grid,
    size: usize,
    top: usize,
    bottom: usize,
    last_row: usize,
    uf: U,
}

impl<U: UnionFind> Percolation<U> {
    /// The side of the grid.
    pub closed spec fn side(&self) -> int {
        self.size as int
    }

    /// Which sites are open, row by row.
    pub closed spec fn open_sites(&self) -> Seq<bool> {
        bits_held(self.grid)
    }

    /// The sets of joined sites. Site `side * side` is the virtual top,
    /// and the one after it the virtual bottom.
    pub closed spec fn sets(&self) -> U {
        self.uf
    }

    /// The grid and the sets are of matching sizes.
    pub closed spec fn wf(&self) -> bool {
        &&& self.size >= 2
        &&& self.top == self.size * self.size
        &&& self.bottom == self.top + 1
        &&& self.last_row == self.size * (self.size - 1)
        &&& self.bottom < usize::MAX
        &&& bits_held(self.grid).len() == self.top
        &&& self.uf.wf()
        &&& self.uf.size() == self.top + 2
    }

    /// A grid of side `size` with every site closed and on its own.
    pub fn new(size: usize) -> (p: Self)
        requires
            2 <= size,
            size * size + 2 <= usize::MAX / 8,
        ensures
            p.wf(),
            p.side() == size,
            p.open_sites().len() == size * size,
            forall|i: int| 0 <= i < size * size ==> !p.open_sites()[i],
            forall|x: int| 0 <= x < size * size + 2 ==> p.sets().root_of(x) == x,
    {
        proof {
            assert(size * (size - 1) <= size * size) by (nonlinear_arith)
                requires
                    size >= 2,
            ;
        }
        let top = size * size;
        let bottom = top + 1;
        let grid = grid_new(top);
        let uf = U::new(bottom + 1);
        Percolation { grid, size, top, bottom, last_row: size * (size - 1), uf }
    }

    /// Whether site `pos` is open.
    pub fn is_open(&self, pos: usize) -> (r: bool)
        requires
            self.wf(),
            pos < self.side() * self.side(),
        ensures
            r == self.open_sites()[pos as int],
    {
        grid_get(&self.grid, pos)
    }

    /// Whether the virtual top and the virtual bottom are in one set.
    pub fn percolates(&mut self) -> (r: bool)
        requires
            old(self).wf(),
        ensures
            final(self).wf(),
            final(self).side() == old(self).side(),
            final(self).open_sites() == old(self).open_sites(),
            r == (old(self).sets().root_of(old(self).side() * old(self).side()) == old(
                self,
            ).sets().root_of(old(self).side() * old(self).side() + 1)),
            forall|x: int|
                0 <= x < old(self).sets().size() ==> final(self).sets().root_of(x) == old(
                    self,
                ).sets().root_of(x),
    {
        self.uf.connected(self.top, self.bottom)
    }

    /// Merges the set of `q` into that of `pos`.
    fn join(&mut self, pos: usize, q: usize, Ghost(before): Ghost<U>, Ghost(done): Ghost<Seq<int>>)
        requires
            old(self).wf(),
            before.wf(),
            pos < before.size(),
            q < before.size(),
            forall|i: int| 0 <= i < done.len() ==> 0 <= #[trigger] done[i] < before.size(),
            merged_into(before, old(self).uf, pos as int, done),
        ensures
            final(self).wf(),
            final(self).grid == old(self).grid,
            final(self).size == old(self).size,
            merged_into(before, final(self).uf, pos as int, done.push(q as int)),
    {
        let ghost mid = self.uf;
        self.uf.union(pos, q);
        proof {
            lemma_join(before, mid, self.uf, pos as int, done, q as int);
        }
    }

    /// Opens site `pos` and joins it with the sites it is linked to.
    pub fn open(&mut self, pos: usize)
        requires
            old(self).wf(),
            pos < old(self).side() * old(self).side(),
        ensures
            final(self).wf(),
            final(self).side() == old(self).side(),
            final(self).open_sites() == old(self).open_sites().update(pos as int, true),
            forall|x: int|
                0 <= x < old(self).sets().size() ==> #[trigger] final(self).sets().root_of(x) == (
                if old(self).sets().root_of(x) == old(self).sets().root_of(pos as int)
                    || exists|q: int|
                    linked(final(self).open_sites(), final(self).side(), pos as int, q) && old(
                        self,
                    ).sets().root_of(q) == #[trigger] old(self).sets().root_of(x) {
                    final(self).sets().root_of(pos as int)
                } else {
                    old(self).sets().root_of(x)
                }),
    {
        let ghost before = self.uf;
        let ghost side = self.size as int;
        let size = self.size;
        grid_set(&mut self.grid, pos, true);
        let ghost open = bits_held(self.grid);
        let ghost mut done: Seq<int> = Seq::empty();
        proof {
            before.lemma_roots(pos as int);
            assert(side * (side - 1) + side == side * side) by (nonlinear_arith);
            assert(merged_into(before, self.uf, pos as int, done));
        }
        if pos < size {
            self.join(pos, self.top, Ghost(before), Ghost(done));
            proof {
                done = done.push(self.top as int);
            }
        }
        if pos >= size && grid_get(&self.grid, pos - size) {
            self.join(pos, pos - size, Ghost(before), Ghost(done));
            proof {
                done = done.push(pos - size);
            }
        }
        if pos >= self.last_row {
            self.join(pos, self.bottom, Ghost(before), Ghost(done));
            proof {
                done = done.push(self.bottom as int);
            }
        }
        if pos < self.last_row && grid_get(&self.grid, pos + size) {
            self.join(pos, pos + size, Ghost(before), Ghost(done));
            proof {
                done = done.push(pos + size);
            }
        }
        let col = pos % size;
        proof {
            if col != size - 1 {
                lemma_right_neighbour(side, pos as int);
            }
            if pos == 0 {
                assert(0int % side == 0);
            }
        }
        if col != 0 && grid_get(&self.grid, pos - 1) {
            self.join(pos, pos - 1, Ghost(before), Ghost(done));
            proof {
                done = done.push(pos - 1);
            }
        }
        if col != size - 1 && grid_get(&self.grid, pos + 1) {
            self.join(pos, pos + 1, Ghost(before), Ghost(done));
            proof {
                done = done.push(pos + 1);
            }
        }
        proof {
            assert forall|q: int| linked(open, side, pos as int, q) <==> (exists|i: int|
                0 <= i < done.len() && #[trigger] done[i] == q) by {
                let a = pos < size;
                let d = pos >= size && open[pos - size];
                let b = pos >= self.last_row;
                let c = pos < self.last_row && open[pos + size];
                let f = col != 0 && open[pos - 1];
                let e = col != size - 1 && open[pos + 1];
                let na: int = if a { 1 } else { 0 };
                let nd: int = na + if d { 1int } else { 0int };
                let nb: int = nd + if b { 1int } else { 0int };
                let nc: int = nb + if c { 1int } else { 0int };
                let nf: int = nc + if f { 1int } else { 0int };
                if a {
                    assert(done[0] == self.top);
                }
                if d {
                    assert(done[na] == pos - size);
                }
                if b {
                    assert(done[nd] == self.bottom);
                }
                if c {
                    assert(done[nb] == pos + size);
                }
                if f {
                    assert(done[nc] == pos - 1);
                }
                if e {
                    assert(done[nf] == pos + 1);
                }
            }
            assert forall|x: int| 0 <= x < before.size() implies (hit(before, pos as int, done, x)
                <==> (before.root_of(x) == before.root_of(pos as int) || exists|q: int|
                linked(open, side, pos as int, q) && before.root_of(q) == #[trigger] before.root_of(
                    x,
                ))) by {
                if exists|q: int|
                    linked(open, side, pos as int, q) && before.root_of(q) == #[trigger] before.root_of(
                        x,
                    ) {
                    let q = choose|q: int|
                        linked(open, side, pos as int, q) && before.root_of(q) == #[trigger] before.root_of(
                            x,
                        );
                    let i = choose|i: int| 0 <= i < done.len() && #[trigger] done[i] == q;
                    assert(before.root_of(done[i]) == before.root_of(x));
                }
                if hit(before, pos as int, done, x) && before.root_of(x) != before.root_of(
                    pos as int,
                ) {
                    let i = choose|i: int|
                        0 <= i < done.len() && before.root_of(#[trigger] done[i]) == before.root_of(
                            x,
                        );
                    assert(linked(open, side, pos as int, done[i]));
                }
            }
        }
    }

    /// Closes every site and puts each on its own.
    pub fn reset(&mut self)
        requires
            old(self).wf(),
        ensures
            final(self).wf(),
            final(self).side() == old(self).side(),
            final(self).open_sites().len() == old(self).open_sites().len(),
            forall|i: int| 0 <= i < final(self).open_sites().len() ==> !final(self).open_sites()[i],
            forall|x: int| 0 <= x < old(self).sets().size() ==> final(self).sets().root_of(x) == x,
    {
        grid_clear(&mut self.grid);
        self.uf.reset();
    }
}

} // verus!
