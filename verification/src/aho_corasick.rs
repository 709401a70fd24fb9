//! Multi-pattern search: a trie of the patterns, compiled breadth-first into
//! an automaton that has a transition for every node and byte, so that a
//! text is scanned in one pass without following failure links.
//!
//! Patterns and texts are matched as bytes. Patterns are numbered in the
//! order of insertion; the empty pattern is not accepted.

use crate::substring::{
    is_suffix, lemma_absent_pattern, lemma_end_is_start, lemma_longer_pattern, never_occurs,
    occurs_at, lemma_count_by_ends, lemma_suffix_comparable, lemma_suffix_full, lemma_suffix_pop,
    lemma_suffix_proper, lemma_suffix_push, lemma_suffix_refl, lemma_suffix_trans, occurrence_ends,
    occurrences,
};
use crate::transition::{is_listing, listed, target_of, TransitionStore};
use vstd::prelude::*;
use vstd::string::StringSliceAdditionalSpecFns;

verus! {

/// Among the nodes whose path is a suffix of `t`, node `w` has the longest.
pub open spec fn longest_suffix_node(paths: Seq<Seq<u8>>, t: Seq<u8>, w: int) -> bool {
    &&& 0 <= w < paths.len()
    &&& is_suffix(paths[w], t)
    &&& forall|x: int|
        0 <= x < paths.len() && is_suffix(#[trigger] paths[x], t) ==> paths[x].len()
            <= paths[w].len()
}

/// The store has a binding for byte `b`.
pub open spec fn has_edge<S: TransitionStore>(s: S, b: u8) -> bool {
    s.edges().contains_key(b)
}

/// Node `v` hangs below its parent by the last byte of its path.
pub open spec fn linked<S: TransitionStore>(
    stores: Seq<S>,
    paths: Seq<Seq<u8>>,
    parents: Seq<int>,
    v: int,
) -> bool {
    let p = parents[v];
    let s = paths[v];
    &&& 0 <= p < stores.len()
    &&& s.len() > 0
    &&& paths[p] == s.drop_last()
    &&& has_edge(stores[p], s.last())
    &&& target_of(stores[p], s.last()) == v
}

/// Every binding of node `v`, whose store is `s`, for a byte from `k` on
/// is a trie edge.
pub open spec fn raw_from<S: TransitionStore>(s: S, paths: Seq<Seq<u8>>, v: int, k: int) -> bool {
    forall|b: u8| b >= k && #[trigger] has_edge(s, b) ==> paths[target_of(s, b)] == paths[v].push(b)
}

/// For every byte below `k`, node `v`, whose store is `s`, leads to the
/// node of the longest suffix of its path extended by that byte.
pub open spec fn full_row_upto<S: TransitionStore>(
    s: S,
    paths: Seq<Seq<u8>>,
    v: int,
    k: int,
) -> bool {
    forall|b: u8| b < k ==> longest_suffix_node(paths, paths[v].push(b), #[trigger] target_of(s, b))
}

/// The failure link of `v` is the node of the longest proper suffix of its
/// path.
pub open spec fn fail_ok(paths: Seq<Seq<u8>>, fail: Seq<usize>, v: int) -> bool {
    longest_suffix_node(paths, paths[v].drop_first(), fail[v] as int)
}

/// The queued nodes are distinct non-root nodes, known by their rank, and
/// in order of depth.
pub open spec fn queue_ok(order: Seq<usize>, rank: Seq<int>, paths: Seq<Seq<u8>>) -> bool {
    let n = paths.len();
    let m = order.len();
    &&& forall|i: int| 0 <= i < m ==> 1 <= (#[trigger] order[i]) < n && rank[order[i] as int] == i
    &&& forall|v: int|
        0 <= v < n ==> -1 <= (#[trigger] rank[v]) < m && (rank[v] >= 0 ==> order[rank[v]] == v)
    &&& rank[0] == -1
    &&& forall|i: int, j: int|
        0 <= i <= j < m ==> paths[#[trigger] order[i] as int].len() <= paths[#[trigger] order[j] as int].len()
}

/// The automaton as mathematical sequences indexed by node id.
pub ghost struct Automaton<S> {
    /// Each node's transition store.
    pub stores: Seq<S>,
    /// Each node's failure link.
    pub fail: Seq<usize>,
    /// The bytes on the way from the root to each node.
    pub paths: Seq<Seq<u8>>,
    /// Each node's parent in the trie.
    pub parents: Seq<int>,
    /// Each node's position in `order`, or -1.
    pub rank: Seq<int>,
    /// The non-root nodes in the order of their discovery.
    pub order: Seq<usize>,
}

/// The nodes form a trie: the root has the empty path, paths tell nodes
/// apart, every other node hangs below its parent, and bindings lead to
/// non-root nodes.
pub open spec fn tree_ok<S: TransitionStore>(g: Automaton<S>) -> bool {
    let n = g.stores.len();
    &&& n >= 1
    &&& g.fail.len() == n
    &&& g.paths.len() == n
    &&& g.parents.len() == n
    &&& g.rank.len() == n
    &&& g.paths[0].len() == 0
    &&& forall|v: int| 0 <= v < n ==> (#[trigger] g.stores[v]).wf()
    &&& forall|v: int| 0 <= v < n ==> #[trigger] g.fail[v] < n
    &&& forall|v: int, w: int|
        0 <= v < n && 0 <= w < n && #[trigger] g.paths[v] == #[trigger] g.paths[w] ==> v == w
    &&& forall|v: int| 1 <= v < n ==> #[trigger] linked(g.stores, g.paths, g.parents, v)
    &&& forall|v: int, b: u8|
        0 <= v < n && #[trigger] has_edge(g.stores[v], b) ==> 0 < target_of(g.stores[v], b) < n
}

/// The parent of the node whose path is `paths[u]` extended by `b` is `u`.
pub proof fn lemma_parent_unique<S: TransitionStore>(g: Automaton<S>, u: int, x: int, b: u8)
    requires
        tree_ok(g),
        0 <= u < g.stores.len(),
        0 <= x < g.stores.len(),
        g.paths[x] == g.paths[u].push(b),
    ensures
        x >= 1,
        g.parents[x] == u,
        g.paths[x].last() == b,
        has_edge(g.stores[u], b),
        target_of(g.stores[u], b) == x,
{
    assert(g.paths[x].len() > 0);
    assert(linked(g.stores, g.paths, g.parents, x));
    assert(g.paths[u].push(b).drop_last() =~= g.paths[u]);
}

/// One step of the automaton keeps the longest suffix: if `f` is the node
/// of the longest suffix of `s`, the node of the longest suffix of `f`'s
/// path extended by `b` is that of `s` extended by `b`.
pub proof fn lemma_step<S: TransitionStore>(g: Automaton<S>, s: Seq<u8>, f: int, b: u8, w: int)
    requires
        tree_ok(g),
        longest_suffix_node(g.paths, s, f),
        longest_suffix_node(g.paths, g.paths[f].push(b), w),
    ensures
        longest_suffix_node(g.paths, s.push(b), w),
{
    lemma_suffix_push(g.paths[f], s, b);
    lemma_suffix_trans(g.paths[w], g.paths[f].push(b), s.push(b));
    assert forall|x: int|
        0 <= x < g.paths.len() && is_suffix(#[trigger] g.paths[x], s.push(b)) implies g.paths[x].len()
        <= g.paths[w].len() by {
        if g.paths[x].len() > 0 {
            lemma_suffix_pop(g.paths[x], s, b);
            assert(linked(g.stores, g.paths, g.parents, x));
            let p = g.parents[x];
            lemma_suffix_comparable(g.paths[p], g.paths[f], s);
            lemma_suffix_push(g.paths[p], g.paths[f], b);
            assert(g.paths[p].push(b) =~= g.paths[x]);
        }
    }
}

/// The root leads on `b` to its child by `b`, or to itself.
pub proof fn lemma_root_row<S: TransitionStore>(g: Automaton<S>, b: u8)
    requires
        tree_ok(g),
        raw_from(g.stores[0], g.paths, 0, 0),
    ensures
        longest_suffix_node(g.paths, g.paths[0].push(b), target_of(g.stores[0], b)),
{
    let t = g.paths[0].push(b);
    let w = target_of(g.stores[0], b);
    lemma_suffix_refl(t);
    assert(g.paths[0] =~= Seq::<u8>::empty());
    if !has_edge(g.stores[0], b) {
        assert forall|x: int|
            0 <= x < g.paths.len() && is_suffix(#[trigger] g.paths[x], t) implies g.paths[x].len()
            <= g.paths[w].len() by {
            if g.paths[x].len() > 0 {
                lemma_suffix_full(g.paths[x], t);
                lemma_parent_unique(g, 0, x, b);
            }
        }
    }
}

/// A node leads on `b` to its child by `b`, if it has one.
pub proof fn lemma_child_row<S: TransitionStore>(g: Automaton<S>, u: int, b: u8)
    requires
        tree_ok(g),
        0 <= u < g.stores.len(),
        has_edge(g.stores[u], b),
        g.paths[target_of(g.stores[u], b)] == g.paths[u].push(b),
    ensures
        longest_suffix_node(g.paths, g.paths[u].push(b), target_of(g.stores[u], b)),
{
    lemma_suffix_refl(g.paths[u].push(b));
}

/// A node without a child by `b` leads on `b` where its failure link does.
pub proof fn lemma_inherit<S: TransitionStore>(g: Automaton<S>, u: int, f: int, b: u8, w: int)
    requires
        tree_ok(g),
        1 <= u < g.stores.len(),
        !has_edge(g.stores[u], b),
        longest_suffix_node(g.paths, g.paths[u].drop_first(), f),
        longest_suffix_node(g.paths, g.paths[f].push(b), w),
    ensures
        longest_suffix_node(g.paths, g.paths[u].push(b), w),
{
    let t = g.paths[u].push(b);
    assert(linked(g.stores, g.paths, g.parents, u));
    lemma_step(g, g.paths[u].drop_first(), f, b, w);
    assert(t.drop_first() =~= g.paths[u].drop_first().push(b));
    lemma_suffix_proper(g.paths[w], t);
    assert forall|x: int|
        0 <= x < g.paths.len() && is_suffix(#[trigger] g.paths[x], t) implies g.paths[x].len()
        <= g.paths[w].len() by {
        lemma_suffix_proper(g.paths[x], t);
        if g.paths[x].len() == t.len() {
            lemma_suffix_full(g.paths[x], t);
            lemma_parent_unique(g, u, x, b);
        }
    }
}

/// The failure link of a child by `b` is where the parent's failure link
/// leads on `b`; for a child of the root it is the root.
pub proof fn lemma_child_fail<S: TransitionStore>(g: Automaton<S>, u: int, f: int, b: u8, c: int, w: int)
    requires
        tree_ok(g),
        0 <= u < g.stores.len(),
        0 <= c < g.stores.len(),
        g.paths[c] == g.paths[u].push(b),
        u == 0 ==> w == 0,
        u >= 1 ==> longest_suffix_node(g.paths, g.paths[u].drop_first(), f)
            && longest_suffix_node(g.paths, g.paths[f].push(b), w),
    ensures
        longest_suffix_node(g.paths, g.paths[c].drop_first(), w),
{
    if u == 0 {
        assert(g.paths[c].drop_first() =~= Seq::<u8>::empty());
        lemma_suffix_refl(Seq::<u8>::empty());
        assert(g.paths[0] =~= Seq::<u8>::empty());
    } else {
        assert(linked(g.stores, g.paths, g.parents, u));
        lemma_step(g, g.paths[u].drop_first(), f, b, w);
        assert(g.paths[c].drop_first() =~= g.paths[u].drop_first().push(b));
    }
}

/// Depths are path lengths, and every pattern is the non-empty path of its
/// node.
pub open spec fn labels_ok(
    paths: Seq<Seq<u8>>,
    depth: Seq<usize>,
    pattern_nodes: Seq<usize>,
    patterns: Seq<Seq<u8>>,
) -> bool {
    let n = paths.len();
    &&& depth.len() == n
    &&& forall|v: int| 0 <= v < n ==> #[trigger] depth[v] == paths[v].len()
    &&& pattern_nodes.len() == patterns.len()
    &&& forall|k: int|
        0 <= k < patterns.len() ==> (#[trigger] pattern_nodes[k]) < n && paths[pattern_nodes[k] as int]
            == patterns[k] && patterns[k].len() > 0
}

/// The automaton is finished: every non-root node is queued, has
/// its failure link, and every node has all of its transitions.
pub open spec fn compiled<S: TransitionStore>(g: Automaton<S>) -> bool {
    let n = g.stores.len();
    &&& queue_ok(g.order, g.rank, g.paths)
    &&& forall|v: int| 1 <= v < n ==> 0 <= #[trigger] g.rank[v]
    &&& forall|v: int| 1 <= v < n ==> #[trigger] fail_ok(g.paths, g.fail, v)
    &&& forall|v: int| 0 <= v < n ==> #[trigger] full_row_upto(g.stores[v], g.paths, v, 256)
}

/// Node `v` has all of its transitions: it is the root, or was queued
/// before position `start`.
pub open spec fn done(rank: Seq<int>, start: int, v: int) -> bool {
    v == 0 || 0 <= rank[v] < start
}

/// The parent of `w` has handed `w` on to the queue: the parent is done,
/// or is the node at `start` and has got past the byte that leads to `w`.
pub open spec fn reached<S: TransitionStore>(g: Automaton<S>, start: int, k: int, w: int) -> bool {
    ||| done(g.rank, start, g.parents[w])
    ||| (0 <= start < g.order.len() && g.parents[w] == g.order[start] && g.paths[w].last() < k)
}

/// How far the transitions of node `v` have got while the node at `start`
/// is at byte `k`.
pub open spec fn progress<S: TransitionStore>(g: Automaton<S>, start: int, k: int, v: int) -> int {
    if 0 <= start < g.order.len() && v == g.order[start] {
        k
    } else if done(g.rank, start, v) {
        256
    } else {
        0
    }
}

/// The byte from which on the bindings of node `v` are still those of the
/// trie. The root never gets another binding.
pub open spec fn untouched_from<S: TransitionStore>(g: Automaton<S>, start: int, k: int, v: int) -> int {
    if v == 0 {
        0
    } else {
        progress(g, start, k, v)
    }
}

/// The state of the breadth-first compilation when the nodes before
/// position `start` of the queue are done and the node at `start` has got
/// to byte `k`.
pub open spec fn bfs_inv<S: TransitionStore>(g: Automaton<S>, start: int, k: int) -> bool {
    let n = g.stores.len();
    let m = g.order.len();
    &&& tree_ok(g)
    &&& queue_ok(g.order, g.rank, g.paths)
    &&& 0 <= start <= m
    &&& 0 <= k <= 256
    &&& start < m ==> g.paths[g.order[m - 1] as int].len() <= g.paths[g.order[start] as int].len() + 1
    &&& forall|v: int| 1 <= v < n && g.rank[v] >= 0 ==> #[trigger] fail_ok(g.paths, g.fail, v)
    &&& forall|v: int|
        0 <= v < n ==> #[trigger] full_row_upto(g.stores[v], g.paths, v, progress(g, start, k, v))
    &&& forall|v: int|
        0 <= v < n ==> #[trigger] raw_from(g.stores[v], g.paths, v, untouched_from(g, start, k, v))
    &&& forall|w: int| 1 <= w < n ==> ((g.rank[w] >= 0) <==> #[trigger] reached(g, start, k, w))
    &&& start < m ==> forall|w: int|
        1 <= w < n && g.paths[w].len() < g.paths[g.order[start] as int].len() ==> 0
            <= #[trigger] g.rank[w] < start
}

/// The state while the children of the root are queued, up to byte `k`.
pub open spec fn root_inv<S: TransitionStore>(g: Automaton<S>, k: int) -> bool {
    let n = g.stores.len();
    let m = g.order.len();
    &&& tree_ok(g)
    &&& queue_ok(g.order, g.rank, g.paths)
    &&& 0 <= k <= 256
    &&& forall|i: int| 0 <= i < m ==> g.paths[#[trigger] g.order[i] as int].len() == 1
    &&& forall|v: int| 1 <= v < n && g.rank[v] >= 0 ==> #[trigger] fail_ok(g.paths, g.fail, v)
    &&& forall|v: int| 0 <= v < n ==> #[trigger] raw_from(g.stores[v], g.paths, v, 0)
    &&& forall|w: int|
        1 <= w < n ==> ((#[trigger] g.rank[w] >= 0) <==> (g.parents[w] == 0 && g.paths[w].last()
            < k))
}

/// The automaton after node `c` has been queued with failure link `w`.
pub open spec fn enqueued<S: TransitionStore>(g: Automaton<S>, c: int, w: usize) -> Automaton<S> {
    Automaton {
        fail: g.fail.update(c, w),
        order: g.order.push(c as usize),
        rank: g.rank.update(c, g.order.len() as int),
        ..g
    }
}

/// The automaton after node `u` has got the store `s`.
pub open spec fn restored<S: TransitionStore>(g: Automaton<S>, u: int, s: S) -> Automaton<S> {
    Automaton { stores: g.stores.update(u, s), ..g }
}

/// Before any child of the root is queued.
pub proof fn lemma_root_start<S: TransitionStore>(g: Automaton<S>)
    requires
        tree_ok(g),
        g.order.len() == 0,
        forall|v: int| 0 <= v < g.stores.len() ==> g.rank[v] == -1,
        forall|v: int| 0 <= v < g.stores.len() ==> #[trigger] raw_from(g.stores[v], g.paths, v, 0),
    ensures
        root_inv(g, 0),
{
}

/// Queueing the child of the root by byte `k`, with the root as its
/// failure link.
pub proof fn lemma_root_step<S: TransitionStore>(g: Automaton<S>, k: int, c: int)
    requires
        root_inv(g, k),
        k < 256,
        has_edge(g.stores[0], k as u8),
        c == target_of(g.stores[0], k as u8),
    ensures
        1 <= c < g.stores.len(),
        g.rank[c] == -1,
        longest_suffix_node(g.paths, g.paths[c].drop_first(), 0),
        root_inv(enqueued(g, c, 0), k + 1),
{
    let b = k as u8;
    let g2 = enqueued(g, c, 0);
    let n = g.stores.len();
    let m = g.order.len();
    assert(raw_from(g.stores[0], g.paths, 0, 0));
    lemma_parent_unique(g, 0, c, b);
    assert(g.rank[c] == -1);
    lemma_child_fail(g, 0, 0, b, c, 0);
    assert(g.paths[c].len() == 1);
    assert forall|v: int| 1 <= v < n implies #[trigger] linked(
        g2.stores,
        g2.paths,
        g2.parents,
        v,
    ) by {
        assert(linked(g.stores, g.paths, g.parents, v));
    }
    assert(tree_ok(g2));
    assert forall|i: int| 0 <= i < m + 1 implies 1 <= (#[trigger] g2.order[i]) < n
        && g2.rank[g2.order[i] as int] == i && g2.paths[g2.order[i] as int].len() == 1 by {
        if i < m {
            assert(g.order[i] != c);
        }
    }
    assert(queue_ok(g2.order, g2.rank, g2.paths));
    assert forall|v: int| 1 <= v < n && g2.rank[v] >= 0 implies #[trigger] fail_ok(
        g2.paths,
        g2.fail,
        v,
    ) by {
        if v != c {
            assert(fail_ok(g.paths, g.fail, v));
        }
    }
    assert forall|w: int| 1 <= w < n implies ((#[trigger] g2.rank[w] >= 0) <==> (g2.parents[w]
        == 0 && g2.paths[w].last() < k + 1)) by {
        if w != c {
            assert(g.rank[w] >= 0 <==> (g.parents[w] == 0 && g.paths[w].last() < k));
            if g.parents[w] == 0 && g.paths[w].last() == k {
                assert(linked(g.stores, g.paths, g.parents, w));
                assert(g.paths[w] =~= g.paths[0].push(b));
            }
        }
    }
}

/// A byte for which the root has no binding queues no child.
pub proof fn lemma_root_skip<S: TransitionStore>(g: Automaton<S>, k: int)
    requires
        root_inv(g, k),
        k < 256,
        !has_edge(g.stores[0], k as u8),
    ensures
        root_inv(g, k + 1),
{
    let n = g.stores.len();
    assert forall|w: int| 1 <= w < n implies ((#[trigger] g.rank[w] >= 0) <==> (g.parents[w] == 0
        && g.paths[w].last() < k + 1)) by {
        assert(g.rank[w] >= 0 <==> (g.parents[w] == 0 && g.paths[w].last() < k));
        if g.parents[w] == 0 && g.paths[w].last() == k {
            assert(linked(g.stores, g.paths, g.parents, w));
        }
    }
}

/// Once the children of the root are queued, the first of them is in
/// turn.
pub proof fn lemma_root_done<S: TransitionStore>(g: Automaton<S>)
    requires
        root_inv(g, 256),
    ensures
        bfs_inv(g, 0, 0),
{
    let n = g.stores.len();
    let m = g.order.len();
    assert forall|v: int| 0 <= v < n implies #[trigger] full_row_upto(
        g.stores[v],
        g.paths,
        v,
        progress(g, 0, 0, v),
    ) by {
        if v == 0 {
            assert(raw_from(g.stores[0], g.paths, 0, 0));
            assert forall|b: u8| b < 256 implies longest_suffix_node(
                g.paths,
                g.paths[0].push(b),
                #[trigger] target_of(g.stores[0], b),
            ) by {
                lemma_root_row(g, b);
            }
        }
    }
    assert forall|v: int| 0 <= v < n implies #[trigger] raw_from(
        g.stores[v],
        g.paths,
        v,
        untouched_from(g, 0, 0, v),
    ) by {
        assert(raw_from(g.stores[v], g.paths, v, 0));
    }
    assert forall|w: int| 1 <= w < n implies ((g.rank[w] >= 0) <==> #[trigger] reached(
        g,
        0,
        0,
        w,
    )) by {
        assert(linked(g.stores, g.paths, g.parents, w));
    }
    if 0 < m {
        assert(g.paths[g.order[m - 1] as int].len() == 1);
        assert(g.paths[g.order[0] as int].len() == 1);
        assert forall|w: int|
            1 <= w < n && g.paths[w].len() < g.paths[g.order[0] as int].len() implies 0
            <= #[trigger] g.rank[w] < 0 by {
            assert(linked(g.stores, g.paths, g.parents, w));
        }
    }
}

/// While the node at `start` is at byte `k`, its failure link is done and
/// leads on `k` to the node of the longest suffix.
pub proof fn lemma_fail_done<S: TransitionStore>(g: Automaton<S>, start: int, k: int)
    requires
        bfs_inv(g, start, k),
        start < g.order.len(),
        k < 256,
    ensures
        1 <= g.order[start] < g.stores.len(),
        g.rank[g.order[start] as int] == start,
        0 <= g.fail[g.order[start] as int] < g.stores.len(),
        g.fail[g.order[start] as int] != g.order[start],
        done(g.rank, start, g.fail[g.order[start] as int] as int),
        fail_ok(g.paths, g.fail, g.order[start] as int),
        longest_suffix_node(
            g.paths,
            g.paths[g.fail[g.order[start] as int] as int].push(k as u8),
            target_of(g.stores[g.fail[g.order[start] as int] as int], k as u8),
        ),
{
    let u = g.order[start] as int;
    let f = g.fail[u] as int;
    assert(g.rank[u] == start);
    assert(fail_ok(g.paths, g.fail, u));
    assert(linked(g.stores, g.paths, g.parents, u));
    assert(g.paths[f].len() < g.paths[u].len());
    if f >= 1 {
        assert(0 <= g.rank[f] < start);
    }
    assert(progress(g, start, k, f) == 256);
    assert(full_row_upto(g.stores[f], g.paths, f, progress(g, start, k, f)));
}

/// Queueing the child by byte `k` of the node at `start`, with the failure
/// link that the parent's failure link leads to on `k`.
pub proof fn lemma_bfs_edge<S: TransitionStore>(g: Automaton<S>, start: int, k: int, c: int, w: usize)
    requires
        bfs_inv(g, start, k),
        start < g.order.len(),
        k < 256,
        has_edge(g.stores[g.order[start] as int], k as u8),
        c == target_of(g.stores[g.order[start] as int], k as u8),
        w == target_of(g.stores[g.fail[g.order[start] as int] as int], k as u8),
    ensures
        1 <= c < g.stores.len(),
        c != g.order[start],
        g.rank[c] == -1,
        w < g.stores.len(),
        longest_suffix_node(g.paths, g.paths[c].drop_first(), w as int),
        g.paths[w as int].len() <= g.paths[g.order[start] as int].len(),
        bfs_inv(enqueued(g, c, w), start, k + 1),
{
    let b = k as u8;
    let u = g.order[start] as int;
    let f = g.fail[u] as int;
    let g2 = enqueued(g, c, w);
    let n = g.stores.len();
    let m = g.order.len();
    lemma_fail_done(g, start, k);
    assert(untouched_from(g, start, k, u) == k);
    assert(raw_from(g.stores[u], g.paths, u, untouched_from(g, start, k, u)));
    lemma_parent_unique(g, u, c, b);
    assert(g.rank[c] == -1) by {
        if g.rank[c] >= 0 {
            assert(reached(g, start, k, c));
        }
    }
    lemma_child_fail(g, u, f, b, c, w as int);
    assert(g.paths[c].drop_first().len() == g.paths[u].len());
    assert forall|v: int| 1 <= v < n implies #[trigger] linked(
        g2.stores,
        g2.paths,
        g2.parents,
        v,
    ) by {
        assert(linked(g.stores, g.paths, g.parents, v));
    }
    assert(tree_ok(g2));
    assert forall|i: int| 0 <= i < m + 1 implies 1 <= (#[trigger] g2.order[i]) < n
        && g2.rank[g2.order[i] as int] == i by {
        if i < m {
            assert(g.order[i] != c);
        }
    }
    assert forall|i: int, j: int| 0 <= i <= j < m + 1 implies g2.paths[#[trigger] g2.order[i] as int].len()
        <= g2.paths[#[trigger] g2.order[j] as int].len() by {
        if j == m && i < m {
            assert(g.paths[g.order[i] as int].len() <= g.paths[g.order[m - 1] as int].len());
        }
    }
    assert(queue_ok(g2.order, g2.rank, g2.paths));
    assert forall|v: int| 1 <= v < n && g2.rank[v] >= 0 implies #[trigger] fail_ok(
        g2.paths,
        g2.fail,
        v,
    ) by {
        if v != c {
            assert(fail_ok(g.paths, g.fail, v));
        }
    }
    assert forall|v: int| 0 <= v < n implies progress(g2, start, k + 1, v) == (if v == u {
        k + 1
    } else {
        progress(g, start, k, v)
    }) by {}
    assert forall|v: int| 0 <= v < n implies #[trigger] full_row_upto(
        g2.stores[v],
        g2.paths,
        v,
        progress(g2, start, k + 1, v),
    ) by {
        assert(full_row_upto(g.stores[v], g.paths, v, progress(g, start, k, v)));
        if v == u {
            lemma_child_row(g, u, b);
        }
    }
    assert forall|v: int| 0 <= v < n implies #[trigger] raw_from(
        g2.stores[v],
        g2.paths,
        v,
        untouched_from(g2, start, k + 1, v),
    ) by {
        assert(raw_from(g.stores[v], g.paths, v, untouched_from(g, start, k, v)));
    }
    assert forall|x: int| 1 <= x < n implies ((g2.rank[x] >= 0) <==> #[trigger] reached(
        g2,
        start,
        k + 1,
        x,
    )) by {
        assert((g.rank[x] >= 0) <==> reached(g, start, k, x));
        assert(linked(g.stores, g.paths, g.parents, x));
        let p = g.parents[x];
        assert(done(g2.rank, start, p) == done(g.rank, start, p));
        if x != c && p == u && g.paths[x].last() == k {
            assert(g.paths[x] =~= g.paths[u].push(b));
        }
    }
    assert forall|x: int|
        1 <= x < n && g2.paths[x].len() < g2.paths[g2.order[start] as int].len() implies 0
        <= #[trigger] g2.rank[x] < start by {
        assert(0 <= g.rank[x] < start);
    }
}

/// Giving the node at `start` the binding of its failure link for byte
/// `k`, for which it has none of its own.
pub proof fn lemma_bfs_inherit<S: TransitionStore>(g: Automaton<S>, start: int, k: int, s: S)
    requires
        bfs_inv(g, start, k),
        start < g.order.len(),
        k < 256,
        !has_edge(g.stores[g.order[start] as int], k as u8),
        s.wf(),
        s.edges() == (if has_edge(g.stores[g.fail[g.order[start] as int] as int], k as u8) {
            g.stores[g.order[start] as int].edges().insert(
                k as u8,
                g.stores[g.fail[g.order[start] as int] as int].edges()[k as u8],
            )
        } else {
            g.stores[g.order[start] as int].edges()
        }),
    ensures
        bfs_inv(restored(g, g.order[start] as int, s), start, k + 1),
{
    let b = k as u8;
    let u = g.order[start] as int;
    let f = g.fail[u] as int;
    let g2 = restored(g, u, s);
    let n = g.stores.len();
    let m = g.order.len();
    let w = target_of(g.stores[f], b);
    lemma_fail_done(g, start, k);
    lemma_inherit(g, u, f, b, w);
    assert(target_of(s, b) == w);
    assert forall|x: u8| x != b implies has_edge(s, x) == has_edge(g.stores[u], x) && target_of(
        s,
        x,
    ) == target_of(g.stores[u], x) by {}
    assert forall|v: int| 1 <= v < n implies #[trigger] linked(
        g2.stores,
        g2.paths,
        g2.parents,
        v,
    ) by {
        assert(linked(g.stores, g.paths, g.parents, v));
    }
    assert forall|v: int, x: u8| 0 <= v < n && #[trigger] has_edge(g2.stores[v], x) implies 0
        < target_of(g2.stores[v], x) < n by {
        if v == u && x == b {
            assert(has_edge(g.stores[f], b));
        } else {
            assert(has_edge(g.stores[v], x));
        }
    }
    assert(tree_ok(g2));
    assert forall|v: int| 0 <= v < n implies progress(g2, start, k + 1, v) == (if v == u {
        k + 1
    } else {
        progress(g, start, k, v)
    }) by {}
    assert forall|v: int| 0 <= v < n implies #[trigger] full_row_upto(
        g2.stores[v],
        g2.paths,
        v,
        progress(g2, start, k + 1, v),
    ) by {
        assert(full_row_upto(g.stores[v], g.paths, v, progress(g, start, k, v)));
        if v == u {
            assert forall|x: u8| x < k + 1 implies longest_suffix_node(
                g.paths,
                g.paths[u].push(x),
                #[trigger] target_of(s, x),
            ) by {
                if x != b {
                    assert(target_of(s, x) == target_of(g.stores[u], x));
                }
            }
        }
    }
    assert forall|v: int| 0 <= v < n implies #[trigger] raw_from(
        g2.stores[v],
        g2.paths,
        v,
        untouched_from(g2, start, k + 1, v),
    ) by {
        assert(raw_from(g.stores[v], g.paths, v, untouched_from(g, start, k, v)));
        if v == u {
            assert forall|x: u8| x >= k + 1 && #[trigger] has_edge(s, x) implies g.paths[target_of(
                s,
                x,
            )] == g.paths[u].push(x) by {
                assert(has_edge(g.stores[u], x));
            }
        }
    }
    assert forall|x: int| 1 <= x < n implies ((g2.rank[x] >= 0) <==> #[trigger] reached(
        g2,
        start,
        k + 1,
        x,
    )) by {
        assert((g.rank[x] >= 0) <==> reached(g, start, k, x));
        assert(linked(g.stores, g.paths, g.parents, x));
        if g.parents[x] == u && g.paths[x].last() == k {
            assert(g.paths[x] =~= g.paths[u].push(b));
            lemma_parent_unique(g, u, x, b);
        }
    }
    assert forall|x: int|
        1 <= x < n && g2.paths[x].len() < g2.paths[g2.order[start] as int].len() implies 0
        <= #[trigger] g2.rank[x] < start by {
        assert(0 <= g.rank[x] < start);
    }
}

/// Once the node at `start` has all of its transitions, the next node's
/// turn begins.
pub proof fn lemma_bfs_next<S: TransitionStore>(g: Automaton<S>, start: int)
    requires
        bfs_inv(g, start, 256),
        start < g.order.len(),
    ensures
        bfs_inv(g, start + 1, 0),
{
    let u = g.order[start] as int;
    let n = g.stores.len();
    let m = g.order.len();
    assert(g.rank[u] == start);
    assert forall|v: int| 0 <= v < n implies #[trigger] full_row_upto(
        g.stores[v],
        g.paths,
        v,
        progress(g, start + 1, 0, v),
    ) by {
        assert(full_row_upto(g.stores[v], g.paths, v, progress(g, start, 256, v)));
        if start + 1 < m && v == g.order[start + 1] {
        } else if v != u {
            assert(done(g.rank, start + 1, v) == done(g.rank, start, v));
        }
    }
    assert forall|v: int| 0 <= v < n implies #[trigger] raw_from(
        g.stores[v],
        g.paths,
        v,
        untouched_from(g, start + 1, 0, v),
    ) by {
        assert(raw_from(g.stores[v], g.paths, v, untouched_from(g, start, 256, v)));
        if v != 0 && start + 1 < m && v == g.order[start + 1] {
            assert(g.rank[v] == start + 1);
            assert(!done(g.rank, start, v));
            assert(untouched_from(g, start, 256, v) == 0);
        }
    }
    assert forall|x: int| 1 <= x < n implies ((g.rank[x] >= 0) <==> #[trigger] reached(
        g,
        start + 1,
        0,
        x,
    )) by {
        assert((g.rank[x] >= 0) <==> reached(g, start, 256, x));
        assert(linked(g.stores, g.paths, g.parents, x));
    }
    if start + 1 < m {
        let u2 = g.order[start + 1] as int;
        assert(g.paths[u].len() <= g.paths[u2].len());
        assert(g.paths[g.order[m - 1] as int].len() <= g.paths[u2].len() + 1);
        assert forall|x: int| 1 <= x < n && g.paths[x].len() < g.paths[u2].len() implies 0
            <= #[trigger] g.rank[x] < start + 1 by {
            if g.paths[x].len() < g.paths[u].len() {
                assert(0 <= g.rank[x] < start);
            } else {
                assert(linked(g.stores, g.paths, g.parents, x));
                let p = g.parents[x];
                assert(g.paths[p].len() < g.paths[u].len());
                if p >= 1 {
                    assert(0 <= g.rank[p] < start);
                }
                assert(reached(g, start, 256, x));
                assert(g.rank[x] >= 0);
                if g.rank[x] > start {
                    assert(g.paths[g.order[start + 1] as int].len() <= g.paths[g.order[g.rank[x]] as int].len());
                }
            }
        }
    }
}

/// In a finished queue every node but the root has its rank.
pub proof fn lemma_all_queued<S: TransitionStore>(g: Automaton<S>, w: int)
    requires
        bfs_inv(g, g.order.len() as int, 0),
        1 <= w < g.stores.len(),
    ensures
        0 <= g.rank[w],
    decreases g.paths[w].len(),
{
    assert(linked(g.stores, g.paths, g.parents, w));
    let p = g.parents[w];
    if p >= 1 {
        lemma_all_queued(g, p);
    }
    assert(reached(g, g.order.len() as int, 0, w));
}

/// When the queue is exhausted the automaton is finished.
pub proof fn lemma_bfs_done<S: TransitionStore>(g: Automaton<S>)
    requires
        bfs_inv(g, g.order.len() as int, 0),
    ensures
        compiled(g),
{
    let n = g.stores.len();
    let m = g.order.len() as int;
    assert forall|v: int| 1 <= v < n implies 0 <= #[trigger] g.rank[v] by {
        lemma_all_queued(g, v);
    }
    assert forall|v: int| 0 <= v < n implies #[trigger] full_row_upto(
        g.stores[v],
        g.paths,
        v,
        256,
    ) by {
        assert(full_row_upto(g.stores[v], g.paths, v, progress(g, m, 0, v)));
        if v >= 1 {
            lemma_all_queued(g, v);
        }
    }
}

/// The queue holds fewer nodes than there are.
pub proof fn lemma_queue_bound<S: TransitionStore>(g: Automaton<S>)
    requires
        g.rank.len() == g.paths.len(),
        queue_ok(g.order, g.rank, g.paths),
    ensures
        g.order.len() < g.paths.len() || g.order.len() == 0,
{
    let n = g.paths.len() as int;
    let m = g.order.len() as int;
    if m > 0 {
        assert(1 <= g.order[0] < n);
        let range = vstd::set_lib::set_int_range(1, n);
        let taken = Set::new(|v: int| 1 <= v < n && g.rank[v] >= 0);
        let ranks = vstd::set_lib::set_int_range(0, m);
        vstd::set_lib::lemma_int_range(1, n);
        vstd::set_lib::lemma_int_range(0, m);
        assert(taken.subset_of(range));
        vstd::set_lib::lemma_len_subset(taken, range);
        let place = |i: int| g.order[i] as int;
        assert(vstd::relations::injective_on(place, ranks)) by {
            assert forall|i: int, j: int|
                ranks.contains(i) && ranks.contains(j) && #[trigger] place(i) == #[trigger] place(
                    j,
                ) implies i == j by {
                assert(g.rank[g.order[i] as int] == i);
                assert(g.rank[g.order[j] as int] == j);
            }
        }
        assert(ranks.map(place) =~= taken) by {
            assert forall|v: int| taken.contains(v) implies ranks.map(place).contains(v) by {
                assert(ranks.contains(g.rank[v]) && place(g.rank[v]) == v);
            }
            assert forall|v: int| ranks.map(place).contains(v) implies taken.contains(v) by {
                let i = choose|i: int| ranks.contains(i) && place(i) == v;
                assert(g.rank[g.order[i] as int] == i);
            }
        }
        vstd::set_lib::lemma_map_size(ranks, taken, place);
    }
}

/// The text positions at which the scan was in node `v`.
pub open spec fn visits(states: Seq<int>, v: int) -> Set<int> {
    Set::new(|e: int| 0 <= e < states.len() && states[e] == v)
}

/// A node is visited at most once per position.
pub proof fn lemma_visits_bound(states: Seq<int>, v: int)
    ensures
        visits(states, v).finite(),
        visits(states, v).len() <= states.len(),
{
    let range = vstd::set_lib::set_int_range(0, states.len() as int);
    vstd::set_lib::lemma_int_range(0, states.len() as int);
    assert(visits(states, v).subset_of(range));
    vstd::set_lib::lemma_len_subset(visits(states, v), range);
}

/// `states[e]` is the node of the longest suffix of the first `e + 1`
/// bytes of `t` that is a path.
pub open spec fn scanned(paths: Seq<Seq<u8>>, t: Seq<u8>, states: Seq<int>) -> bool {
    forall|e: int|
        0 <= e < states.len() ==> longest_suffix_node(paths, t.take(e + 1), #[trigger] states[e])
}

/// Position `e` has reached the tally of `v` from a node whose failure link
/// is `v` and that was folded at rank `k` or later.
pub open spec fn fed_by<S: TransitionStore>(g: Automaton<S>, t: Seq<u8>, k: int, v: int, e: int) -> bool {
    exists|u: int|
        1 <= u < g.stores.len() && g.fail[u] == v && g.rank[u] >= k && #[trigger] occurrence_ends(
            g.paths[u],
            t,
        ).contains(e)
}

/// The tallies while the nodes are folded into their failure links, last
/// queued first, when those of rank `k` and later have been folded.
pub open spec fn fold_inv<S: TransitionStore>(
    g: Automaton<S>,
    t: Seq<u8>,
    states: Seq<int>,
    acc: Seq<Set<int>>,
    k: int,
) -> bool {
    let n = g.stores.len();
    &&& acc.len() == n
    &&& states.len() == t.len()
    &&& scanned(g.paths, t, states)
    &&& 0 <= k <= g.order.len()
    &&& forall|v: int|
        0 <= v < n ==> (#[trigger] acc[v]).finite() && acc[v].subset_of(
            occurrence_ends(g.paths[v], t),
        )
    &&& forall|v: int|
        1 <= v < n && g.rank[v] >= k ==> #[trigger] acc[v] == occurrence_ends(g.paths[v], t)
    &&& forall|v: int, e: int|
        0 <= v < n && #[trigger] acc[v].contains(e) ==> states[e] == v || fed_by(g, t, k, v, e)
    &&& forall|e: int| 0 <= e < states.len() ==> acc[#[trigger] states[e]].contains(e)
    &&& forall|u: int, e: int|
        1 <= u < n && g.rank[u] >= k && #[trigger] occurrence_ends(g.paths[u], t).contains(e)
            ==> acc[g.fail[u] as int].contains(e)
}

/// Between a node and a longer node that ends in its path lies a node
/// whose failure link is the shorter one.
pub proof fn lemma_chain<S: TransitionStore>(g: Automaton<S>, v: int, w: int) -> (u: int)
    requires
        tree_ok(g),
        compiled(g),
        0 <= v < g.stores.len(),
        0 <= w < g.stores.len(),
        is_suffix(g.paths[v], g.paths[w]),
        g.paths[v].len() < g.paths[w].len(),
    ensures
        1 <= u < g.stores.len(),
        g.fail[u] == v,
        is_suffix(g.paths[u], g.paths[w]),
        g.paths[u].len() > g.paths[v].len(),
    decreases g.paths[w].len(),
{
    assert(fail_ok(g.paths, g.fail, w));
    let fw = g.fail[w] as int;
    lemma_suffix_proper(g.paths[v], g.paths[w]);
    lemma_suffix_proper(g.paths[fw], g.paths[w]);
    lemma_suffix_comparable(g.paths[v], g.paths[fw], g.paths[w].drop_first());
    if g.paths[v].len() == g.paths[fw].len() {
        lemma_suffix_full(g.paths[v], g.paths[fw]);
        lemma_suffix_refl(g.paths[w]);
        w
    } else {
        let u = lemma_chain(g, v, fw);
        lemma_suffix_trans(g.paths[u], g.paths[fw], g.paths[w]);
        u
    }
}

/// A longer path is queued later.
pub proof fn lemma_deeper_later<S: TransitionStore>(g: Automaton<S>, a: int, b: int)
    requires
        tree_ok(g),
        compiled(g),
        1 <= a < g.stores.len(),
        1 <= b < g.stores.len(),
        g.paths[a].len() < g.paths[b].len(),
    ensures
        g.rank[a] < g.rank[b],
{
    if g.rank[b] <= g.rank[a] {
        assert(g.paths[g.order[g.rank[b]] as int].len() <= g.paths[g.order[g.rank[a]] as int].len());
    }
}

/// The failure link of a node has a shorter path, a proper suffix of the
/// node's own, and comes earlier in the queue.
pub proof fn lemma_fail_shorter<S: TransitionStore>(g: Automaton<S>, u: int)
    requires
        tree_ok(g),
        compiled(g),
        1 <= u < g.stores.len(),
    ensures
        0 <= g.fail[u] < g.stores.len(),
        is_suffix(g.paths[g.fail[u] as int], g.paths[u]),
        is_suffix(g.paths[g.fail[u] as int], g.paths[u].drop_first()),
        g.paths[g.fail[u] as int].len() < g.paths[u].len(),
        g.rank[g.fail[u] as int] < g.rank[u],
{
    assert(fail_ok(g.paths, g.fail, u));
    assert(linked(g.stores, g.paths, g.parents, u));
    lemma_suffix_proper(g.paths[g.fail[u] as int], g.paths[u]);
    if g.fail[u] >= 1 {
        lemma_deeper_later(g, g.fail[u] as int, u);
    }
}

/// After the scan the visits of each node are its tally.
pub proof fn lemma_fold_start<S: TransitionStore>(g: Automaton<S>, t: Seq<u8>, states: Seq<int>)
    requires
        tree_ok(g),
        compiled(g),
        states.len() == t.len(),
        scanned(g.paths, t, states),
    ensures
        fold_inv(
            g,
            t,
            states,
            Seq::new(g.stores.len(), |v: int| visits(states, v)),
            g.order.len() as int,
        ),
{
    let n = g.stores.len();
    let acc = Seq::new(n, |v: int| visits(states, v));
    let range = vstd::set_lib::set_int_range(0, t.len() as int);
    vstd::set_lib::lemma_int_range(0, t.len() as int);
    assert forall|v: int| 0 <= v < n implies (#[trigger] acc[v]).finite() && acc[v].subset_of(
        occurrence_ends(g.paths[v], t),
    ) by {
        assert(acc[v].subset_of(range));
        vstd::set_lib::lemma_len_subset(acc[v], range);
        assert forall|e: int| acc[v].contains(e) implies occurrence_ends(g.paths[v], t).contains(
            e,
        ) by {
            assert(longest_suffix_node(g.paths, t.take(e + 1), states[e]));
        }
    }
    assert forall|e: int| 0 <= e < states.len() implies acc[#[trigger] states[e]].contains(e) by {
        assert(longest_suffix_node(g.paths, t.take(e + 1), states[e]));
    }
}

/// Folding the node of rank `k - 1` into its failure link: its tally is
/// complete, shares nothing with that of the link, and their sum is within
/// the text's length.
pub proof fn lemma_fold_step<S: TransitionStore>(
    g: Automaton<S>,
    t: Seq<u8>,
    states: Seq<int>,
    acc: Seq<Set<int>>,
    k: int,
)
    requires
        tree_ok(g),
        compiled(g),
        fold_inv(g, t, states, acc, k),
        k >= 1,
    ensures
        1 <= g.order[k - 1] < g.stores.len(),
        0 <= g.fail[g.order[k - 1] as int] < g.stores.len(),
        g.fail[g.order[k - 1] as int] != g.order[k - 1],
        acc[g.fail[g.order[k - 1] as int] as int].disjoint(acc[g.order[k - 1] as int]),
        (acc[g.fail[g.order[k - 1] as int] as int] + acc[g.order[k - 1] as int]).len() <= t.len(),
        fold_inv(
            g,
            t,
            states,
            acc.update(
                g.fail[g.order[k - 1] as int] as int,
                acc[g.fail[g.order[k - 1] as int] as int] + acc[g.order[k - 1] as int],
            ),
            k - 1,
        ),
{
    let n = g.stores.len();
    let u = g.order[k - 1] as int;
    let f = g.fail[u] as int;
    assert(g.rank[u] == k - 1);
    lemma_fail_shorter(g, u);
    let hu = occurrence_ends(g.paths[u], t);
    let hf = occurrence_ends(g.paths[f], t);
    // the tally of u is complete
    assert forall|e: int| hu.contains(e) implies acc[u].contains(e) by {
        let se = states[e];
        assert(longest_suffix_node(g.paths, t.take(e + 1), se));
        if se != u {
            lemma_suffix_comparable(g.paths[u], g.paths[se], t.take(e + 1));
            if g.paths[u].len() == g.paths[se].len() {
                lemma_suffix_full(g.paths[u], g.paths[se]);
            }
            let u2 = lemma_chain(g, u, se);
            lemma_suffix_trans(g.paths[u2], g.paths[se], t.take(e + 1));
            lemma_deeper_later(g, u, u2);
            assert(occurrence_ends(g.paths[u2], t).contains(e));
        }
    }
    assert(acc[u] =~= hu);
    // it shares nothing with the tally of f
    assert forall|e: int| acc[f].contains(e) implies !acc[u].contains(e) by {
        if acc[u].contains(e) {
            assert(hu.contains(e));
            if states[e] == f {
                assert(longest_suffix_node(g.paths, t.take(e + 1), f));
            } else {
                assert(fed_by(g, t, k, f, e));
                let u2 = choose|u2: int|
                    1 <= u2 < n && g.fail[u2] == f && g.rank[u2] >= k && #[trigger] occurrence_ends(
                        g.paths[u2],
                        t,
                    ).contains(e);
                lemma_fail_shorter(g, u2);
                assert(fail_ok(g.paths, g.fail, u));
                assert(fail_ok(g.paths, g.fail, u2));
                if g.paths[u2].len() <= g.paths[u].len() {
                    lemma_suffix_comparable(g.paths[u2], g.paths[u], t.take(e + 1));
                    if g.paths[u2].len() == g.paths[u].len() {
                        lemma_suffix_full(g.paths[u2], g.paths[u]);
                    }
                    lemma_suffix_proper(g.paths[u2], g.paths[u]);
                } else {
                    lemma_suffix_comparable(g.paths[u], g.paths[u2], t.take(e + 1));
                    lemma_suffix_proper(g.paths[u], g.paths[u2]);
                }
            }
        }
    }
    let sum = acc[f] + acc[u];
    let acc2 = acc.update(f, sum);
    assert forall|e: int| hu.contains(e) implies hf.contains(e) by {
        lemma_suffix_trans(g.paths[f], g.paths[u], t.take(e + 1));
    }
    let range = vstd::set_lib::set_int_range(0, t.len() as int);
    vstd::set_lib::lemma_int_range(0, t.len() as int);
    assert(sum.subset_of(hf));
    assert(hf.subset_of(range));
    assert(sum.subset_of(range));
    vstd::set_lib::lemma_len_subset(sum, range);
    assert forall|v: int| 0 <= v < n implies (#[trigger] acc2[v]).finite() && acc2[v].subset_of(
        occurrence_ends(g.paths[v], t),
    ) by {
        assert(acc[v].finite());
    }
    assert forall|v: int| 1 <= v < n && g.rank[v] >= k - 1 implies #[trigger] acc2[v]
        == occurrence_ends(g.paths[v], t) by {
        if v != u {
            assert(acc[v] == occurrence_ends(g.paths[v], t));
        }
    }
    assert forall|v: int, e: int| 0 <= v < n && #[trigger] acc2[v].contains(e) implies states[e]
        == v || fed_by(g, t, k - 1, v, e) by {
        if v == f && !acc[f].contains(e) {
            assert(hu.contains(e));
        } else {
            assert(acc[v].contains(e));
            if states[e] != v {
                assert(fed_by(g, t, k, v, e));
                let u2 = choose|u2: int|
                    1 <= u2 < n && g.fail[u2] == v && g.rank[u2] >= k && #[trigger] occurrence_ends(
                        g.paths[u2],
                        t,
                    ).contains(e);
                assert(occurrence_ends(g.paths[u2], t).contains(e));
            }
        }
    }
    assert forall|e: int| 0 <= e < states.len() implies acc2[#[trigger] states[e]].contains(
        e,
    ) by {
        assert(acc[states[e]].contains(e));
    }
    assert forall|u2: int, e: int|
        1 <= u2 < n && g.rank[u2] >= k - 1 && #[trigger] occurrence_ends(g.paths[u2], t).contains(
            e,
        ) implies acc2[g.fail[u2] as int].contains(e) by {
        if u2 != u {
            assert(acc[g.fail[u2] as int].contains(e));
        }
    }
}

/// A node is marked terminal exactly if some pattern ends in it; `owner`
/// names one such pattern for each terminal node.
pub open spec fn marks_ok(
    pattern_nodes: Seq<usize>,
    terminal: Seq<bool>,
    owner: Seq<int>,
) -> bool {
    &&& owner.len() == terminal.len()
    &&& forall|v: int| 0 <= v < terminal.len() ==> #[trigger] terminal[v] == (owner[v] >= 0)
    &&& forall|v: int|
        0 <= v < terminal.len() && #[trigger] owner[v] >= 0 ==> owner[v] < pattern_nodes.len()
            && pattern_nodes[owner[v]] == v
    &&& forall|k: int|
        0 <= k < pattern_nodes.len() ==> (#[trigger] pattern_nodes[k]) < terminal.len()
            && terminal[pattern_nodes[k] as int]
}

/// The output link of `v` is the terminal node with the longest path that
/// is a proper suffix of the path of `v`, or the root if there is none.
pub open spec fn out_ok(paths: Seq<Seq<u8>>, terminal: Seq<bool>, out: Seq<usize>, v: int) -> bool {
    let o = out[v] as int;
    &&& 0 <= o < paths.len()
    &&& is_suffix(paths[o], paths[v].drop_first())
    &&& o != 0 ==> terminal[o]
    &&& forall|x: int|
        1 <= x < paths.len() && terminal[x] && is_suffix(#[trigger] paths[x], paths[v].drop_first())
            ==> o != 0 && paths[x].len() <= paths[o].len()
}

/// The output link of a node is its failure link if that is terminal, and
/// the failure link's output link if not.
pub proof fn lemma_out_step<S: TransitionStore>(
    g: Automaton<S>,
    terminal: Seq<bool>,
    out: Seq<usize>,
    c: int,
    w: usize,
    o: usize,
)
    requires
        tree_ok(g),
        terminal.len() == g.stores.len(),
        out.len() == g.stores.len(),
        1 <= c < g.stores.len(),
        longest_suffix_node(g.paths, g.paths[c].drop_first(), w as int),
        !terminal[0],
        out[0] == 0,
        w >= 1 ==> out_ok(g.paths, terminal, out, w as int),
        o == (if terminal[w as int] {
            w
        } else {
            out[w as int]
        }),
    ensures
        out_ok(g.paths, terminal, out.update(c, o), c),
{
    let d = g.paths[c].drop_first();
    assert(g.paths[0] =~= Seq::<u8>::empty());
    lemma_suffix_refl(d);
    let w = w as int;
    if !terminal[w] && w >= 1 {
        assert(linked(g.stores, g.paths, g.parents, w));
        lemma_suffix_proper(g.paths[out[w] as int], g.paths[w]);
        lemma_suffix_trans(g.paths[out[w] as int], g.paths[w], d);
    }
    assert forall|x: int|
        1 <= x < g.paths.len() && terminal[x] && is_suffix(#[trigger] g.paths[x], d) implies o != 0
        && g.paths[x].len() <= g.paths[o as int].len() by {
        assert(linked(g.stores, g.paths, g.parents, x));
        if !terminal[w] {
            lemma_suffix_comparable(g.paths[x], g.paths[w], d);
            if g.paths[x].len() == g.paths[w].len() {
                lemma_suffix_full(g.paths[x], g.paths[w]);
            }
            lemma_suffix_proper(g.paths[x], g.paths[w]);
        }
    }
}

/// While the node at `start` is in turn, every node that is not deeper is
/// queued.
pub proof fn lemma_shallow_queued<S: TransitionStore>(g: Automaton<S>, start: int, k: int, w: int)
    requires
        bfs_inv(g, start, k),
        start < g.order.len(),
        1 <= w < g.stores.len(),
        g.paths[w].len() <= g.paths[g.order[start] as int].len(),
    ensures
        g.rank[w] >= 0,
{
    assert(linked(g.stores, g.paths, g.parents, w));
    let p = g.parents[w];
    if p >= 1 {
        assert(0 <= g.rank[p] < start);
    }
    assert(reached(g, start, k, w));
}

/// `span` is the place of an occurrence of one of the patterns in `t`.
pub open spec fn is_match(patterns: Seq<Seq<u8>>, t: Seq<u8>, span: (usize, usize)) -> bool {
    exists|k: int|
        0 <= k < patterns.len() && #[trigger] occurs_at(patterns[k], t, span.0 as int) && span.1
            == span.0 + patterns[k].len()
}

/// Span `a` comes before span `b`: it ends earlier, or ends at the same
/// place and starts earlier.
pub open spec fn span_before(a: (usize, usize), b: (usize, usize)) -> bool {
    a.1 < b.1 || (a.1 == b.1 && a.0 < b.0)
}

/// The span of `len` bytes that ends before offset `end`.
pub open spec fn span_of(len: nat, end: int) -> (usize, usize) {
    ((end - len) as usize, end as usize)
}

/// Among the terminal nodes whose path is a suffix of `t` and shorter than
/// `lim`, node `w` has the longest path; `w` is the root if there is none.
pub open spec fn next_terminal(
    paths: Seq<Seq<u8>>,
    terminal: Seq<bool>,
    t: Seq<u8>,
    lim: int,
    w: int,
) -> bool {
    &&& 0 <= w < paths.len()
    &&& w != 0 ==> terminal[w] && is_suffix(paths[w], t) && paths[w].len() < lim
    &&& forall|x: int|
        1 <= x < paths.len() && terminal[x] && is_suffix(#[trigger] paths[x], t) && paths[x].len()
            < lim ==> w != 0 && paths[x].len() <= paths[w].len()
}

/// The spans found cover every terminal node whose path ends at an offset
/// up to `upto`, and those of at least `lim` bytes that end at `upto + 1`.
pub open spec fn covered(
    paths: Seq<Seq<u8>>,
    terminal: Seq<bool>,
    t: Seq<u8>,
    found: Seq<(usize, usize)>,
    upto: int,
    lim: int,
) -> bool {
    forall|x: int, end: int|
        1 <= x < paths.len() && terminal[x] && 1 <= end <= upto + 1 && end <= t.len()
            && #[trigger] is_suffix(paths[x], t.take(end)) && (end <= upto || paths[x].len() >= lim)
            ==> found.contains(
            span_of(paths[x].len(), end),
        )
}

/// From the state after `t`, the first terminal node to report is the
/// state itself if it is terminal, and its output link if not.
pub proof fn lemma_first_terminal<S: TransitionStore>(
    g: Automaton<S>,
    terminal: Seq<bool>,
    out: Seq<usize>,
    t: Seq<u8>,
    cur: int,
    w: int,
)
    requires
        tree_ok(g),
        terminal.len() == g.stores.len(),
        out.len() == g.stores.len(),
        !terminal[0],
        out[0] == 0,
        longest_suffix_node(g.paths, t, cur),
        cur >= 1 ==> out_ok(g.paths, terminal, out, cur),
        w == (if terminal[cur] {
            cur
        } else {
            out[cur] as int
        }),
    ensures
        next_terminal(g.paths, terminal, t, t.len() as int + 1, w),
{
    if cur >= 1 && !terminal[cur] {
        assert(linked(g.stores, g.paths, g.parents, cur));
        lemma_suffix_proper(g.paths[w], g.paths[cur]);
        lemma_suffix_trans(g.paths[w], g.paths[cur], t);
    }
    assert forall|x: int|
        1 <= x < g.paths.len() && terminal[x] && is_suffix(#[trigger] g.paths[x], t)
            && g.paths[x].len() < t.len() + 1 implies w != 0 && g.paths[x].len()
        <= g.paths[w].len() by {
        assert(linked(g.stores, g.paths, g.parents, x));
        if !terminal[cur] {
            lemma_suffix_comparable(g.paths[x], g.paths[cur], t);
            if g.paths[x].len() == g.paths[cur].len() {
                lemma_suffix_full(g.paths[x], g.paths[cur]);
            }
            lemma_suffix_proper(g.paths[x], g.paths[cur]);
        }
    }
}

/// After terminal node `w` has been reported, the next one is its output
/// link.
pub proof fn lemma_next_terminal<S: TransitionStore>(
    g: Automaton<S>,
    terminal: Seq<bool>,
    out: Seq<usize>,
    t: Seq<u8>,
    lim: int,
    w: int,
)
    requires
        tree_ok(g),
        terminal.len() == g.stores.len(),
        out.len() == g.stores.len(),
        w != 0,
        next_terminal(g.paths, terminal, t, lim, w),
        out_ok(g.paths, terminal, out, w),
    ensures
        next_terminal(g.paths, terminal, t, g.paths[w].len() as int, out[w] as int),
        g.paths[out[w] as int].len() < g.paths[w].len(),
        forall|x: int|
            1 <= x < g.paths.len() && terminal[x] && is_suffix(#[trigger] g.paths[x], t)
                && g.paths[w].len() <= g.paths[x].len() < lim ==> x == w,
{
    let o = out[w] as int;
    assert(linked(g.stores, g.paths, g.parents, w));
    lemma_suffix_proper(g.paths[o], g.paths[w]);
    lemma_suffix_trans(g.paths[o], g.paths[w], t);
    assert forall|x: int|
        1 <= x < g.paths.len() && terminal[x] && is_suffix(#[trigger] g.paths[x], t)
            && g.paths[x].len() < g.paths[w].len() implies o != 0 && g.paths[x].len()
        <= g.paths[o].len() by {
        lemma_suffix_comparable(g.paths[x], g.paths[w], t);
        lemma_suffix_proper(g.paths[x], g.paths[w]);
    }
    assert forall|x: int|
        1 <= x < g.paths.len() && terminal[x] && is_suffix(#[trigger] g.paths[x], t)
            && g.paths[w].len() <= g.paths[x].len() < lim implies x == w by {
        lemma_suffix_comparable(g.paths[w], g.paths[x], t);
        lemma_suffix_full(g.paths[w], g.paths[x]);
    }
}

/// Some pattern has the index `k`.
pub open spec fn index_used(patterns: Seq<(String, u32)>, k: int) -> bool {
    exists|i: int| 0 <= i < patterns.len() && (#[trigger] patterns[i]).1 == k
}

/// The indices number the patterns, each index below their number used by
/// exactly one pattern, and no pattern is empty.
pub open spec fn indexed_ok(patterns: Seq<(String, u32)>) -> bool {
    &&& forall|i: int| 0 <= i < patterns.len() ==> (#[trigger] patterns[i]).1 < patterns.len()
    &&& forall|i: int, j: int|
        0 <= i < j < patterns.len() ==> (#[trigger] patterns[i]).1 != (#[trigger] patterns[j]).1
    &&& forall|k: int| 0 <= k < patterns.len() ==> #[trigger] index_used(patterns, k)
    &&& forall|i: int|
        0 <= i < patterns.len() ==> vstd::utf8::encode_utf8((#[trigger] patterns[i]).0@).len() > 0
}

/// In a listing whose entries before place `i` are below `k`, and whose
/// entry at `i`, if there is one, is at `hi` or above, no byte from `k` up
/// to `hi` is bound.
pub proof fn lemma_no_edge_in_gap(
    r: Seq<(u8, usize)>,
    edges: Map<u8, usize>,
    i: int,
    k: int,
    hi: int,
)
    requires
        is_listing(r, edges),
        0 <= i <= r.len(),
        forall|a: int| 0 <= a < i ==> (#[trigger] r[a]).0 < k,
        i < r.len() ==> hi <= r[i].0,
    ensures
        forall|x: u8| k <= x < hi ==> !#[trigger] edges.contains_key(x),
{
    assert forall|x: u8| k <= x < hi implies !#[trigger] edges.contains_key(x) by {
        if edges.contains_key(x) {
            assert(listed(r, x));
            let a = choose|a: int| 0 <= a < r.len() && (#[trigger] r[a]).0 == x;
            if a > i {
                assert(r[i].0 < r[a].0);
            }
        }
    }
}

/// Bytes for which the root has no binding queue no child.
pub proof fn lemma_root_skip_to<S: TransitionStore>(g: Automaton<S>, k: int, k2: int)
    requires
        root_inv(g, k),
        k <= k2 <= 256,
        forall|x: u8| k <= x < k2 ==> !#[trigger] has_edge(g.stores[0], x),
    ensures
        root_inv(g, k2),
    decreases k2 - k,
{
    if k < k2 {
        assert(!has_edge(g.stores[0], k as u8));
        lemma_root_skip(g, k);
        lemma_root_skip_to(g, k + 1, k2);
    }
}

/// Bytes for which neither the node in turn nor its failure link has a
/// binding need no work: they lead to the root.
pub proof fn lemma_bfs_skip_to<S: TransitionStore>(g: Automaton<S>, start: int, k: int, k2: int)
    requires
        bfs_inv(g, start, k),
        start < g.order.len(),
        k <= k2 <= 256,
        forall|x: u8|
            k <= x < k2 ==> !#[trigger] has_edge(g.stores[g.order[start] as int], x) && !has_edge(
                g.stores[g.fail[g.order[start] as int] as int],
                x,
            ),
    ensures
        bfs_inv(g, start, k2),
    decreases k2 - k,
{
    if k < k2 {
        let u = g.order[start] as int;
        lemma_fail_done(g, start, k);
        assert(!has_edge(g.stores[u], k as u8));
        lemma_bfs_inherit(g, start, k, g.stores[u]);
        assert(g.stores.update(u, g.stores[u]) =~= g.stores);
        assert(restored(g, u, g.stores[u]) =~= g);
        lemma_bfs_skip_to(g, start, k + 1, k2);
    }
}

/// The automaton over transition stores of kind `S`: first a trie that
/// takes patterns, then, once built, a scanner.
pub struct AhoCorasick<S: TransitionStore> {
    stores: Vec<S>,
    fail: Vec<usize>,
    depth: Vec<usize>,
    terminal: Vec<bool>,
    out: Vec<usize>,
    order: Vec<usize>,
    pattern_nodes: Vec<usize>,
    built: bool,
    paths: Ghost<Seq<Seq<u8>>>,
    parents: Ghost<Seq<int>>,
    rank: Ghost<Seq<int>>,
    owner: Ghost<Seq<int>>,
    patterns: Ghost<Seq<Seq<u8>>>,
}

impl<S: TransitionStore> AhoCorasick<S> {
    /// The patterns inserted so far, in order.
    pub closed spec fn patterns(&self) -> Seq<Seq<u8>> {
        self.patterns@
    }

    /// Whether the automaton has been compiled.
    pub closed spec fn is_built(&self) -> bool {
        self.built
    }

    /// The automaton as mathematical sequences.
    pub closed spec fn model(&self) -> Automaton<S> {
        Automaton {
            stores: self.stores@,
            fail: self.fail@,
            paths: self.paths@,
            parents: self.parents@,
            rank: self.rank@,
            order: self.order@,
        }
    }

    spec fn wf_core(&self) -> bool {
        &&& tree_ok(self.model())
        &&& labels_ok(self.paths@, self.depth@, self.pattern_nodes@, self.patterns@)
        &&& marks_ok(self.pattern_nodes@, self.terminal@, self.owner@)
        &&& self.terminal@.len() == self.stores@.len()
        &&& self.out@.len() == self.stores@.len()
        &&& self.fail@[0] == 0
    }

    /// The automaton's invariant: a trie of the inserted patterns, and, once
    /// built, transitions and failure links that lead to longest suffixes.
    pub closed spec fn wf(&self) -> bool {
        let n = self.stores@.len();
        &&& self.wf_core()
        &&& !self.built ==> self.order@.len() == 0 && (forall|v: int|
            0 <= v < n ==> #[trigger] raw_from(self.stores@[v], self.paths@, v, 0)) && (forall|
            v: int,
        | 0 <= v < n ==> #[trigger] self.rank@[v] == -1)
        &&& self.built ==> compiled(self.model()) && self.out@[0] == 0 && forall|v: int|
            1 <= v < n ==> #[trigger] out_ok(self.paths@, self.terminal@, self.out@, v)
    }

    /// The number of nodes; node 0 is the root.
    pub closed spec fn node_count(&self) -> nat {
        self.stores@.len()
    }

    /// The bytes on the way from the root to node `v`.
    pub closed spec fn path_of(&self, v: int) -> Seq<u8> {
        self.paths@[v]
    }

    /// The failure link of node `v`.
    pub closed spec fn fail_of(&self, v: int) -> int {
        self.fail@[v] as int
    }

    /// The node that `v` leads to on byte `b`.
    pub closed spec fn next_of(&self, v: int, b: u8) -> int {
        target_of(self.stores@[v], b)
    }

    /// The place of node `v` in the order of discovery; -1 for the root.
    pub closed spec fn rank_of(&self, v: int) -> int {
        self.rank@[v]
    }

    /// The root has the empty path and is its own failure link, and no
    /// other node has the path of another.
    pub proof fn lemma_nodes(&self, v: int, w: int)
        requires
            self.wf(),
            0 <= v < self.node_count(),
            0 <= w < self.node_count(),
        ensures
            self.path_of(0) == Seq::<u8>::empty(),
            self.fail_of(0) == 0,
            self.path_of(v) == self.path_of(w) ==> v == w,
    {
        assert(self.paths@[0] =~= Seq::<u8>::empty());
    }

    /// Every pattern is the path of a node.
    pub proof fn lemma_pattern_is_path(&self, k: int) -> (v: int)
        requires
            self.wf(),
            0 <= k < self.patterns().len(),
        ensures
            1 <= v < self.node_count(),
            self.path_of(v) == self.patterns()[k],
    {
        self.pattern_nodes@[k] as int
    }

    /// In a built automaton every node has a transition for every byte: to
    /// the node with the longest path that is a suffix of the node's path
    /// extended by the byte, which is where following failure links would
    /// lead.
    pub proof fn lemma_transition(&self, v: int, b: u8)
        requires
            self.wf(),
            self.is_built(),
            0 <= v < self.node_count(),
        ensures
            0 <= self.next_of(v, b) < self.node_count(),
            is_suffix(self.path_of(self.next_of(v, b)), self.path_of(v).push(b)),
            forall|x: int|
                0 <= x < self.node_count() && is_suffix(
                    #[trigger] self.path_of(x),
                    self.path_of(v).push(b),
                ) ==> self.path_of(x).len() <= self.path_of(self.next_of(v, b)).len(),
    {
        assert(full_row_upto(self.stores@[v], self.paths@, v, 256));
        assert(longest_suffix_node(
            self.paths@,
            self.paths@[v].push(b),
            target_of(self.stores@[v], b),
        ));
    }

    /// In a built automaton the failure link of a node other than the root
    /// is the node with the longest path that is a proper suffix of the
    /// node's path; it is less deep and was discovered earlier.
    pub proof fn lemma_failure_link(&self, v: int)
        requires
            self.wf(),
            self.is_built(),
            1 <= v < self.node_count(),
        ensures
            0 <= self.fail_of(v) < self.node_count(),
            is_suffix(self.path_of(self.fail_of(v)), self.path_of(v)),
            self.path_of(self.fail_of(v)).len() < self.path_of(v).len(),
            self.rank_of(self.fail_of(v)) < self.rank_of(v),
            forall|x: int|
                0 <= x < self.node_count() && is_suffix(#[trigger] self.path_of(x), self.path_of(v))
                    && self.path_of(x).len() < self.path_of(v).len() ==> self.path_of(x).len()
                    <= self.path_of(self.fail_of(v)).len(),
    {
        let g = self.model();
        lemma_fail_shorter(g, v);
        assert(fail_ok(g.paths, g.fail, v));
        assert forall|x: int|
            0 <= x < self.node_count() && is_suffix(#[trigger] self.path_of(x), self.path_of(v))
                && self.path_of(x).len() < self.path_of(v).len() implies self.path_of(x).len()
            <= self.path_of(self.fail_of(v)).len() by {
            lemma_suffix_proper(self.paths@[x], self.paths@[v]);
        }
    }

    /// In a built automaton the nodes other than the root are discovered
    /// each once, shallower nodes first.
    pub proof fn lemma_discovery(&self, v: int, w: int)
        requires
            self.wf(),
            self.is_built(),
            1 <= v < self.node_count(),
            1 <= w < self.node_count(),
        ensures
            0 <= self.rank_of(v) < self.node_count() - 1,
            self.rank_of(v) == self.rank_of(w) ==> v == w,
            self.path_of(v).len() < self.path_of(w).len() ==> self.rank_of(v) < self.rank_of(w),
    {
        let g = self.model();
        lemma_queue_bound(g);
        if g.paths[v].len() < g.paths[w].len() {
            lemma_deeper_later(g, v, w);
        }
        assert(g.order[g.rank[v]] == v);
        assert(g.order[g.rank[w]] == w);
    }

    /// Whether the automaton has been compiled, and so scans texts and
    /// takes no more patterns.
    pub fn ready(&self) -> (b: bool)
        ensures
            b == self.is_built(),
    {
        self.built
    }

    /// The number of patterns inserted.
    pub fn num_patterns(&self) -> (k: usize)
        requires
            self.wf(),
        ensures
            k == self.patterns().len(),
    {
        self.pattern_nodes.len()
    }

    /// An automaton without patterns, not yet built.
    pub fn new() -> (ac: Self)
        ensures
            ac.wf(),
            !ac.is_built(),
            ac.patterns() == Seq::<Seq<u8>>::empty(),
    {
        let mut stores: Vec<S> = Vec::new();
        stores.push(S::new());
        let mut fail: Vec<usize> = Vec::new();
        fail.push(0);
        let mut depth: Vec<usize> = Vec::new();
        depth.push(0);
        let mut terminal: Vec<bool> = Vec::new();
        terminal.push(false);
        let mut out: Vec<usize> = Vec::new();
        out.push(0);
        let ghost owner = Seq::<int>::empty().push(-1int);
        let ghost paths = Seq::<Seq<u8>>::empty().push(Seq::<u8>::empty());
        let ghost parents = Seq::<int>::empty().push(0int);
        let ghost rank = Seq::<int>::empty().push(-1int);
        let ac = AhoCorasick {
            stores,
            fail,
            depth,
            terminal,
            out,
            order: Vec::new(),
            pattern_nodes: Vec::new(),
            built: false,
            paths: Ghost(paths),
            parents: Ghost(parents),
            rank: Ghost(rank),
            owner: Ghost(owner),
            patterns: Ghost(Seq::<Seq<u8>>::empty()),
        };
        assert(raw_from(ac.stores@[0], ac.paths@, 0, 0));
        ac
    }

    /// As `new`, with room reserved for `num_patterns` patterns.
    pub fn with_num_patterns(num_patterns: usize) -> (ac: Self)
        ensures
            ac.wf(),
            !ac.is_built(),
            ac.patterns() == Seq::<Seq<u8>>::empty(),
    {
        let mut ac = Self::new();
        let ghost fresh = ac;
        ac.pattern_nodes = Vec::with_capacity(num_patterns);
        assert(raw_from(fresh.stores@[0], fresh.paths@, 0, 0));
        assert(raw_from(ac.stores@[0], ac.paths@, 0, 0));
        ac
    }

    /// Hangs a new node below `cur` by byte `b`.
    fn add_child(&mut self, cur: usize, b: u8) -> (c: usize)
        requires
            old(self).wf(),
            !old(self).built,
            cur < old(self).stores@.len(),
            !has_edge(old(self).stores@[cur as int], b),
            old(self).depth@[cur as int] < usize::MAX,
        ensures
            final(self).wf(),
            !final(self).built,
            c == old(self).stores@.len(),
            final(self).paths@ == old(self).paths@.push(old(self).paths@[cur as int].push(b)),
            final(self).patterns@ == old(self).patterns@,
            final(self).pattern_nodes@ == old(self).pattern_nodes@,
    {
        let c = self.stores.len();
        let d = self.depth[cur] + 1;
        self.stores.push(S::new());
        self.fail.push(0);
        self.depth.push(d);
        self.terminal.push(false);
        self.out.push(0);
        self.owner = Ghost(self.owner@.push(-1int));
        let ghost path = self.paths@[cur as int].push(b);
        self.paths = Ghost(self.paths@.push(path));
        self.parents = Ghost(self.parents@.push(cur as int));
        self.rank = Ghost(self.rank@.push(-1int));
        self.stores[cur].set(b, c);
        proof {
            let n = c + 1;
            assert(path.drop_last() =~= old(self).paths@[cur as int]);
            assert forall|v: int, x: u8| 0 <= v < n implies (#[trigger] has_edge(self.stores@[v], x) <==> (
            v < c && has_edge(old(self).stores@[v], x)) || (v == cur && x == b)) by {}
            assert forall|v: int, x: u8| 0 <= v < n && #[trigger] has_edge(self.stores@[v], x) implies 0
                < target_of(self.stores@[v], x) < n && self.paths@[target_of(self.stores@[v], x)] == self.paths@[v].push(
                x,
            ) by {
                if v == cur && x == b {
                } else {
                    assert(has_edge(old(self).stores@[v], x));
                    assert(raw_from(old(self).stores@[v], old(self).paths@, v, 0));
                }
            }
            assert forall|v: int| 1 <= v < n implies #[trigger] linked(self.stores@, self.paths@, self.parents@, v) by {
                if v < c {
                    assert(linked(old(self).stores@, old(self).paths@, old(self).parents@, v));
                }
            }
            assert forall|v: int, w: int|
                0 <= v < n && 0 <= w < n && #[trigger] self.paths@[v]
                    == #[trigger] self.paths@[w] implies v == w by {
                if v != w {
                    let (x, y) = if v == c {
                        (v, w)
                    } else {
                        (w, v)
                    };
                    if x == c {
                        assert(y != 0);
                        assert(linked(old(self).stores@, old(self).paths@, old(self).parents@, y));
                        assert(old(self).paths@[old(self).parents@[y]] == old(self).paths@[cur as int]);
                    }
                }
            }
            assert forall|v: int| 0 <= v < n implies #[trigger] raw_from(self.stores@[v], self.paths@, v, 0) by {}
            assert forall|v: int| 0 <= v < n implies #[trigger] self.depth@[v] == self.paths@[v].len() by {
                if v < c {
                    assert(old(self).depth@[v] == old(self).paths@[v].len());
                }
            }
            assert forall|k: int| 0 <= k < self.patterns@.len() implies (#[trigger] self.pattern_nodes@[k]) < n
                && self.paths@[self.pattern_nodes@[k] as int] == self.patterns@[k]
                && self.patterns@[k].len() > 0 by {
                assert(old(self).pattern_nodes@[k] < c);
            }
        }
        c
    }

    /// Inserts `pattern` and returns its index, or refuses the empty
    /// pattern and returns `None`.
    pub fn add_pattern(&mut self, pattern: &str) -> (r: Option<usize>)
        requires
            old(self).wf(),
            !old(self).is_built(),
        ensures
            final(self).wf(),
            !final(self).is_built(),
            match r {
                None => pattern.spec_bytes().len() == 0 && final(self).patterns() == old(
                    self,
                ).patterns(),
                Some(k) => pattern.spec_bytes().len() > 0 && k == old(self).patterns().len()
                    && final(self).patterns() == old(self).patterns().push(pattern.spec_bytes()),
            },
    {
        let bytes = pattern.as_bytes();
        let len = bytes.len();
        if len == 0 {
            return None;
        }
        let mut cur: usize = 0;
        let mut i: usize = 0;
        proof {
            assert(bytes@.take(0) =~= self.paths@[0]);
        }
        while i < len
            invariant
                self.wf(),
                !self.built,
                len == bytes@.len(),
                i <= len,
                cur < self.stores@.len(),
                self.paths@[cur as int] == bytes@.take(i as int),
                self.patterns@ == old(self).patterns@,
                self.pattern_nodes@ == old(self).pattern_nodes@,
            decreases len - i,
        {
            let b = bytes[i];
            proof {
                assert(bytes@.take(i + 1) =~= bytes@.take(i as int).push(b));
            }
            match self.stores[cur].get(b) {
                Some(c) => {
                    proof {
                        assert(has_edge(self.stores@[cur as int], b));
                        assert(raw_from(self.stores@[cur as int], self.paths@, cur as int, 0));
                    }
                    cur = c;
                },
                None => {
                    cur = self.add_child(cur, b);
                },
            }
            i += 1;
        }
        let k = self.pattern_nodes.len();
        let ghost trie = *self;
        self.pattern_nodes.push(cur);
        if !self.terminal[cur] {
            self.terminal[cur] = true;
            proof {
                self.owner@ = self.owner@.update(cur as int, k as int);
            }
        }
        proof {
            assert(bytes@.take(len as int) =~= bytes@);
            self.patterns@ = self.patterns@.push(bytes@);
            assert forall|v: int| 0 <= v < self.stores@.len() implies #[trigger] raw_from(self.stores@[v], self.paths@, v, 0) by {
                assert(raw_from(trie.stores@[v], trie.paths@, v, 0));
            }
            assert(marks_ok(trie.pattern_nodes@, trie.terminal@, trie.owner@));
            assert forall|v: int|
                0 <= v < self.terminal@.len() && #[trigger] self.owner@[v] >= 0 implies self.owner@[v]
                < self.pattern_nodes@.len() && self.pattern_nodes@[self.owner@[v]] == v by {
                if trie.owner@[v] >= 0 {
                    assert(trie.pattern_nodes@[trie.owner@[v]] == v);
                }
            }
            assert forall|j: int| 0 <= j < self.pattern_nodes@.len() implies (
            #[trigger] self.pattern_nodes@[j]) < self.terminal@.len()
                && self.terminal@[self.pattern_nodes@[j] as int] by {
                if j < k {
                    assert(trie.terminal@[trie.pattern_nodes@[j] as int]);
                }
            }
        }
        Some(k)
    }

    /// What compiling leaves as it was, and what holds of the output links
    /// of the nodes queued so far.
    spec fn build_frame(&self, before: Self) -> bool {
        &&& !self.built
        &&& self.paths@ == before.paths@
        &&& self.depth@ == before.depth@
        &&& self.pattern_nodes@ == before.pattern_nodes@
        &&& self.patterns@ == before.patterns@
        &&& self.terminal@ == before.terminal@
        &&& self.owner@ == before.owner@
        &&& self.out@.len() == self.stores@.len()
        &&& self.terminal@.len() == self.stores@.len()
        &&& self.fail@.len() == self.stores@.len()
        &&& self.rank@.len() == self.stores@.len()
        &&& self.paths@.len() == self.stores@.len()
        &&& self.out@[0] == 0
        &&& self.fail@[0] == 0
        &&& !self.terminal@[0]
        &&& forall|v: int|
            1 <= v < self.stores@.len() && self.rank@[v] >= 0 ==> #[trigger] out_ok(
                self.paths@,
                self.terminal@,
                self.out@,
                v,
            )
    }

    /// Queues node `c` with the failure link `w`, and gives it its output
    /// link.
    fn enqueue(&mut self, c: usize, w: usize, Ghost(before): Ghost<Self>)
        requires
            old(self).build_frame(before),
            tree_ok(old(self).model()),
            1 <= c < old(self).stores@.len(),
            w < old(self).stores@.len(),
            old(self).rank@[c as int] == -1,
            longest_suffix_node(old(self).paths@, old(self).paths@[c as int].drop_first(), w as int),
            w >= 1 ==> old(self).rank@[w as int] >= 0,
        ensures
            final(self).build_frame(before),
            final(self).model() == enqueued(old(self).model(), c as int, w),
    {
        let ghost g = self.model();
        let ghost outs = self.out@;
        let o = if self.terminal[w] {
            w
        } else {
            self.out[w]
        };
        self.fail[c] = w;
        self.out[c] = o;
        self.order.push(c);
        proof {
            self.rank@ = self.rank@.update(c as int, g.order.len() as int);
            assert(self.model() =~= enqueued(g, c as int, w));
            if w >= 1 {
                assert(out_ok(self.paths@, self.terminal@, outs, w as int));
            }
            lemma_out_step(g, self.terminal@, outs, c as int, w, o);
            assert forall|v: int|
                1 <= v < self.stores@.len() && self.rank@[v] >= 0 implies #[trigger] out_ok(
                self.paths@,
                self.terminal@,
                self.out@,
                v,
            ) by {
                if v != c {
                    assert(out_ok(self.paths@, self.terminal@, outs, v));
                }
            }
        }
    }

    /// Compiles the trie: breadth-first, every node gets its failure link
    /// and, by merging its own bindings with those of its failure link in
    /// the order of the bytes, a transition for every byte. Patterns cannot
    /// be added afterwards.
    pub fn build(&mut self)
        requires
            old(self).wf(),
            !old(self).is_built(),
        ensures
            final(self).wf(),
            final(self).is_built(),
            final(self).patterns() == old(self).patterns(),
    {
        self.out[0] = 0;
        let ghost before = *self;
        proof {
            lemma_root_start(self.model());
            if self.terminal@[0] {
                assert(self.owner@[0] >= 0);
                assert(self.pattern_nodes@[self.owner@[0]] == 0);
            }
        }
        let kids = self.stores[0].children();
        let ghost mut k: int = 0;
        let mut i: usize = 0;
        while i < kids.len()
            invariant
                self.build_frame(before),
                root_inv(self.model(), k),
                is_listing(kids@, self.stores@[0].edges()),
                i <= kids@.len(),
                0 <= k <= 256,
                forall|a: int| 0 <= a < i ==> (#[trigger] kids@[a]).0 < k,
                forall|a: int| i <= a < kids@.len() ==> (#[trigger] kids@[a]).0 >= k,
            decreases kids@.len() - i,
        {
            let b = kids[i].0;
            let c = kids[i].1;
            let ghost g = self.model();
            proof {
                lemma_no_edge_in_gap(kids@, g.stores[0].edges(), i as int, k, b as int);
                lemma_root_skip_to(g, k, b as int);
                assert(has_edge(g.stores[0], b));
                lemma_root_step(g, b as int, c as int);
            }
            self.enqueue(c, 0, Ghost(before));
            proof {
                k = b + 1;
            }
            i += 1;
        }
        proof {
            let g = self.model();
            lemma_no_edge_in_gap(kids@, g.stores[0].edges(), i as int, k, 256);
            lemma_root_skip_to(g, k, 256);
            lemma_root_done(g);
        }
        let mut start: usize = 0;
        while start < self.order.len()
            invariant
                self.build_frame(before),
                bfs_inv(self.model(), start as int, 0),
            decreases self.paths@.len() - start,
        {
            let u = self.order[start];
            let f = self.fail[u];
            proof {
                lemma_fail_done(self.model(), start as int, 0);
            }
            let own = self.stores[u].children();
            let from = self.stores[f].children();
            let ghost raw = self.stores@[u as int];
            let ghost donor = self.stores@[f as int];
            let ghost mut k: int = 0;
            let mut i: usize = 0;
            let mut j: usize = 0;
            while i < own.len() || j < from.len()
                invariant
                    self.build_frame(before),
                    bfs_inv(self.model(), start as int, k),
                    0 <= k <= 256,
                    start < self.order@.len(),
                    u == self.order@[start as int],
                    f == self.fail@[u as int],
                    1 <= u < self.stores@.len(),
                    f < self.stores@.len(),
                    f != u,
                    self.stores@[f as int] == donor,
                    is_listing(own@, raw.edges()),
                    is_listing(from@, donor.edges()),
                    i <= own@.len(),
                    j <= from@.len(),
                    forall|a: int| 0 <= a < i ==> (#[trigger] own@[a]).0 < k,
                    forall|a: int| 0 <= a < j ==> (#[trigger] from@[a]).0 < k,
                    forall|a: int| i <= a < own@.len() ==> (#[trigger] own@[a]).0 >= k,
                    forall|a: int| j <= a < from@.len() ==> (#[trigger] from@[a]).0 >= k,
                    forall|x: u8|
                        x >= k ==> #[trigger] has_edge(self.stores@[u as int], x) == has_edge(raw, x)
                            && target_of(self.stores@[u as int], x) == target_of(raw, x),
                decreases (own@.len() - i) + (from@.len() - j),
            {
                let ghost g = self.model();
                let own_first = i < own.len() && (j >= from.len() || own[i].0 <= from[j].0);
                if own_first {
                    let b = own[i].0;
                    let c = own[i].1;
                    let matched = j < from.len() && from[j].0 == b;
                    let w = if matched {
                        from[j].1
                    } else {
                        0
                    };
                    proof {
                        lemma_no_edge_in_gap(own@, raw.edges(), i as int, k, b as int);
                        lemma_no_edge_in_gap(from@, donor.edges(), j as int, k, b as int);
                        assert forall|x: u8| k <= x < b implies !has_edge(g.stores[u as int], x)
                            && !has_edge(g.stores[f as int], x) by {
                            assert(has_edge(g.stores[u as int], x) == has_edge(raw, x));
                        }
                        lemma_bfs_skip_to(g, start as int, k, b as int);
                        assert(has_edge(raw, b));
                        assert(has_edge(g.stores[u as int], b) == has_edge(raw, b));
                        if !matched {
                            lemma_no_edge_in_gap(
                                from@,
                                donor.edges(),
                                j as int,
                                k,
                                b + 1,
                            );
                        }
                        lemma_bfs_edge(g, start as int, b as int, c as int, w);
                        if w >= 1 {
                            lemma_shallow_queued(g, start as int, b as int, w as int);
                        }
                    }
                    self.enqueue(c, w, Ghost(before));
                    i += 1;
                    if matched {
                        j += 1;
                    }
                    proof {
                        assert(self.stores@ == g.stores);
                        assert forall|x: u8| x >= b + 1 implies #[trigger] has_edge(
                            self.stores@[u as int],
                            x,
                        ) == has_edge(raw, x) && target_of(self.stores@[u as int], x) == target_of(
                            raw,
                            x,
                        ) by {
                            assert(has_edge(g.stores[u as int], x) == has_edge(raw, x));
                        }
                        k = b + 1;
                    }
                } else {
                    let b = from[j].0;
                    let t = from[j].1;
                    proof {
                        lemma_no_edge_in_gap(own@, raw.edges(), i as int, k, b + 1);
                        lemma_no_edge_in_gap(from@, donor.edges(), j as int, k, b as int);
                        assert forall|x: u8| k <= x < b implies !has_edge(g.stores[u as int], x)
                            && !has_edge(g.stores[f as int], x) by {
                            assert(has_edge(g.stores[u as int], x) == has_edge(raw, x));
                        }
                        lemma_bfs_skip_to(g, start as int, k, b as int);
                        assert(has_edge(g.stores[u as int], b) == has_edge(raw, b));
                        assert(has_edge(donor, b));
                    }
                    self.stores[u].set(b, t);
                    proof {
                        lemma_bfs_inherit(g, start as int, b as int, self.stores@[u as int]);
                        assert(self.stores@ =~= g.stores.update(u as int, self.stores@[u as int]));
                        assert(self.model() =~= restored(g, u as int, self.stores@[u as int]));
                        assert forall|x: u8| x >= b + 1 implies #[trigger] has_edge(
                            self.stores@[u as int],
                            x,
                        ) == has_edge(raw, x) && target_of(self.stores@[u as int], x) == target_of(
                            raw,
                            x,
                        ) by {
                            assert(has_edge(g.stores[u as int], x) == has_edge(raw, x));
                        }
                        k = b + 1;
                    }
                    j += 1;
                }
            }
            proof {
                let g = self.model();
                lemma_no_edge_in_gap(own@, raw.edges(), i as int, k, 256);
                lemma_no_edge_in_gap(from@, donor.edges(), j as int, k, 256);
                assert forall|x: u8| k <= x < 256 implies !has_edge(g.stores[u as int], x)
                    && !has_edge(g.stores[f as int], x) by {
                    assert(has_edge(g.stores[u as int], x) == has_edge(raw, x));
                }
                lemma_bfs_skip_to(g, start as int, k, 256);
                lemma_bfs_next(g, start as int);
                assert(self.order@.len() <= self.paths@.len()) by {
                    lemma_queue_bound(g);
                }
            }
            start += 1;
        }
        proof {
            lemma_bfs_done(self.model());
        }
        self.built = true;
    }

    /// Walks the automaton over `bytes` and tallies, for every node, the
    /// positions at which the walk was in it.
    fn scan(&self, bytes: &[u8]) -> (r: (Vec<u64>, Ghost<Seq<int>>))
        requires
            self.wf(),
            self.built,
        ensures
            r.0@.len() == self.stores@.len(),
            r.1@.len() == bytes@.len(),
            scanned(self.paths@, bytes@, r.1@),
            forall|v: int|
                0 <= v < self.stores@.len() ==> (#[trigger] r.0@[v]) == visits(r.1@, v).len(),
    {
        let n = bytes.len();
        let nodes = self.stores.len();
        let ghost g = self.model();
        let ghost t = bytes@;
        let mut ans: Vec<u64> = Vec::with_capacity(nodes);
        let mut v: usize = 0;
        while v < nodes
            invariant
                v <= nodes,
                ans@.len() == v,
                forall|x: int| 0 <= x < v ==> ans@[x] == 0,
            decreases nodes - v,
        {
            ans.push(0);
            v += 1;
        }
        let ghost mut states: Seq<int> = Seq::empty();
        let mut cur: usize = 0;
        let mut i: usize = 0;
        proof {
            assert(t.take(0) =~= Seq::<u8>::empty());
            lemma_suffix_refl(Seq::<u8>::empty());
            assert(g.paths[0] =~= Seq::<u8>::empty());
            assert forall|x: int| 0 <= x < nodes implies (#[trigger] ans@[x]) == visits(
                states,
                x,
            ).len() by {
                assert(visits(states, x) =~= Set::<int>::empty());
            }
        }
        while i < n
            invariant
                self.wf(),
                self.built,
                g == self.model(),
                t == bytes@,
                n == t.len(),
                nodes == self.stores@.len(),
                i <= n,
                cur < nodes,
                ans@.len() == nodes,
                states.len() == i,
                longest_suffix_node(self.paths@, t.take(i as int), cur as int),
                scanned(self.paths@, t, states),
                forall|x: int| 0 <= x < nodes ==> (#[trigger] ans@[x]) == visits(states, x).len(),
            decreases n - i,
        {
            let b = bytes[i];
            let next = match self.stores[cur].get(b) {
                Some(w) => w,
                None => 0,
            };
            proof {
                assert(full_row_upto(g.stores[cur as int], g.paths, cur as int, 256));
                assert(longest_suffix_node(
                    g.paths,
                    g.paths[cur as int].push(b),
                    target_of(g.stores[cur as int], b),
                ));
                lemma_step(g, t.take(i as int), cur as int, b, next as int);
                assert(t.take(i + 1) =~= t.take(i as int).push(b));
                lemma_visits_bound(states, next as int);
            }
            let ghost before = states;
            let ghost tally = ans@;
            ans[next] = ans[next] + 1;
            proof {
                states = states.push(next as int);
                assert forall|x: int| 0 <= x < nodes implies (#[trigger] ans@[x]) == visits(
                    states,
                    x,
                ).len() by {
                    assert(tally[x] == visits(before, x).len());
                    lemma_visits_bound(before, x);
                    if x == next {
                        assert(visits(states, x) =~= visits(before, x).insert(i as int));
                    } else {
                        assert(visits(states, x) =~= visits(before, x));
                    }
                }
            }
            cur = next;
            i += 1;
        }
        (ans, Ghost(states))
    }

    /// How often each pattern occurs in `text`, overlapping occurrences
    /// included; one count per pattern, in the order of insertion.
    pub fn get_pattern_counts(&self, text: &str) -> (counts: Vec<u64>)
        requires
            self.wf(),
            self.is_built(),
        ensures
            counts@.len() == self.patterns().len(),
            forall|k: int|
                0 <= k < counts@.len() ==> (#[trigger] counts@[k]) == occurrences(
                    self.patterns()[k],
                    text.spec_bytes(),
                ),
            forall|a: int, b: int|
                0 <= a < counts@.len() && 0 <= b < counts@.len() && self.patterns()[a]
                    == self.patterns()[b] ==> #[trigger] counts@[a] == #[trigger] counts@[b],
            forall|k: int|
                0 <= k < counts@.len() && (self.patterns()[k].len() > text.spec_bytes().len()
                    || never_occurs(self.patterns()[k], text.spec_bytes())) ==> #[trigger] counts@[k]
                    == 0,
            text.spec_bytes().len() == 0 ==> forall|k: int|
                0 <= k < counts@.len() ==> #[trigger] counts@[k] == 0,
    {
        let bytes = text.as_bytes();
        let n = bytes.len();
        let (mut ans, Ghost(states)) = self.scan(bytes);
        let ghost g = self.model();
        let ghost t = bytes@;
        let nodes = self.stores.len();
        let ghost mut acc: Seq<Set<int>> = Seq::new(nodes as nat, |v: int| visits(states, v));
        proof {
            lemma_fold_start(g, t, states);
        }
        let mut k: usize = self.order.len();
        while k > 0
            invariant
                self.wf(),
                self.built,
                g == self.model(),
                nodes == self.stores@.len(),
                ans@.len() == nodes,
                k <= self.order@.len(),
                n == t.len(),
                fold_inv(g, t, states, acc, k as int),
                forall|v: int| 0 <= v < nodes ==> (#[trigger] ans@[v]) == acc[v].len(),
            decreases k,
        {
            let u = self.order[k - 1];
            let f = self.fail[u];
            proof {
                lemma_fold_step(g, t, states, acc, k as int);
                vstd::set_lib::lemma_set_disjoint_lens(acc[f as int], acc[u as int]);
            }
            ans[f] = ans[f] + ans[u];
            proof {
                acc = acc.update(f as int, acc[f as int] + acc[u as int]);
            }
            k -= 1;
        }
        let count = self.pattern_nodes.len();
        let mut counts: Vec<u64> = Vec::with_capacity(count);
        let mut j: usize = 0;
        while j < count
            invariant
                self.wf(),
                self.built,
                g == self.model(),
                nodes == self.stores@.len(),
                ans@.len() == nodes,
                count == self.pattern_nodes@.len(),
                j <= count,
                counts@.len() == j,
                fold_inv(g, t, states, acc, 0),
                forall|v: int| 0 <= v < nodes ==> (#[trigger] ans@[v]) == acc[v].len(),
                forall|x: int|
                    0 <= x < j ==> (#[trigger] counts@[x]) == occurrences(self.patterns@[x], t),
            decreases count - j,
        {
            let node = self.pattern_nodes[j];
            proof {
                assert(self.paths@[node as int] == self.patterns@[j as int]);
                assert(node >= 1);
                assert(g.rank[node as int] >= 0);
                assert(acc[node as int] == occurrence_ends(g.paths[node as int], t));
                lemma_count_by_ends(self.patterns@[j as int], t);
            }
            counts.push(ans[node]);
            j += 1;
        }
        proof {
            assert forall|k: int|
                0 <= k < counts@.len() && (self.patterns@[k].len() > t.len() || never_occurs(
                    self.patterns@[k],
                    t,
                )) implies #[trigger] counts@[k] == 0 by {
                if self.patterns@[k].len() > t.len() {
                    lemma_longer_pattern(self.patterns@[k], t);
                } else {
                    lemma_absent_pattern(self.patterns@[k], t);
                }
            }
            assert forall|k: int| 0 <= k < counts@.len() implies self.patterns@[k].len() > 0 by {
                assert(self.pattern_nodes@[k] < self.stores@.len());
            }
        }
        counts
    }

    /// The place `(start, end)` of every occurrence of a pattern in
    /// `text`, as byte offsets with `end` exclusive: ordered by end and
    /// then by start, each place once.
    pub fn find_matches(&self, text: &str) -> (found: Vec<(usize, usize)>)
        requires
            self.wf(),
            self.is_built(),
        ensures
            forall|j: int|
                0 <= j < found@.len() ==> is_match(
                    self.patterns(),
                    text.spec_bytes(),
                    #[trigger] found@[j],
                ),
            forall|k: int, s: int|
                0 <= k < self.patterns().len() && #[trigger] occurs_at(
                    self.patterns()[k],
                    text.spec_bytes(),
                    s,
                ) ==> found@.contains(span_of(self.patterns()[k].len(), s + self.patterns()[k].len())),
            forall|a: int, b: int|
                0 <= a < b < found@.len() ==> span_before(#[trigger] found@[a], #[trigger] found@[b]),
            self.patterns().len() == 0 ==> found@.len() == 0,
    {
        let bytes = text.as_bytes();
        let n = bytes.len();
        let ghost g = self.model();
        let ghost t = bytes@;
        let ghost paths = self.paths@;
        let ghost terminal = self.terminal@;
        let mut found: Vec<(usize, usize)> = Vec::new();
        let mut cur: usize = 0;
        let mut i: usize = 0;
        proof {
            assert(t.take(0) =~= Seq::<u8>::empty());
            lemma_suffix_refl(Seq::<u8>::empty());
            assert(g.paths[0] =~= Seq::<u8>::empty());
            if terminal[0] {
                assert(self.owner@[0] >= 0);
                assert(self.pattern_nodes@[self.owner@[0]] == 0);
            }
        }
        while i < n
            invariant
                self.wf(),
                self.built,
                g == self.model(),
                t == bytes@,
                paths == self.paths@,
                terminal == self.terminal@,
                !terminal[0],
                n == t.len(),
                i <= n,
                cur < self.stores@.len(),
                longest_suffix_node(paths, t.take(i as int), cur as int),
                covered(paths, terminal, t, found@, i as int, i + 2),
                forall|j: int| 0 <= j < found@.len() ==> (#[trigger] found@[j]).1 <= i,
                forall|j: int|
                    0 <= j < found@.len() ==> is_match(self.patterns@, t, #[trigger] found@[j]),
                forall|a: int, b: int|
                    0 <= a < b < found@.len() ==> span_before(
                        #[trigger] found@[a],
                        #[trigger] found@[b],
                    ),
            decreases n - i,
        {
            let b = bytes[i];
            let next = match self.stores[cur].get(b) {
                Some(w) => w,
                None => 0,
            };
            let ghost head = t.take(i + 1);
            proof {
                assert(full_row_upto(g.stores[cur as int], g.paths, cur as int, 256));
                assert(longest_suffix_node(
                    g.paths,
                    g.paths[cur as int].push(b),
                    target_of(g.stores[cur as int], b),
                ));
                lemma_step(g, t.take(i as int), cur as int, b, next as int);
                assert(head =~= t.take(i as int).push(b));
            }
            cur = next;
            let mut w: usize = if self.terminal[cur] {
                cur
            } else {
                self.out[cur]
            };
            let ghost mut lim: int = i + 2;
            proof {
                lemma_first_terminal(g, terminal, self.out@, head, cur as int, w as int);
            }
            while w != 0
                invariant
                    self.wf(),
                    self.built,
                    g == self.model(),
                    paths == self.paths@,
                    terminal == self.terminal@,
                    !terminal[0],
                    n == t.len(),
                    i < n,
                    head == t.take(i + 1),
                    1 <= lim <= i + 2,
                    next_terminal(paths, terminal, head, lim, w as int),
                    covered(paths, terminal, t, found@, i as int, lim),
                    forall|j: int|
                        0 <= j < found@.len() ==> (#[trigger] found@[j]).1 <= i + 1 && (found@[j].1
                            == i + 1 ==> found@[j].0 + lim <= i + 1),
                    forall|j: int|
                        0 <= j < found@.len() ==> is_match(self.patterns@, t, #[trigger] found@[j]),
                    forall|a: int, b: int|
                        0 <= a < b < found@.len() ==> span_before(
                            #[trigger] found@[a],
                            #[trigger] found@[b],
                        ),
                decreases paths[w as int].len(),
            {
                let d = self.depth[w];
                let ghost before = found@;
                let span = (i + 1 - d, i + 1);
                proof {
                    assert(out_ok(paths, terminal, self.out@, w as int));
                    lemma_next_terminal(g, terminal, self.out@, head, lim, w as int);
                    assert(span == span_of(paths[w as int].len(), i + 1));
                    let k = self.owner@[w as int];
                    assert(self.pattern_nodes@[k] == w);
                    assert(self.patterns@[k] == paths[w as int]);
                    lemma_end_is_start(self.patterns@[k], t, i as int);
                    assert(occurs_at(self.patterns@[k], t, span.0 as int));
                    assert(is_match(self.patterns@, t, span));
                }
                found.push(span);
                proof {
                    assert(found@[before.len() as int] == span);
                    assert forall|x: int, end: int|
                        1 <= x < paths.len() && terminal[x] && 1 <= end <= i + 1 && #[trigger] is_suffix(
                            paths[x],
                            t.take(end),
                        ) && (end <= i || paths[x].len() >= paths[w as int].len()) implies found@.contains(
                        span_of(paths[x].len(), end),
                    ) by {
                        if end <= i || paths[x].len() >= lim {
                            let sp = span_of(paths[x].len(), end);
                            assert(before.contains(sp));
                            let j = choose|j: int| 0 <= j < before.len() && before[j] == sp;
                            assert(found@[j] == sp);
                        } else {
                            assert(x == w);
                        }
                    }
                    assert forall|a: int, b: int| 0 <= a < b < found@.len() implies span_before(
                        #[trigger] found@[a],
                        #[trigger] found@[b],
                    ) by {
                        if b < before.len() {
                            assert(span_before(before[a], before[b]));
                        } else {
                            assert(found@[a] == before[a]);
                        }
                    }
                    lim = paths[w as int].len() as int;
                }
                w = self.out[w];
            }
            proof {
                assert forall|x: int, end: int|
                    1 <= x < paths.len() && terminal[x] && 1 <= end <= i + 2 && end <= t.len()
                        && #[trigger] is_suffix(paths[x], t.take(end)) && (end <= i + 1
                        || paths[x].len() >= i + 3) implies found@.contains(
                    span_of(paths[x].len(), end),
                ) by {
                    if end == i + 1 {
                        assert(is_suffix(paths[x], head));
                        assert(paths[x].len() >= lim);
                    }
                }
            }
            i += 1;
        }
        proof {
            assert forall|k: int, s: int|
                0 <= k < self.patterns@.len() && #[trigger] occurs_at(
                    self.patterns@[k],
                    t,
                    s,
                ) implies found@.contains(
                span_of(self.patterns@[k].len(), s + self.patterns@[k].len()),
            ) by {
                let x = self.pattern_nodes@[k] as int;
                let end = s + self.patterns@[k].len();
                lemma_end_is_start(self.patterns@[k], t, end - 1);
                assert(is_suffix(paths[x], t.take(end)));
            }
            if self.patterns@.len() == 0 && found@.len() > 0 {
                assert(is_match(self.patterns@, t, found@[0]));
            }
        }
        found
    }

    /// Builds the automaton of `patterns`, each given with the index under
    /// which it is to be counted. The indices have to number the patterns,
    /// each index below their number used once, and no pattern may be empty:
    /// otherwise there is no automaton.
    pub fn with_indexed_patterns(patterns: &[(String, u32)]) -> (r: Option<Self>)
        ensures
            r.is_some() == indexed_ok(patterns@),
            match r {
                Some(ac) => ac.wf() && ac.is_built() && ac.patterns().len() == patterns@.len()
                    && forall|i: int|
                    0 <= i < patterns@.len() ==> ac.patterns()[(#[trigger] patterns@[i]).1 as int]
                        == vstd::utf8::encode_utf8(patterns@[i].0@),
                None => true,
            },
    {
        let count = patterns.len();
        let mut place: Vec<usize> = Vec::with_capacity(count);
        let mut s: usize = 0;
        while s < count
            invariant
                s <= count,
                place@.len() == s,
                forall|k: int| 0 <= k < s ==> place@[k] == count,
            decreases count - s,
        {
            place.push(count);
            s += 1;
        }
        let mut i: usize = 0;
        while i < count
            invariant
                count == patterns@.len(),
                place@.len() == count,
                i <= count,
                forall|k: int| 0 <= k < i ==> (#[trigger] patterns@[k]).1 < count && place@[patterns@[k].1 as int] == k,
                forall|k: int|
                    0 <= k < count ==> (#[trigger] place@[k]) == count || (place@[k] < i
                        && patterns@[place@[k] as int].1 == k),
            decreases count - i,
        {
            let idx = patterns[i].1 as usize;
            if idx >= count || place[idx] != count {
                proof {
                    if idx < count {
                        let j = place@[idx as int] as int;
                        assert(patterns@[j].1 == patterns@[i as int].1 && j != i);
                    }
                }
                return None;
            }
            place.set(idx, i);
            i += 1;
        }
        let mut ac = Self::with_num_patterns(count);
        let mut s: usize = 0;
        while s < count
            invariant
                count == patterns@.len(),
                place@.len() == count,
                s <= count,
                ac.wf(),
                !ac.is_built(),
                ac.patterns().len() == s,
                forall|k: int| 0 <= k < count ==> (#[trigger] patterns@[k]).1 < count && place@[patterns@[k].1 as int] == k,
                forall|k: int|
                    0 <= k < count ==> (#[trigger] place@[k]) == count || (place@[k] < count
                        && patterns@[place@[k] as int].1 == k),
                forall|k: int|
                    0 <= k < s ==> (#[trigger] place@[k]) < count && ac.patterns()[k]
                        == vstd::utf8::encode_utf8(patterns@[place@[k] as int].0@)
                        && ac.patterns()[k].len() > 0,
            decreases count - s,
        {
            let at = place[s];
            if at == count {
                proof {
                    assert forall|k: int| 0 <= k < count implies (#[trigger] patterns@[k]).1
                        != s by {
                        assert(place@[patterns@[k].1 as int] == k);
                    }
                    assert(!index_used(patterns@, s as int));
                }
                return None;
            }
            let ghost before = ac.patterns();
            match ac.add_pattern(patterns[at].0.as_str()) {
                Some(_) => {},
                None => {
                    return None;
                },
            }
            s += 1;
        }
        ac.build();
        proof {
            assert forall|k: int| 0 <= k < count implies #[trigger] index_used(patterns@, k) by {
                assert(patterns@[place@[k] as int].1 == k);
            }
            assert forall|k: int| 0 <= k < count implies vstd::utf8::encode_utf8((#[trigger] patterns@[k]).0@).len()
                > 0 by {
                let slot = patterns@[k].1 as int;
                assert(place@[slot] == k);
            }
        }
        Some(ac)
    }
}

} // verus!
