//! The walkable graph: where pedestrians may walk.
//!
//! Sidewalk rings, zebra crossings, plazas and park paths collapse into an undirected
//! graph of numbered nodes. This module holds its topology — node kinds and adjacency —
//! and the breadth-first queries agents route with. Node positions and the spatial
//! index over them are kept by the caller, keyed by the same ids.

use vstd::prelude::*;

verus! {

/// Node id.
pub type WalkId = u32;

/// What kind of place a node belongs to — drives behaviour and idle posing.
#[derive(Clone, Copy, Debug, PartialEq, Eq, Structural)]
pub enum WalkKind {
    /// Kerbside sidewalk.
    Sidewalk,
    /// Zebra crossing between two sidewalk nodes.
    Crossing,
    /// Open civic paving.
    Plaza,
    /// Park path.
    Park,
    /// Building frontage / entrance apron.
    Frontage,
}

/// `u` is a node of `g` and lists `v` as a neighbour.
pub open spec fn spec_edge(g: Seq<Seq<u32>>, u: u32, v: u32) -> bool {
    &&& (u as int) < g.len()
    &&& g[u as int].contains(v)
}

/// Well-formed adjacency: ids fit a [`WalkId`], every listed neighbour is a node, links
/// are symmetric, no node links to itself and no neighbour is listed twice.
pub open spec fn spec_wf_adj(g: Seq<Seq<u32>>) -> bool {
    &&& g.len() <= u32::MAX
    &&& forall|u: int, i: int|
        0 <= u < g.len() && 0 <= i < g[u].len() ==> (#[trigger] g[u][i]) < g.len()
    &&& forall|u: u32, v: u32| #[trigger] spec_edge(g, u, v) ==> spec_edge(g, v, u)
    &&& forall|u: u32| !#[trigger] spec_edge(g, u, u)
    &&& forall|u: int| 0 <= u < g.len() ==> (#[trigger] g[u]).no_duplicates()
}

/// Adjacency after linking `a` and `b`: each gains the other as a neighbour unless it
/// already has it; self-links and unknown ids change nothing.
pub open spec fn spec_link(g: Seq<Seq<u32>>, a: u32, b: u32) -> Seq<Seq<u32>> {
    if a == b || a as int >= g.len() || b as int >= g.len() {
        g
    } else {
        let g1 = if g[a as int].contains(b) {
            g
        } else {
            g.update(a as int, g[a as int].push(b))
        };
        if g1[b as int].contains(a) {
            g1
        } else {
            g1.update(b as int, g1[b as int].push(a))
        }
    }
}

/// Adjacency after linking every pair of `pairs`, in order.
pub open spec fn spec_link_all(g: Seq<Seq<u32>>, pairs: Seq<(u32, u32)>) -> Seq<Seq<u32>>
    decreases pairs.len(),
{
    if pairs.len() == 0 {
        g
    } else {
        let last = pairs.last();
        spec_link(spec_link_all(g, pairs.drop_last()), last.0, last.1)
    }
}

/// The links a closed ring through `ids` makes: each consecutive pair, then last back to
/// first. Fewer than two ids make no ring.
pub open spec fn spec_ring_pairs(ids: Seq<u32>) -> Seq<(u32, u32)> {
    if ids.len() < 2 {
        Seq::empty()
    } else {
        Seq::new((ids.len() - 1) as nat, |k: int| (ids[k], ids[k + 1])).push(
            (ids[0], ids[ids.len() - 1]),
        )
    }
}

/// Linking a sequence of pairs keeps adjacency well formed, keeps every existing link and
/// links every pair of distinct nodes in it.
pub proof fn lemma_link_all(g: Seq<Seq<u32>>, pairs: Seq<(u32, u32)>)
    requires
        spec_wf_adj(g),
    ensures
        spec_wf_adj(spec_link_all(g, pairs)),
        spec_link_all(g, pairs).len() == g.len(),
        forall|u: u32, v: u32| spec_edge(g, u, v) ==> #[trigger] spec_edge(spec_link_all(g, pairs), u, v),
        forall|k: int|
            0 <= k < pairs.len() && (#[trigger] pairs[k]).0 != pairs[k].1 && (pairs[k].0 as int)
                < g.len() && (pairs[k].1 as int) < g.len() ==> spec_edge(
                spec_link_all(g, pairs),
                pairs[k].0,
                pairs[k].1,
            ),
    decreases pairs.len(),
{
    if pairs.len() > 0 {
        let rest = pairs.drop_last();
        lemma_link_all(g, rest);
        let h = spec_link_all(g, rest);
        lemma_link_wf(h, pairs.last().0, pairs.last().1);
        assert forall|k: int|
            0 <= k < pairs.len() && (#[trigger] pairs[k]).0 != pairs[k].1 && (pairs[k].0 as int)
                < g.len() && (pairs[k].1 as int) < g.len() implies spec_edge(
            spec_link_all(g, pairs),
            pairs[k].0,
            pairs[k].1,
        ) by {
            if k < rest.len() {
                assert(rest[k] == pairs[k]);
                assert(spec_edge(h, pairs[k].0, pairs[k].1));
            }
        }
    }
}

/// [`WalkGraph::link_ring`] closes the loop: every consecutive pair of distinct nodes,
/// and the last with the first, end up linked, and no existing link is lost.
pub proof fn lemma_ring_closed(g: Seq<Seq<u32>>, ids: Seq<u32>)
    requires
        spec_wf_adj(g),
        ids.len() >= 2,
        forall|i: int| 0 <= i < ids.len() ==> (#[trigger] ids[i] as int) < g.len(),
    ensures
        forall|k: int|
            0 <= k < ids.len() - 1 && ids[k] != ids[k + 1] ==> #[trigger] spec_edge(
                spec_link_all(g, spec_ring_pairs(ids)),
                ids[k],
                ids[k + 1],
            ),
        ids[0] != ids[ids.len() - 1] ==> spec_edge(
            spec_link_all(g, spec_ring_pairs(ids)),
            ids[0],
            ids[ids.len() - 1],
        ),
        forall|u: u32, v: u32|
            spec_edge(g, u, v) ==> #[trigger] spec_edge(spec_link_all(g, spec_ring_pairs(ids)), u, v),
{
    let pairs = spec_ring_pairs(ids);
    lemma_link_all(g, pairs);
    assert forall|k: int| 0 <= k < ids.len() - 1 && ids[k] != ids[k + 1] implies #[trigger] spec_edge(
        spec_link_all(g, pairs),
        ids[k],
        ids[k + 1],
    ) by {
        assert(pairs[k] == (ids[k], ids[k + 1]));
        assert((ids[k] as int) < g.len());
        assert((ids[k + 1] as int) < g.len());
    }
    let last = (ids.len() - 1) as int;
    assert(pairs[last] == (ids[0], ids[last]));
    assert((ids[0] as int) < g.len());
    assert((ids[last] as int) < g.len());
}

/// Some pair of `pairs` joins the distinct nodes `u` and `v` of `g`, in either order.
pub open spec fn spec_pairs_join(g: Seq<Seq<u32>>, pairs: Seq<(u32, u32)>, u: u32, v: u32) -> bool {
    exists|k: int|
        0 <= k < pairs.len() && (#[trigger] pairs[k]).0 != pairs[k].1 && (pairs[k].0 as int)
            < g.len() && (pairs[k].1 as int) < g.len() && ((pairs[k].0 == u && pairs[k].1 == v)
            || (pairs[k].0 == v && pairs[k].1 == u))
}

/// Linking a sequence of pairs adds exactly the links of its pairs of distinct nodes and
/// nothing else.
pub proof fn lemma_link_all_exact(g: Seq<Seq<u32>>, pairs: Seq<(u32, u32)>)
    requires
        spec_wf_adj(g),
    ensures
        forall|u: u32, v: u32|
            #[trigger] spec_edge(spec_link_all(g, pairs), u, v) <==> spec_edge(g, u, v)
                || spec_pairs_join(g, pairs, u, v),
    decreases pairs.len(),
{
    if pairs.len() > 0 {
        let rest = pairs.drop_last();
        let last = pairs.last();
        lemma_link_all_exact(g, rest);
        lemma_link_all(g, rest);
        let h = spec_link_all(g, rest);
        lemma_link_wf(h, last.0, last.1);
        assert forall|u: u32, v: u32|
            #[trigger] spec_edge(spec_link_all(g, pairs), u, v) <==> spec_edge(g, u, v)
                || spec_pairs_join(g, pairs, u, v) by {
            if spec_pairs_join(g, rest, u, v) {
                let k = choose|k: int|
                    0 <= k < rest.len() && (#[trigger] rest[k]).0 != rest[k].1 && (rest[k].0 as int)
                        < g.len() && (rest[k].1 as int) < g.len() && ((rest[k].0 == u && rest[k].1
                        == v) || (rest[k].0 == v && rest[k].1 == u));
                assert(pairs[k] == rest[k]);
            }
            if last.0 != last.1 && (last.0 as int) < g.len() && (last.1 as int) < g.len() && ((
            last.0 == u && last.1 == v) || (last.0 == v && last.1 == u)) {
                assert(pairs[pairs.len() - 1] == last);
            }
            if spec_pairs_join(g, pairs, u, v) {
                let k = choose|k: int|
                    0 <= k < pairs.len() && (#[trigger] pairs[k]).0 != pairs[k].1 && (pairs[k].0 as int)
                        < g.len() && (pairs[k].1 as int) < g.len() && ((pairs[k].0 == u && pairs[k].1
                        == v) || (pairs[k].0 == v && pairs[k].1 == u));
                if k < rest.len() {
                    assert(rest[k] == pairs[k]);
                }
            }
        }
    }
}

/// A ring adds exactly the links between consecutive ids and between the last and the
/// first id (between distinct nodes of the graph), and nothing else: no chord crosses the
/// ring.
pub proof fn lemma_ring_exact(g: Seq<Seq<u32>>, ids: Seq<u32>)
    requires
        spec_wf_adj(g),
    ensures
        forall|u: u32, v: u32|
            #[trigger] spec_edge(spec_link_all(g, spec_ring_pairs(ids)), u, v) <==> spec_edge(
                g,
                u,
                v,
            ) || (ids.len() >= 2 && u != v && (u as int) < g.len() && (v as int) < g.len() && ((
            exists|k: int|
                0 <= k < ids.len() - 1 && ((#[trigger] ids[k] == u && ids[k + 1] == v) || (ids[k]
                    == v && ids[k + 1] == u))) || (ids[0] == u && ids[ids.len() - 1] == v) || (
            ids[0] == v && ids[ids.len() - 1] == u))),
{
    let pairs = spec_ring_pairs(ids);
    lemma_link_all_exact(g, pairs);
    assert forall|u: u32, v: u32|
        #[trigger] spec_edge(spec_link_all(g, pairs), u, v) <==> spec_edge(g, u, v) || (ids.len()
            >= 2 && u != v && (u as int) < g.len() && (v as int) < g.len() && ((exists|k: int|
            0 <= k < ids.len() - 1 && ((#[trigger] ids[k] == u && ids[k + 1] == v) || (ids[k] == v
                && ids[k + 1] == u))) || (ids[0] == u && ids[ids.len() - 1] == v) || (ids[0] == v
            && ids[ids.len() - 1] == u))) by {
        if ids.len() >= 2 {
            let n = ids.len();
            assert(pairs.len() == n);
            if spec_pairs_join(g, pairs, u, v) {
                let k = choose|k: int|
                    0 <= k < pairs.len() && (#[trigger] pairs[k]).0 != pairs[k].1 && (pairs[k].0 as int)
                        < g.len() && (pairs[k].1 as int) < g.len() && ((pairs[k].0 == u && pairs[k].1
                        == v) || (pairs[k].0 == v && pairs[k].1 == u));
                if k < n - 1 {
                    assert(pairs[k] == (ids[k], ids[k + 1]));
                } else {
                    assert(pairs[k] == (ids[0], ids[n - 1]));
                }
            }
            if u != v && (u as int) < g.len() && (v as int) < g.len() {
                if exists|k: int|
                    0 <= k < ids.len() - 1 && ((#[trigger] ids[k] == u && ids[k + 1] == v) || (
                    ids[k] == v && ids[k + 1] == u)) {
                    let k = choose|k: int|
                        0 <= k < ids.len() - 1 && ((#[trigger] ids[k] == u && ids[k + 1] == v) || (
                        ids[k] == v && ids[k + 1] == u));
                    assert(pairs[k] == (ids[k], ids[k + 1]));
                    assert(spec_pairs_join(g, pairs, u, v));
                }
                if (ids[0] == u && ids[n - 1] == v) || (ids[0] == v && ids[n - 1] == u) {
                    assert(pairs[n - 1] == (ids[0], ids[n - 1]));
                    assert(spec_pairs_join(g, pairs, u, v));
                }
            }
        } else {
            assert(pairs.len() == 0);
            assert(!spec_pairs_join(g, pairs, u, v));
        }
    }
}

/// Sum of all neighbour-list lengths.
pub open spec fn spec_degree_sum(g: Seq<Seq<u32>>) -> nat
    decreases g.len(),
{
    if g.len() == 0 {
        0
    } else {
        spec_degree_sum(g.drop_last()) + g.last().len()
    }
}

/// Linking keeps adjacency well formed (symmetric, duplicate-free, loop-free), afterwards
/// `a` and `b` are neighbours, and every other node's list is unchanged.
pub proof fn lemma_link_wf(g: Seq<Seq<u32>>, a: u32, b: u32)
    requires
        spec_wf_adj(g),
    ensures
        spec_wf_adj(spec_link(g, a, b)),
        spec_link(g, a, b).len() == g.len(),
        forall|u: int|
            0 <= u < g.len() && u != a && u != b ==> #[trigger] spec_link(g, a, b)[u] == g[u],
        a != b && (a as int) < g.len() && (b as int) < g.len() ==> spec_edge(
            spec_link(g, a, b),
            a,
            b,
        ) && spec_edge(spec_link(g, a, b), b, a),
        forall|u: u32, v: u32|
            #[trigger] spec_edge(spec_link(g, a, b), u, v) <==> spec_edge(g, u, v) || (a != b
                && (a as int) < g.len() && (b as int) < g.len() && ((u == a && v == b) || (u == b
                && v == a))),
{
    let h = spec_link(g, a, b);
    if a == b || a as int >= g.len() || b as int >= g.len() {
    } else {
        // Symmetry means `a` lists `b` exactly when `b` lists `a`.
        assert(spec_edge(g, a, b) <==> spec_edge(g, b, a));
        let g1 = if g[a as int].contains(b) {
            g
        } else {
            g.update(a as int, g[a as int].push(b))
        };
        assert(g1[b as int] == g[b as int]);
        assert forall|u: u32, v: u32|
            #[trigger] spec_edge(h, u, v) <==> spec_edge(g, u, v) || ((u == a && v == b) || (u
                == b && v == a)) by {
            if (u as int) < g.len() {
                lemma_push_contains(g[a as int], b, v);
                lemma_push_contains(g1[b as int], a, v);
            }
        }
        assert forall|u: int, i: int| 0 <= u < h.len() && 0 <= i < h[u].len() implies (
        #[trigger] h[u][i]) < h.len() by {
            if i < g[u].len() {
                assert(h[u][i] == g[u][i]);
            }
        }
        assert forall|u: int| 0 <= u < h.len() implies (#[trigger] h[u]).no_duplicates() by {
            assert(g[u].no_duplicates());
        }
        assert forall|u: u32, v: u32| #[trigger] spec_edge(h, u, v) implies spec_edge(h, v, u) by {
            if spec_edge(g, u, v) {
                assert(spec_edge(g, v, u));
            }
        }
        assert forall|u: u32| !#[trigger] spec_edge(h, u, u) by {
            assert(!spec_edge(g, u, u));
        }
    }
}

/// A pushed sequence holds exactly the old elements and the pushed one.
pub proof fn lemma_push_contains<T>(s: Seq<T>, x: T, v: T)
    ensures
        s.push(x).contains(v) <==> (s.contains(v) || v == x),
{
    if s.contains(v) {
        let i = choose|i: int| 0 <= i < s.len() && s[i] == v;
        assert(s.push(x)[i] == v);
    }
    if v == x {
        assert(s.push(x)[s.len() as int] == v);
    }
    if s.push(x).contains(v) {
        let j = choose|j: int| 0 <= j < s.push(x).len() && s.push(x)[j] == v;
        if j < s.len() {
            assert(s[j] == v);
        }
    }
}

/// Linking an already-linked pair, in either order, changes nothing.
pub proof fn lemma_link_idempotent(g: Seq<Seq<u32>>, a: u32, b: u32)
    requires
        spec_wf_adj(g),
    ensures
        spec_link(spec_link(g, a, b), a, b) == spec_link(g, a, b),
        spec_link(spec_link(g, a, b), b, a) == spec_link(g, a, b),
{
    lemma_link_wf(g, a, b);
}


/// `s` plus every node one link away from it.
pub open spec fn spec_grow(g: Seq<Seq<u32>>, s: Set<u32>) -> Set<u32> {
    Set::new(|v: u32| s.contains(v) || exists|u: u32| s.contains(u) && #[trigger] spec_edge(g, u, v))
}

/// Nodes reachable from `from` in at most `k` links.
pub open spec fn spec_reach(g: Seq<Seq<u32>>, from: u32, k: nat) -> Set<u32>
    decreases k,
{
    if k == 0 {
        set![from]
    } else {
        spec_grow(g, spec_reach(g, from, (k - 1) as nat))
    }
}

/// `to` is at most `k` links from `from`.
pub open spec fn spec_within(g: Seq<Seq<u32>>, from: u32, to: u32, k: nat) -> bool {
    spec_reach(g, from, k).contains(to)
}

/// `to` is exactly `d` links from `from` along a shortest path.
pub open spec fn spec_dist_is(g: Seq<Seq<u32>>, from: u32, to: u32, d: nat) -> bool {
    &&& spec_within(g, from, to, d)
    &&& (d == 0 || !spec_within(g, from, to, (d - 1) as nat))
}

/// `to` can be reached from `from` at all.
pub open spec fn spec_reachable(g: Seq<Seq<u32>>, from: u32, to: u32) -> bool {
    exists|k: nat| spec_within(g, from, to, k)
}

/// `s` holds `from` and every neighbour of each of its nodes.
pub open spec fn spec_closed(g: Seq<Seq<u32>>, s: Set<u32>) -> bool {
    forall|u: u32, v: u32| s.contains(u) && #[trigger] spec_edge(g, u, v) ==> s.contains(v)
}

/// A link out of the `k`-reach lands in the `k + 1`-reach.
pub proof fn lemma_reach_step(g: Seq<Seq<u32>>, from: u32, k: nat, u: u32, v: u32)
    requires
        spec_reach(g, from, k).contains(u),
        spec_edge(g, u, v),
    ensures
        spec_reach(g, from, k + 1).contains(v),
{
    assert(spec_reach(g, from, k + 1) == spec_grow(g, spec_reach(g, from, k)));
}

/// Reach only grows with the allowed number of links.
pub proof fn lemma_reach_mono(g: Seq<Seq<u32>>, from: u32, j: nat, k: nat)
    requires
        j <= k,
    ensures
        spec_reach(g, from, j).subset_of(spec_reach(g, from, k)),
    decreases k,
{
    if j < k {
        lemma_reach_mono(g, from, j, (k - 1) as nat);
        assert(spec_reach(g, from, k) == spec_grow(g, spec_reach(g, from, (k - 1) as nat)));
    }
}

/// From a node of `g`, only nodes of `g` are reachable.
pub proof fn lemma_reach_in_graph(g: Seq<Seq<u32>>, from: u32, k: nat, v: u32)
    requires
        spec_wf_adj(g),
        (from as int) < g.len(),
        spec_reach(g, from, k).contains(v),
    ensures
        (v as int) < g.len(),
    decreases k,
{
    if k > 0 {
        let prev = spec_reach(g, from, (k - 1) as nat);
        if !prev.contains(v) {
            let u = choose|u: u32| prev.contains(u) && #[trigger] spec_edge(g, u, v);
            let i = choose|i: int| 0 <= i < g[u as int].len() && g[u as int][i] == v;
            assert(g[u as int][i] < g.len());
        } else {
            lemma_reach_in_graph(g, from, (k - 1) as nat, v);
        }
    }
}

/// A set holding `from` and closed under links holds everything reachable from `from`.
pub proof fn lemma_closed_holds_reach(g: Seq<Seq<u32>>, from: u32, s: Set<u32>, k: nat)
    requires
        s.contains(from),
        spec_closed(g, s),
    ensures
        spec_reach(g, from, k).subset_of(s),
    decreases k,
{
    if k > 0 {
        lemma_closed_holds_reach(g, from, s, (k - 1) as nat);
    }
}

/// Paths compose: `a` links to `c` then `b` links to `t` make at most `a + b` links.
pub proof fn lemma_reach_trans(g: Seq<Seq<u32>>, p: u32, c: u32, t: u32, a: nat, b: nat)
    requires
        spec_within(g, p, c, a),
        spec_within(g, c, t, b),
    ensures
        spec_within(g, p, t, a + b),
    decreases b,
{
    if b == 0 {
        lemma_reach_mono(g, p, a, a);
    } else {
        let prev = spec_reach(g, c, (b - 1) as nat);
        if prev.contains(t) {
            lemma_reach_trans(g, p, c, t, a, (b - 1) as nat);
            lemma_reach_mono(g, p, (a + b - 1) as nat, a + b);
        } else {
            let u = choose|u: u32| prev.contains(u) && #[trigger] spec_edge(g, u, t);
            lemma_reach_trans(g, p, c, u, a, (b - 1) as nat);
            lemma_reach_step(g, p, (a + b - 1) as nat, u, t);
        }
    }
}

/// The shortest distance is unique.
pub proof fn lemma_dist_unique(g: Seq<Seq<u32>>, from: u32, to: u32, d1: nat, d2: nat)
    requires
        spec_dist_is(g, from, to, d1),
        spec_dist_is(g, from, to, d2),
    ensures
        d1 == d2,
{
    if d1 < d2 {
        lemma_reach_mono(g, from, d1, (d2 - 1) as nat);
    } else if d2 < d1 {
        lemma_reach_mono(g, from, d2, (d1 - 1) as nat);
    }
}

/// Nodes a breadth-first search has marked: those with a recorded predecessor.
pub open spec fn spec_marked(prev: Seq<u32>) -> Set<u32> {
    Set::new(|v: u32| (v as int) < prev.len() && prev[v as int] != u32::MAX)
}

/// Marked node `v` sits at its true distance `lvl[v]` from `from`, and (unless it is the
/// root) its recorded predecessor is a marked neighbour one level closer.
pub open spec fn spec_tree_node(
    g: Seq<Seq<u32>>,
    from: u32,
    prev: Seq<u32>,
    lvl: Seq<nat>,
    v: u32,
) -> bool {
    &&& spec_dist_is(g, from, v, lvl[v as int])
    &&& v != from ==> {
        let p = prev[v as int];
        &&& (p as int) < g.len()
        &&& prev[p as int] != u32::MAX
        &&& lvl[p as int] + 1 == lvl[v as int]
        &&& spec_edge(g, p, v)
    }
}

/// `prev` and `lvl` record a breadth-first tree rooted at `from`.
#[verifier::opaque]
pub open spec fn spec_tree(g: Seq<Seq<u32>>, from: u32, prev: Seq<u32>, lvl: Seq<nat>) -> bool {
    &&& prev.len() == g.len()
    &&& lvl.len() == g.len()
    &&& (from as int) < g.len()
    &&& prev[from as int] == from
    &&& lvl[from as int] == 0
    &&& forall|v: u32| #[trigger] spec_marked(prev).contains(v) ==> spec_tree_node(g, from, prev, lvl, v)
}

/// State between two levels of the search: the tree so far marks exactly the nodes
/// within `hops` links, `frontier` holds nodes at exactly `hops` links, and every other
/// marked node already has all its neighbours marked.
#[verifier::opaque]
pub open spec fn spec_level(
    g: Seq<Seq<u32>>,
    from: u32,
    prev: Seq<u32>,
    lvl: Seq<nat>,
    frontier: Seq<u32>,
    hops: nat,
) -> bool {
    &&& spec_tree(g, from, prev, lvl)
    &&& spec_marked(prev) == spec_reach(g, from, hops)
    &&& forall|i: int|
        0 <= i < frontier.len() ==> (#[trigger] frontier[i] as int) < g.len() && prev[frontier[i] as int]
            != u32::MAX && lvl[frontier[i] as int] == hops
    &&& forall|u: u32, v: u32|
        spec_reach(g, from, hops).contains(u) && !frontier.contains(u) && #[trigger] spec_edge(
            g,
            u,
            v,
        ) ==> spec_reach(g, from, hops).contains(v)
}

/// What a search level guarantees about its frontier and tree.
proof fn lemma_level_facts(
    g: Seq<Seq<u32>>,
    from: u32,
    prev: Seq<u32>,
    lvl: Seq<nat>,
    frontier: Seq<u32>,
    hops: nat,
)
    requires
        spec_level(g, from, prev, lvl, frontier, hops),
    ensures
        spec_tree(g, from, prev, lvl),
        spec_marked(prev) == spec_reach(g, from, hops),
        prev.len() == g.len(),
        lvl.len() == g.len(),
        (from as int) < g.len(),
        forall|i: int|
            0 <= i < frontier.len() ==> spec_marked(prev).contains(#[trigger] frontier[i])
                && lvl[frontier[i] as int] == hops && (frontier[i] as int) < g.len(),
        frontier.len() == 0 ==> spec_closed(g, spec_reach(g, from, hops)),
{
    reveal(spec_level);
    reveal(spec_tree);
}

/// Marking unmarked neighbour `v` of frontier node `cur` extends the tree one level.
proof fn lemma_mark(
    g: Seq<Seq<u32>>,
    from: u32,
    prev: Seq<u32>,
    lvl: Seq<nat>,
    hops: nat,
    cur: u32,
    v: u32,
)
    requires
        g.len() <= u32::MAX,
        spec_tree(g, from, prev, lvl),
        spec_reach(g, from, hops).subset_of(spec_marked(prev)),
        spec_reach(g, from, hops).contains(cur),
        spec_marked(prev).contains(cur),
        lvl[cur as int] == hops,
        spec_edge(g, cur, v),
        (v as int) < g.len(),
        prev[v as int] == u32::MAX,
    ensures
        spec_tree(g, from, prev.update(v as int, cur), lvl.update(v as int, hops + 1)),
        spec_marked(prev.update(v as int, cur)) == spec_marked(prev).insert(v),
        spec_dist_is(g, from, v, hops + 1),
{
    reveal(spec_tree);
    let prev2 = prev.update(v as int, cur);
    let lvl2 = lvl.update(v as int, hops + 1);
    assert(cur != u32::MAX);
    assert(prev[from as int] != u32::MAX);
    lemma_reach_step(g, from, hops, cur, v);
    assert(!spec_reach(g, from, hops).contains(v));
    assert(spec_marked(prev2) =~= spec_marked(prev).insert(v));
    assert(cur != v);
    assert forall|w: u32| #[trigger] spec_marked(prev2).contains(w) implies spec_tree_node(
        g,
        from,
        prev2,
        lvl2,
        w,
    ) by {
        if w != v {
            assert(spec_tree_node(g, from, prev, lvl, w));
            if w != from {
                let p = prev[w as int];
                assert(p != v);
            }
        } else {
            assert(v != from);
        }
    }
}

/// Bookkeeping after marking `v` and appending it to `next`: the frontier keeps its
/// level, `next` holds only next-level nodes and every newly marked node.
proof fn lemma_next_extended(
    g: Seq<Seq<u32>>,
    from: u32,
    hops: nat,
    frontier: Seq<u32>,
    prev: Seq<u32>,
    lvl: Seq<nat>,
    next: Seq<u32>,
    cur: u32,
    v: u32,
)
    requires
        (v as int) < g.len(),
        prev.len() == g.len(),
        lvl.len() == g.len(),
        prev[v as int] == u32::MAX,
        cur != u32::MAX,
        forall|i: int|
            0 <= i < frontier.len() ==> spec_marked(prev).contains(#[trigger] frontier[i])
                && lvl[frontier[i] as int] == hops,
        forall|i: int|
            0 <= i < next.len() ==> (#[trigger] next[i] as int) < g.len() && prev[next[i] as int]
                != u32::MAX && lvl[next[i] as int] == hops + 1,
        forall|w: u32|
            #[trigger] spec_marked(prev).contains(w) && !spec_reach(g, from, hops).contains(w)
                ==> next.contains(w),
    ensures
        ({
            let prev2 = prev.update(v as int, cur);
            let lvl2 = lvl.update(v as int, hops + 1);
            let next2 = next.push(v);
            &&& forall|i: int|
                0 <= i < frontier.len() ==> spec_marked(prev2).contains(#[trigger] frontier[i])
                    && lvl2[frontier[i] as int] == hops
            &&& forall|i: int|
                0 <= i < next2.len() ==> (#[trigger] next2[i] as int) < g.len() && prev2[next2[i] as int]
                    != u32::MAX && lvl2[next2[i] as int] == hops + 1
            &&& forall|w: u32|
                #[trigger] spec_marked(prev2).contains(w) && !spec_reach(g, from, hops).contains(w)
                    ==> next2.contains(w)
        }),
{
    let prev2 = prev.update(v as int, cur);
    let lvl2 = lvl.update(v as int, hops + 1);
    let next2 = next.push(v);
    assert forall|i: int| 0 <= i < frontier.len() implies spec_marked(prev2).contains(
        #[trigger] frontier[i],
    ) && lvl2[frontier[i] as int] == hops by {
        assert(spec_marked(prev).contains(frontier[i]));
    }
    assert forall|i: int| 0 <= i < next2.len() implies (#[trigger] next2[i] as int) < g.len()
        && prev2[next2[i] as int] != u32::MAX && lvl2[next2[i] as int] == hops + 1 by {
        if i < next.len() {
            assert(next2[i] == next[i]);
        }
    }
    assert forall|w: u32|
        #[trigger] spec_marked(prev2).contains(w) && !spec_reach(g, from, hops).contains(
            w,
        ) implies next2.contains(w) by {
        if w != v {
            assert(spec_marked(prev).contains(w));
            let i = choose|i: int| 0 <= i < next.len() && next[i] == w;
            assert(next2[i] == w);
        } else {
            assert(next2[next.len() as int] == w);
        }
    }
}

/// The neighbours of all frontier nodes are marked, so the marked set is now the reach
/// one level further, and the new frontier closes the rest.
proof fn lemma_level_done(
    g: Seq<Seq<u32>>,
    from: u32,
    prev0: Seq<u32>,
    lvl0: Seq<nat>,
    prev: Seq<u32>,
    lvl: Seq<nat>,
    frontier: Seq<u32>,
    next: Seq<u32>,
    hops: nat,
)
    requires
        spec_wf_adj(g),
        spec_level(g, from, prev0, lvl0, frontier, hops),
        spec_tree(g, from, prev, lvl),
        spec_reach(g, from, hops).subset_of(spec_marked(prev)),
        spec_marked(prev).subset_of(spec_reach(g, from, hops + 1)),
        forall|k: int, v: u32|
            0 <= k < frontier.len() && #[trigger] spec_edge(g, frontier[k], v) ==> spec_marked(
                prev,
            ).contains(v),
        forall|i: int|
            0 <= i < next.len() ==> (#[trigger] next[i] as int) < g.len() && prev[next[i] as int]
                != u32::MAX && lvl[next[i] as int] == hops + 1,
        forall|v: u32|
            #[trigger] spec_marked(prev).contains(v) && !spec_reach(g, from, hops).contains(v)
                ==> next.contains(v),
    ensures
        spec_level(g, from, prev, lvl, next, hops + 1),
{
    reveal(spec_level);
    let r0 = spec_reach(g, from, hops);
    let r1 = spec_reach(g, from, hops + 1);
    assert(r1 == spec_grow(g, r0));
    assert forall|v: u32| r1.contains(v) implies #[trigger] spec_marked(prev).contains(v) by {
        if !r0.contains(v) {
            let u = choose|u: u32| r0.contains(u) && #[trigger] spec_edge(g, u, v);
            if frontier.contains(u) {
                let k = choose|k: int| 0 <= k < frontier.len() && frontier[k] == u;
                assert(spec_edge(g, frontier[k], v));
            }
        }
    }
    assert(spec_marked(prev) =~= r1);
    assert forall|u: u32, v: u32|
        r1.contains(u) && !next.contains(u) && #[trigger] spec_edge(g, u, v) implies r1.contains(
        v,
    ) by {
        assert(r0.contains(u));
        if frontier.contains(u) {
            let k = choose|k: int| 0 <= k < frontier.len() && frontier[k] == u;
            assert(spec_edge(g, frontier[k], v));
        } else {
            lemma_reach_mono(g, from, hops, hops + 1);
        }
    }
}

/// Number of `false` entries.
pub open spec fn spec_count_false(s: Seq<bool>) -> nat
    decreases s.len(),
{
    if s.len() == 0 {
        0
    } else {
        spec_count_false(s.drop_last()) + if s.last() {
            0nat
        } else {
            1nat
        }
    }
}

/// Number of `true` entries.
pub open spec fn spec_count_true(s: Seq<bool>) -> nat
    decreases s.len(),
{
    if s.len() == 0 {
        0
    } else {
        spec_count_true(s.drop_last()) + if s.last() {
            1nat
        } else {
            0nat
        }
    }
}

/// Number of node ids of `g` that cannot be reached from `from`.
pub open spec fn spec_unreachable_count(g: Seq<Seq<u32>>, from: u32) -> nat {
    spec_count_false(Seq::new(g.len(), |i: int| spec_reachable(g, from, i as u32)))
}

/// A sequence of only `false` entries counts no `true` entry.
proof fn lemma_all_false(s: Seq<bool>)
    requires
        forall|i: int| 0 <= i < s.len() ==> !s[i],
    ensures
        spec_count_true(s) == 0,
    decreases s.len(),
{
    if s.len() > 0 {
        lemma_all_false(s.drop_last());
    }
}

/// Every entry is counted exactly once.
proof fn lemma_count_split(s: Seq<bool>)
    ensures
        spec_count_true(s) + spec_count_false(s) == s.len(),
    decreases s.len(),
{
    if s.len() > 0 {
        lemma_count_split(s.drop_last());
    }
}

/// Turning one `false` entry `true` adds one to the count of `true` entries.
proof fn lemma_count_true_set(s: Seq<bool>, i: int)
    requires
        0 <= i < s.len(),
        !s[i],
    ensures
        spec_count_true(s.update(i, true)) == spec_count_true(s) + 1,
    decreases s.len(),
{
    let t = s.update(i, true);
    if i == s.len() - 1 {
        assert(t.drop_last() =~= s.drop_last());
    } else {
        assert(t.drop_last() =~= s.drop_last().update(i, true));
        lemma_count_true_set(s.drop_last(), i);
    }
}

/// The ids whose entry is `true`.
pub open spec fn spec_set_of(s: Seq<bool>) -> Set<u32> {
    Set::new(|v: u32| (v as int) < s.len() && s[v as int])
}

/// Undirected walk graph: node kinds plus symmetric adjacency lists.
#[derive(Clone, Debug)]
pub struct WalkGraph {
    kinds: Vec<WalkKind>,
    adj: Vec<Vec<u32>>,
}

impl WalkGraph {
    /// Kind of each node, by id.
    pub closed spec fn kinds(&self) -> Seq<WalkKind> {
        self.kinds@
    }

    /// Neighbour list of each node, by id.
    pub closed spec fn adj(&self) -> Seq<Seq<u32>> {
        self.adj@.map_values(|l: Vec<u32>| l@)
    }

    /// Every node has a kind and a neighbour list, and the adjacency is well formed.
    pub closed spec fn wf(&self) -> bool {
        &&& self.kinds@.len() == self.adj@.len()
        &&& spec_wf_adj(self.adj())
    }

    /// An empty graph.
    pub fn new() -> (r: WalkGraph)
        ensures
            r.wf(),
            r.kinds() == Seq::<WalkKind>::empty(),
            r.adj() == Seq::<Seq<u32>>::empty(),
    {
        let r = WalkGraph { kinds: Vec::new(), adj: Vec::new() };
        assert(r.adj() =~= Seq::<Seq<u32>>::empty());
        r
    }

    /// Adds an unlinked node of `kind`, returning its id.
    pub fn add(&mut self, kind: WalkKind) -> (id: WalkId)
        requires
            old(self).wf(),
            old(self).kinds().len() < u32::MAX,
        ensures
            final(self).wf(),
            id == old(self).kinds().len(),
            final(self).kinds() == old(self).kinds().push(kind),
            final(self).adj() == old(self).adj().push(Seq::<u32>::empty()),
    {
        let ghost g = self.adj();
        let id = self.kinds.len() as WalkId;
        self.kinds.push(kind);
        self.adj.push(Vec::new());
        let ghost h = self.adj();
        assert(h =~= g.push(Seq::<u32>::empty()));
        assert forall|u: int, i: int| 0 <= u < h.len() && 0 <= i < h[u].len() implies (
        #[trigger] h[u][i]) < h.len() by {
            assert(h[u][i] == g[u][i]);
        }
        assert forall|u: u32, v: u32| #[trigger] spec_edge(h, u, v) implies spec_edge(h, v, u) by {
            assert(spec_edge(g, u, v));
        }
        assert forall|u: u32| !#[trigger] spec_edge(h, u, u) by {
            if (u as int) < g.len() {
                assert(!spec_edge(g, u, u));
            }
        }
        assert forall|u: int| 0 <= u < h.len() implies (#[trigger] h[u]).no_duplicates() by {
            if u < g.len() {
                assert(g[u].no_duplicates());
            }
        }
        id
    }

    /// A well-formed graph has one adjacency list per node, and its adjacency is
    /// symmetric, duplicate-free and free of self-links.
    pub proof fn lemma_wf_shape(&self)
        requires
            self.wf(),
        ensures
            self.adj().len() == self.kinds().len(),
            spec_wf_adj(self.adj()),
    {
    }

    /// Number of nodes.
    pub fn len(&self) -> (r: usize)
        requires
            self.wf(),
        ensures
            r == self.kinds().len(),
            r == self.adj().len(),
    {
        self.kinds.len()
    }

    pub fn is_empty(&self) -> (r: bool)
        requires
            self.wf(),
        ensures
            r == (self.kinds().len() == 0),
    {
        self.kinds.len() == 0
    }

    /// Kind of node `id`.
    pub fn kind(&self, id: WalkId) -> (r: WalkKind)
        requires
            self.wf(),
            (id as int) < self.kinds().len(),
        ensures
            r == self.kinds()[id as int],
    {
        self.kinds[id as usize]
    }

    /// Neighbours of node `id`, in link order.
    pub fn neighbours(&self, id: WalkId) -> (r: &[u32])
        requires
            self.wf(),
            (id as int) < self.kinds().len(),
        ensures
            r@ == self.adj()[id as int],
    {
        self.adj[id as usize].as_slice()
    }

    /// Number of undirected links: half the total of the neighbour-list lengths.
    pub fn edge_count(&self) -> (r: usize)
        requires
            self.wf(),
            spec_degree_sum(self.adj()) <= usize::MAX,
        ensures
            r == spec_degree_sum(self.adj()) / 2,
    {
        let ghost g = self.adj();
        let mut total: usize = 0;
        let mut i: usize = 0;
        while i < self.adj.len()
            invariant
                g == self.adj(),
                i <= self.adj@.len(),
                self.adj@.len() == g.len(),
                total == spec_degree_sum(g.take(i as int)),
                spec_degree_sum(g) <= usize::MAX,
            decreases self.adj@.len() - i,
        {
            assert(g.take(i + 1).drop_last() =~= g.take(i as int));
            proof {
                lemma_degree_sum_prefix(g, (i + 1) as int);
            }
            total = total + self.adj[i].len();
            i += 1;
        }
        assert(g.take(i as int) =~= g);
        total / 2
    }

    /// Connects two nodes. Symmetric, idempotent, no self-links; unknown ids are ignored.
    pub fn link(&mut self, a: WalkId, b: WalkId)
        requires
            old(self).wf(),
        ensures
            final(self).wf(),
            final(self).kinds() == old(self).kinds(),
            final(self).adj() == spec_link(old(self).adj(), a, b),
            final(self).adj().len() == final(self).kinds().len(),
            spec_wf_adj(final(self).adj()),
    {
        proof {
            lemma_link_wf(self.adj(), a, b);
        }
        let ghost g = self.adj();
        let n = self.adj.len();
        let (na, nb) = (a as usize, b as usize);
        if na == nb || na >= n || nb >= n {
            return;
        }
        if !lists(&self.adj[na], b) {
            self.adj[na].push(b);
        }
        let ghost g1 = self.adj();
        assert(g1 =~= if g[a as int].contains(b) {
            g
        } else {
            g.update(a as int, g[a as int].push(b))
        });
        if !lists(&self.adj[nb], a) {
            self.adj[nb].push(a);
        }
        assert(self.adj() =~= spec_link(g, a, b));
    }

    /// One breadth-first level: marks every unmarked neighbour of the frontier with the
    /// frontier node it was reached from, and returns the newly marked nodes.
    #[verifier::rlimit(60)]
    fn grow_level(
        &self,
        frontier: &Vec<u32>,
        prev: &mut Vec<u32>,
        Ghost(from): Ghost<u32>,
        Ghost(hops): Ghost<nat>,
        Ghost(lvl): Ghost<Seq<nat>>,
    ) -> (r: (Vec<u32>, Ghost<Seq<nat>>))
        requires
            self.wf(),
            spec_level(self.adj(), from, old(prev)@, lvl, frontier@, hops),
        ensures
            spec_level(self.adj(), from, final(prev)@, r.1@, r.0@, hops + 1),
    {
        let ghost g = self.adj();
        let ghost prev0 = prev@;
        let ghost mut lvl2 = lvl;
        proof {
            lemma_level_facts(g, from, prev0, lvl, frontier@, hops);
            lemma_reach_mono(g, from, hops, hops + 1);
        }
        let mut next: Vec<u32> = Vec::new();
        let mut fi: usize = 0;
        while fi < frontier.len()
            invariant
                self.wf(),
                g == self.adj(),
                fi <= frontier@.len(),
                spec_level(g, from, prev0, lvl, frontier@, hops),
                spec_tree(g, from, prev@, lvl2),
                prev@.len() == g.len(),
                lvl2.len() == g.len(),
                forall|i: int|
                    0 <= i < frontier@.len() ==> spec_reach(g, from, hops).contains(
                        #[trigger] frontier@[i],
                    ) && (frontier@[i] as int) < g.len(),
                spec_reach(g, from, hops).subset_of(spec_marked(prev@)),
                spec_marked(prev@).subset_of(spec_reach(g, from, hops + 1)),
                forall|i: int|
                    0 <= i < frontier@.len() ==> spec_marked(prev@).contains(#[trigger] frontier@[i])
                        && lvl2[frontier@[i] as int] == hops,
                forall|k: int, v: u32|
                    0 <= k < fi && #[trigger] spec_edge(g, frontier@[k], v) ==> spec_marked(
                        prev@,
                    ).contains(v),
                forall|i: int|
                    0 <= i < next@.len() ==> (#[trigger] next@[i] as int) < g.len()
                        && prev@[next@[i] as int] != u32::MAX && lvl2[next@[i] as int] == hops + 1,
                forall|v: u32|
                    #[trigger] spec_marked(prev@).contains(v) && !spec_reach(g, from, hops).contains(v)
                        ==> next@.contains(v),
            decreases frontier@.len() - fi,
        {
            let cur = frontier[fi];
            let nbrs = self.neighbours(cur);
            let mut ni: usize = 0;
            while ni < nbrs.len()
                invariant
                    self.wf(),
                    g == self.adj(),
                    fi < frontier@.len(),
                    cur == frontier@[fi as int],
                    (cur as int) < g.len(),
                    nbrs@ == g[cur as int],
                    ni <= nbrs@.len(),
                    spec_level(g, from, prev0, lvl, frontier@, hops),
                    spec_tree(g, from, prev@, lvl2),
                    prev@.len() == g.len(),
                    lvl2.len() == g.len(),
                    spec_reach(g, from, hops).contains(cur),
                    spec_reach(g, from, hops).subset_of(spec_marked(prev@)),
                    spec_marked(prev@).subset_of(spec_reach(g, from, hops + 1)),
                    forall|i: int|
                    0 <= i < frontier@.len() ==> spec_marked(prev@).contains(#[trigger] frontier@[i])
                        && lvl2[frontier@[i] as int] == hops,
                    forall|k: int, v: u32|
                        0 <= k < fi && #[trigger] spec_edge(g, frontier@[k], v) ==> spec_marked(
                            prev@,
                        ).contains(v),
                    forall|j: int| 0 <= j < ni ==> spec_marked(prev@).contains(#[trigger] nbrs@[j]),
                    forall|i: int|
                        0 <= i < next@.len() ==> (#[trigger] next@[i] as int) < g.len()
                            && prev@[next@[i] as int] != u32::MAX && lvl2[next@[i] as int] == hops + 1,
                    forall|v: u32|
                        #[trigger] spec_marked(prev@).contains(v) && !spec_reach(g, from, hops).contains(v)
                            ==> next@.contains(v),
                decreases nbrs@.len() - ni,
            {
                let nb = nbrs[ni];
                assert(g[cur as int][ni as int] < g.len());
                if prev[nb as usize] == u32::MAX {
                    proof {
                        assert(spec_edge(g, cur, nb));
                        assert(lvl2[cur as int] == hops);
                        lemma_mark(g, from, prev@, lvl2, hops, cur, nb);
                        lemma_reach_step(g, from, hops, cur, nb);
                    }
                    proof {
                        lemma_next_extended(g, from, hops, frontier@, prev@, lvl2, next@, cur, nb);
                        lvl2 = lvl2.update(nb as int, hops + 1);
                    }
                    prev.set(nb as usize, cur);
                    next.push(nb);
                }
                ni += 1;
            }
            proof {
                assert forall|k: int, v: u32|
                    0 <= k < fi + 1 && #[trigger] spec_edge(g, frontier@[k], v) implies spec_marked(
                    prev@,
                ).contains(v) by {
                    if k == fi {
                        let j = choose|j: int| 0 <= j < nbrs@.len() && nbrs@[j] == v;
                        assert(spec_marked(prev@).contains(nbrs@[j]));
                    }
                }
            }
            fi += 1;
        }
        proof {
            assert(spec_level(g, from, prev0, lvl, frontier@, hops));
            assert(spec_wf_adj(g));
            lemma_level_done(g, from, prev0, lvl, prev@, lvl2, frontier@, next@, hops);
        }
        (next, Ghost(lvl2))
    }

    /// Next hop from `from` towards `to` along a shortest path, or `None` when `to` is
    /// unreachable within `max_hops` links (or already reached). Breadth-first, so the
    /// returned hop is always one link closer to the goal than `from`.
    ///
    /// Where several neighbours are equally close to the goal, the hop is the one through
    /// which the breadth-first search (visiting neighbour lists in link order) first
    /// reached the goal; the contract promises only that it is one of them, so callers
    /// must not rely on which.
    pub fn next_step(&self, from: WalkId, to: WalkId, max_hops: usize) -> (r: Option<WalkId>)
        requires
            self.wf(),
        ensures
            r.is_some() <==> (from != to && (from as int) < self.kinds().len() && (to as int)
                < self.kinds().len() && spec_within(self.adj(), from, to, max_hops as nat)),
            r matches Some(h) ==> spec_edge(self.adj(), from, h) && forall|d: nat|
                #[trigger] spec_dist_is(self.adj(), from, to, d) ==> spec_dist_is(
                    self.adj(),
                    h,
                    to,
                    (d - 1) as nat,
                ),
    {
        let ghost g = self.adj();
        let n = self.kinds.len();
        if from == to || from as usize >= n || to as usize >= n {
            return None;
        }
        let mut prev: Vec<u32> = vec![u32::MAX; n];
        prev.set(from as usize, from);
        let mut frontier: Vec<u32> = vec![from];
        let ghost mut lvl: Seq<nat> = Seq::new(n as nat, |i: int| 0nat);
        let mut hops: usize = 0;
        proof {
            reveal(spec_level);
            reveal(spec_tree);
            assert(spec_marked(prev@) =~= set![from]);
            assert(spec_reach(g, from, 0) == set![from]);
            assert forall|v: u32| #[trigger] spec_marked(prev@).contains(v) implies spec_tree_node(
                g,
                from,
                prev@,
                lvl,
                v,
            ) by {
                assert(v == from);
            }
            assert forall|u: u32, v: u32|
                spec_reach(g, from, 0).contains(u) && !frontier@.contains(u) && #[trigger] spec_edge(
                    g,
                    u,
                    v,
                ) implies spec_reach(g, from, 0).contains(v) by {
                assert(frontier@[0] == from);
            }
        }
        while prev[to as usize] == u32::MAX && hops < max_hops && frontier.len() > 0
            invariant
                self.wf(),
                g == self.adj(),
                n == g.len(),
                from != to,
                (to as int) < n,
                hops <= max_hops,
                prev@.len() == n,
                lvl.len() == n,
                spec_level(g, from, prev@, lvl, frontier@, hops as nat),
            decreases max_hops - hops,
        {
            let (next, Ghost(lvl_next)) = self.grow_level(
                &frontier,
                &mut prev,
                Ghost(from),
                Ghost(hops as nat),
                Ghost(lvl),
            );
            proof {
                lvl = lvl_next;
                lemma_level_facts(g, from, prev@, lvl, next@, (hops + 1) as nat);
            }
            frontier = next;
            hops += 1;
        }
        if prev[to as usize] == u32::MAX {
            proof {
                lemma_level_facts(g, from, prev@, lvl, frontier@, hops as nat);
                if frontier@.len() == 0 {
                    let s = spec_reach(g, from, hops as nat);
                    assert(spec_closed(g, s));
                    assert(s.contains(from));
                    lemma_closed_holds_reach(g, from, s, max_hops as nat);
                } else {
                    assert(hops == max_hops);
                }
            }
            return None;
        }
        proof {
            lemma_level_facts(g, from, prev@, lvl, frontier@, hops as nat);
            lemma_reach_mono(g, from, hops as nat, max_hops as nat);
            reveal(spec_tree);
        }
        // Walk back from the goal to the node whose predecessor is `from`: that is the hop
        // to take now.
        let ghost dist = lvl[to as int];
        let mut cur = to;
        loop
            invariant
                self.wf(),
                g == self.adj(),
                n == g.len(),
                spec_tree(g, from, prev@, lvl),
                spec_marked(prev@).contains(cur),
                spec_marked(prev@).contains(to),
                cur != from,
                dist == lvl[to as int],
                lvl[cur as int] <= dist,
                spec_within(g, cur, to, (dist - lvl[cur as int]) as nat),
                (from as int) < n,
                (to as int) < n,
                spec_within(g, from, to, max_hops as nat),
            decreases lvl[cur as int],
        {
            proof {
                reveal(spec_tree);
            }
            assert(spec_tree_node(g, from, prev@, lvl, cur));
            let p = prev[cur as usize];
            if p == from {
                proof {
                    assert(spec_tree_node(g, from, prev@, lvl, to));
                    assert(lvl[cur as int] == 1);
                    assert forall|d: nat| #[trigger] spec_dist_is(g, from, to, d) implies spec_dist_is(
                        g,
                        cur,
                        to,
                        (d - 1) as nat,
                    ) by {
                        lemma_dist_unique(g, from, to, d, dist);
                        if d >= 2 && spec_within(g, cur, to, (d - 2) as nat) {
                            assert(spec_reach(g, cur, 0).contains(cur));
                            lemma_reach_step(g, from, 0, from, cur);
                            lemma_reach_trans(g, from, cur, to, 1, (d - 2) as nat);
                        }
                    }
                }
                return Some(cur);
            }
            proof {
                assert(spec_marked(prev@).contains(p));
                assert(spec_reach(g, p, 0).contains(p));
                lemma_reach_step(g, p, 0, p, cur);
                lemma_reach_trans(g, p, cur, to, 1, (dist - lvl[cur as int]) as nat);
            }
            cur = p;
        }
    }

    /// Breadth-first hop count from `from` to `to`, capped at `max_depth`.
    pub fn bfs_depth(&self, from: WalkId, to: WalkId, max_depth: usize) -> (r: Option<usize>)
        requires
            self.wf(),
            from == to || (from as int) < self.kinds().len(),
        ensures
            r.is_some() <==> spec_within(self.adj(), from, to, max_depth as nat),
            r matches Some(d) ==> spec_dist_is(self.adj(), from, to, d as nat),
    {
        let ghost g = self.adj();
        if from == to {
            proof {
                assert(spec_reach(g, from, 0).contains(from));
                lemma_reach_mono(g, from, 0, max_depth as nat);
            }
            return Some(0);
        }
        let n = self.kinds.len();
        if to as usize >= n {
            proof {
                if spec_within(g, from, to, max_depth as nat) {
                    lemma_reach_in_graph(g, from, max_depth as nat, to);
                }
            }
            return None;
        }
        let mut prev: Vec<u32> = vec![u32::MAX; n];
        prev.set(from as usize, from);
        let mut frontier: Vec<u32> = vec![from];
        let ghost mut lvl: Seq<nat> = Seq::new(n as nat, |i: int| 0nat);
        let mut depth: usize = 0;
        proof {
            reveal(spec_level);
            reveal(spec_tree);
            assert(spec_marked(prev@) =~= set![from]);
            assert(spec_reach(g, from, 0) == set![from]);
            assert forall|v: u32| #[trigger] spec_marked(prev@).contains(v) implies spec_tree_node(
                g,
                from,
                prev@,
                lvl,
                v,
            ) by {
                assert(v == from);
            }
            assert forall|u: u32, v: u32|
                spec_reach(g, from, 0).contains(u) && !frontier@.contains(u) && #[trigger] spec_edge(
                    g,
                    u,
                    v,
                ) implies spec_reach(g, from, 0).contains(v) by {
                assert(frontier@[0] == from);
            }
        }
        while depth < max_depth
            invariant
                self.wf(),
                g == self.adj(),
                n == g.len(),
                from != to,
                (to as int) < n,
                depth <= max_depth,
                prev@.len() == n,
                lvl.len() == n,
                spec_level(g, from, prev@, lvl, frontier@, depth as nat),
                !spec_reach(g, from, depth as nat).contains(to),
            decreases max_depth - depth,
        {
            let (next, Ghost(lvl_next)) = self.grow_level(
                &frontier,
                &mut prev,
                Ghost(from),
                Ghost(depth as nat),
                Ghost(lvl),
            );
            proof {
                lvl = lvl_next;
                lemma_level_facts(g, from, prev@, lvl, next@, (depth + 1) as nat);
            }
            frontier = next;
            depth += 1;
            if prev[to as usize] != u32::MAX {
                proof {
                    assert(spec_marked(prev@).contains(to));
                    lemma_reach_mono(g, from, depth as nat, max_depth as nat);
                }
                return Some(depth);
            }
            if frontier.len() == 0 {
                proof {
                    let s = spec_reach(g, from, depth as nat);
                    assert(spec_reach(g, from, 0).contains(from));
                    lemma_reach_mono(g, from, 0, depth as nat);
                    lemma_closed_holds_reach(g, from, s, max_depth as nat);
                }
                return None;
            }
        }
        None
    }

    /// Number of nodes that cannot be reached from `from`. Generation asserts this is
    /// zero — the single best smoke test that pedestrians are not trapped inside a block.
    pub fn unreachable_from(&self, from: WalkId) -> (r: usize)
        requires
            self.wf(),
            self.kinds().len() == 0 || (from as int) < self.kinds().len(),
        ensures
            r == spec_unreachable_count(self.adj(), from),
            self.adj().len() == self.kinds().len(),
            r <= self.kinds().len(),
            self.kinds().len() == 0 ==> r == 0,
    {
        let ghost g = self.adj();
        let n = self.kinds.len();
        if n == 0 {
            assert(Seq::new(g.len(), |i: int| spec_reachable(g, from, i as u32)) =~= Seq::<
                bool,
            >::empty());
            return 0;
        }
        let mut seen: Vec<bool> = vec![false; n];
        proof {
            assert(spec_count_true(seen@) == 0) by {
                lemma_count_split(seen@);
                lemma_all_false(seen@);
            }
            lemma_count_true_set(seen@, from as int);
        }
        seen.set(from as usize, true);
        let mut stack: Vec<u32> = vec![from];
        let mut count: usize = 1;
        proof {
            assert(spec_reach(g, from, 0).contains(from));
            assert(spec_within(g, from, from, 0));
            assert forall|v: u32| #[trigger] spec_set_of(seen@).contains(v) implies spec_reachable(
                g,
                from,
                v,
            ) by {
                assert(v == from);
            }
            assert forall|u: u32, v: u32|
                spec_set_of(seen@).contains(u) && !stack@.contains(u) && #[trigger] spec_edge(g, u, v)
                    implies spec_set_of(seen@).contains(v) by {
                assert(u == from);
                assert(stack@[0] == from);
            }
        }
        while stack.len() > 0
            invariant
                self.wf(),
                g == self.adj(),
                n == g.len(),
                (from as int) < n,
                seen@.len() == n,
                count == spec_count_true(seen@),
                seen@[from as int],
                forall|v: u32| #[trigger] spec_set_of(seen@).contains(v) ==> spec_reachable(g, from, v),
                forall|i: int|
                    0 <= i < stack@.len() ==> (#[trigger] stack@[i] as int) < n && seen@[stack@[i] as int],
                forall|u: u32, v: u32|
                    spec_set_of(seen@).contains(u) && !stack@.contains(u) && #[trigger] spec_edge(g, u, v)
                        ==> spec_set_of(seen@).contains(v),
            decreases n - count, stack@.len(),
        {
            proof {
                lemma_count_split(seen@);
            }
            let ghost count0 = count;
            let ghost stack0 = stack@;
            let cur = stack.pop().unwrap();
            assert(cur == stack0.last());
            assert(stack@ =~= stack0.drop_last());
            proof {
                assert forall|u: u32, v: u32|
                    spec_set_of(seen@).contains(u) && !stack@.contains(u) && u != cur
                        && #[trigger] spec_edge(g, u, v) implies spec_set_of(seen@).contains(v) by {
                    if stack0.contains(u) {
                        let i = choose|i: int| 0 <= i < stack0.len() && stack0[i] == u;
                        if i < stack@.len() {
                            assert(stack@[i] == u);
                        }
                    }
                }
            }
            let nbrs = self.neighbours(cur);
            let mut ni: usize = 0;
            while ni < nbrs.len()
                invariant
                    self.wf(),
                    g == self.adj(),
                    n == g.len(),
                    (from as int) < n,
                    (cur as int) < n,
                    nbrs@ == g[cur as int],
                    ni <= nbrs@.len(),
                    seen@.len() == n,
                    seen@[cur as int],
                    count == spec_count_true(seen@),
                    count >= count0,
                    count0 == count ==> stack@.len() < stack0.len(),
                    count <= n,
                    seen@[from as int],
                    forall|v: u32| #[trigger] spec_set_of(seen@).contains(v) ==> spec_reachable(g, from, v),
                    forall|i: int|
                        0 <= i < stack@.len() ==> (#[trigger] stack@[i] as int) < n && seen@[stack@[i] as int],
                    forall|u: u32, v: u32|
                        spec_set_of(seen@).contains(u) && !stack@.contains(u) && u != cur
                            && #[trigger] spec_edge(g, u, v) ==> spec_set_of(seen@).contains(v),
                    forall|j: int| 0 <= j < ni ==> seen@[#[trigger] nbrs@[j] as int],
                decreases nbrs@.len() - ni,
            {
                let nb = nbrs[ni];
                assert(g[cur as int][ni as int] < g.len());
                if !seen[nb as usize] {
                    proof {
                        lemma_count_true_set(seen@, nb as int);
                        lemma_count_split(seen@.update(nb as int, true));
                        assert(spec_set_of(seen@).contains(cur));
                        let k = choose|k: nat| spec_within(g, from, cur, k);
                        assert(spec_edge(g, cur, nb));
                        lemma_reach_step(g, from, k, cur, nb);
                        assert(spec_within(g, from, nb, k + 1));
                        assert(spec_reachable(g, from, nb));
                    }
                    let ghost seen_before = seen@;
                    let ghost stack_before = stack@;
                    seen.set(nb as usize, true);
                    stack.push(nb);
                    count += 1;
                    proof {
                        assert forall|v: u32| #[trigger] spec_set_of(seen@).contains(v) implies spec_reachable(
                            g,
                            from,
                            v,
                        ) by {
                            if v != nb {
                                assert(spec_set_of(seen_before).contains(v));
                            }
                        }
                        assert forall|i: int| 0 <= i < stack@.len() implies (#[trigger] stack@[i] as int)
                            < n && seen@[stack@[i] as int] by {
                            if i < stack_before.len() {
                                assert(stack@[i] == stack_before[i]);
                            }
                        }
                        assert forall|u: u32, v: u32|
                            spec_set_of(seen@).contains(u) && !stack@.contains(u) && u != cur
                                && #[trigger] spec_edge(g, u, v) implies spec_set_of(seen@).contains(v) by {
                            assert(u != nb) by {
                                assert(stack@[stack@.len() - 1] == nb);
                            }
                            assert(spec_set_of(seen_before).contains(u));
                            if stack_before.contains(u) {
                                let i = choose|i: int| 0 <= i < stack_before.len() && stack_before[i] == u;
                                assert(stack@[i] == u);
                            }
                        }
                    }
                }
                ni += 1;
            }
            proof {
                assert forall|u: u32, v: u32|
                    spec_set_of(seen@).contains(u) && !stack@.contains(u) && #[trigger] spec_edge(g, u, v)
                        implies spec_set_of(seen@).contains(v) by {
                    if u == cur {
                        let j = choose|j: int| 0 <= j < nbrs@.len() && nbrs@[j] == v;
                        assert(seen@[nbrs@[j] as int]);
                    }
                }
            }
        }
        proof {
            let s = spec_set_of(seen@);
            assert(spec_closed(g, s));
            let target = Seq::new(g.len(), |i: int| spec_reachable(g, from, i as u32));
            assert forall|i: int| 0 <= i < n implies seen@[i] == target[i] by {
                let v = i as u32;
                assert(v as int == i);
                if spec_reachable(g, from, v) {
                    let k = choose|k: nat| spec_within(g, from, v, k);
                    lemma_closed_holds_reach(g, from, s, k);
                    assert(s.contains(v));
                } else {
                    if seen@[i] {
                        assert(s.contains(v));
                    }
                }
            }
            assert(seen@ =~= target);
            lemma_count_split(seen@);
        }
        n - count
    }

    /// Wires `ids` into a closed loop in the given order. Used for sidewalk rings, where
    /// the caller already holds the points in walk order.
    pub fn link_ring(&mut self, ids: &[WalkId])
        requires
            old(self).wf(),
        ensures
            final(self).wf(),
            final(self).kinds() == old(self).kinds(),
            final(self).adj() == spec_link_all(old(self).adj(), spec_ring_pairs(ids@)),
            final(self).adj().len() == final(self).kinds().len(),
            spec_wf_adj(final(self).adj()),
            forall|u: u32, v: u32|
                #[trigger] spec_edge(final(self).adj(), u, v) <==> spec_edge(old(self).adj(), u, v)
                    || (ids@.len() >= 2 && u != v && (u as int) < old(self).adj().len() && (v as int)
                    < old(self).adj().len() && ((exists|k: int|
                    0 <= k < ids@.len() - 1 && ((#[trigger] ids@[k] == u && ids@[k + 1] == v) || (
                    ids@[k] == v && ids@[k + 1] == u))) || (ids@[0] == u && ids@[ids@.len() - 1]
                    == v) || (ids@[0] == v && ids@[ids@.len() - 1] == u))),
    {
        let ghost g = self.adj();
        let ghost pairs = spec_ring_pairs(ids@);
        proof {
            lemma_ring_exact(g, ids@);
        }
        if ids.len() < 2 {
            assert(pairs.len() == 0);
            assert(self.adj() == spec_link_all(g, pairs));
            return;
        }
        let mut k: usize = 0;
        while k < ids.len() - 1
            invariant
                ids@.len() >= 2,
                k + 1 <= ids@.len(),
                self.wf(),
                self.kinds() == old(self).kinds(),
                g == old(self).adj(),
                pairs == spec_ring_pairs(ids@),
                self.adj() == spec_link_all(g, pairs.take(k as int)),
            decreases ids@.len() - k,
        {
            assert(pairs.take(k + 1).drop_last() =~= pairs.take(k as int));
            self.link(ids[k], ids[k + 1]);
            k += 1;
        }
        assert(pairs.take(k as int).push(pairs.last()) =~= pairs);
        assert(pairs.drop_last() =~= pairs.take(k as int));
        let first = ids[0];
        let last = ids[ids.len() - 1];
        self.link(first, last);
        proof {
            lemma_ring_exact(g, ids@);
        }
        assert(self.adj() == spec_link_all(g, pairs));
    }
}

/// Sum of neighbour-list lengths over a prefix grows by the next list's length.
proof fn lemma_degree_sum_prefix(g: Seq<Seq<u32>>, i: int)
    requires
        0 < i <= g.len(),
    ensures
        spec_degree_sum(g.take(i)) == spec_degree_sum(g.take(i - 1)) + g[i - 1].len(),
        spec_degree_sum(g.take(i)) <= spec_degree_sum(g),
    decreases g.len() - i,
{
    assert(g.take(i).drop_last() =~= g.take(i - 1));
    if i < g.len() {
        lemma_degree_sum_prefix(g, i + 1);
    } else {
        assert(g.take(i) =~= g);
    }
}

/// Whether `list` holds `x`.
fn lists(list: &Vec<u32>, x: u32) -> (r: bool)
    ensures
        r == list@.contains(x),
{
    let mut i: usize = 0;
    while i < list.len()
        invariant
            i <= list@.len(),
            forall|k: int| 0 <= k < i ==> list@[k] != x,
        decreases list@.len() - i,
    {
        if list[i] == x {
            return true;
        }
        i += 1;
    }
    false
}

} // verus!
