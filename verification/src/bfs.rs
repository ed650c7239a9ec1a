//! Breadth-first search: level-order traversal that returns the first goal
//! found, with parent-pointer bookkeeping for path reconstruction and a
//! max-frontier-size statistic.
//!
//! Parent recording uses first-discovery semantics: a node's parent is set
//! exactly when the node is first discovered, and a later re-encounter never
//! overwrites it (in particular the root never gets a parent). That choice
//! keeps the parent map an acyclic tree whose depths are the true BFS
//! levels, which is what makes the reconstructed path a minimum-edge-count
//! root-to-goal path.

use vstd::prelude::*;

use core::marker::PhantomData;
use std::collections::HashMap;
use std::collections::HashSet;
use std::collections::VecDeque;

use crate::graph::Graph;
use crate::graph::edge;
use crate::graph::found_path_ok;
use crate::graph::lemma_closed_set_covers_path;
use crate::graph::lemma_distinct_seq_len_le_set;
use crate::graph::lemma_path_push;
use crate::graph::path_between;
use crate::graph::reaches;
use crate::graphsearcher::GraphSearcher;

verus! {

broadcast use vstd::std_specs::hash::group_hash_axioms;

/// The backward walk through a parent map, as a sequence read root first:
/// the chain of `x` is the chain of its parent followed by `x`, stopping
/// after at most `fuel` steps or at a node with no recorded parent.
pub open spec fn chain(pm: Map<usize, usize>, x: usize, fuel: nat) -> Seq<usize>
    decreases fuel,
{
    if fuel > 0 && pm.dom().contains(x) {
        chain(pm, pm[x], (fuel - 1) as nat).push(x)
    } else {
        seq![x]
    }
}

/// A chain is never empty and always ends at its argument.
proof fn lemma_chain_last(pm: Map<usize, usize>, x: usize, fuel: nat)
    ensures
        chain(pm, x, fuel).len() >= 1,
        chain(pm, x, fuel).last() == x,
    decreases fuel,
{
    if fuel > 0 && pm.dom().contains(x) {
        lemma_chain_last(pm, pm[x], (fuel - 1) as nat);
    }
}

/// The parent map is a tree rooted at `root`, with `dm` giving each node's
/// depth: a recorded parent sits one level up and is itself the root or has
/// a recorded parent.
spec fn parent_tree_ok<G: Graph>(
    g: G,
    pm: Map<usize, usize>,
    dm: Map<usize, nat>,
    root: usize,
) -> bool {
    &&& !pm.dom().contains(root)
    &&& dm.dom().contains(root)
    &&& dm[root] == 0
    &&& forall|c: usize| #[trigger] pm.dom().contains(c) ==> {
        &&& edge(g, pm[c], c)
        &&& dm.dom().contains(c)
        &&& dm.dom().contains(pm[c])
        &&& dm[c] == dm[pm[c]] + 1
        &&& (pm[c] == root || pm.dom().contains(pm[c]))
    }
}

/// In a well-formed parent tree, the chain of `s` (given enough fuel) is a
/// root-to-`s` path whose `j`-th node sits at depth `j`, so its length is
/// `s`'s depth plus one.
proof fn lemma_chain_path<G: Graph>(
    g: G,
    pm: Map<usize, usize>,
    dm: Map<usize, nat>,
    root: usize,
    s: usize,
    fuel: nat,
)
    requires
        parent_tree_ok(g, pm, dm, root),
        s == root || pm.dom().contains(s),
        fuel >= dm[s],
    ensures
        path_between(g, chain(pm, s, fuel), root, s),
        chain(pm, s, fuel).len() == dm[s] + 1,
        forall|j: int|
            0 <= j < chain(pm, s, fuel).len() ==> dm.dom().contains(
                #[trigger] chain(pm, s, fuel)[j],
            ) && dm[chain(pm, s, fuel)[j]] == j && (chain(pm, s, fuel)[j] == root
                || pm.dom().contains(chain(pm, s, fuel)[j])),
    decreases dm[s],
{
    if s == root {
        assert(chain(pm, s, fuel) =~= seq![root]);
    } else {
        let par = pm[s];
        lemma_chain_path(g, pm, dm, root, par, (fuel - 1) as nat);
        let sub = chain(pm, par, (fuel - 1) as nat);
        lemma_chain_last(pm, par, (fuel - 1) as nat);
        let ch = chain(pm, s, fuel);
        assert(ch == sub.push(s));
        lemma_path_push(g, sub, root, par, s);
    }
}

/// Chains are insensitive to extra fuel: any amount at or above the node's
/// depth yields the same sequence.
proof fn lemma_chain_fuel<G: Graph>(
    g: G,
    pm: Map<usize, usize>,
    dm: Map<usize, nat>,
    root: usize,
    s: usize,
    f1: nat,
    f2: nat,
)
    requires
        parent_tree_ok(g, pm, dm, root),
        s == root || pm.dom().contains(s),
        f1 >= dm[s],
        f2 >= dm[s],
    ensures
        chain(pm, s, f1) == chain(pm, s, f2),
    decreases dm[s],
{
    if s == root {
    } else {
        lemma_chain_fuel(g, pm, dm, root, pm[s], (f1 - 1) as nat, (f2 - 1) as nat);
    }
}

/// In a well-formed parent tree the depth of any recorded node is bounded by
/// the number of recorded parents, so that much fuel always suffices.
proof fn lemma_depth_le_tree_size<G: Graph>(
    g: G,
    pm: Map<usize, usize>,
    dm: Map<usize, nat>,
    root: usize,
    s: usize,
)
    requires
        parent_tree_ok(g, pm, dm, root),
        s == root || pm.dom().contains(s),
        pm.dom().finite(),
    ensures
        dm[s] <= pm.dom().len(),
{
    lemma_chain_path(g, pm, dm, root, s, dm[s]);
    let ch = chain(pm, s, dm[s]);
    let tail = ch.drop_first();
    assert(tail.no_duplicates()) by {
        assert forall|i: int, j: int|
            0 <= i < tail.len() && 0 <= j < tail.len() && i != j implies tail[i] != tail[j] by {
            assert(dm[ch[i + 1]] == i + 1);
            assert(dm[ch[j + 1]] == j + 1);
        }
    }
    assert forall|j: int| 0 <= j < tail.len() implies pm.dom().contains(#[trigger] tail[j]) by {
        assert(dm[ch[j + 1]] == j + 1);
        assert(ch[j + 1] == root || pm.dom().contains(ch[j + 1]));
        assert(dm[root] == 0);
    }
    lemma_distinct_seq_len_le_set(tail, pm.dom());
}

/// Every visited node carries a witness path of exactly its recorded depth.
spec fn inv_ub<G: Graph>(g: G, root: usize, vis: Set<usize>, dm: Map<usize, nat>) -> bool {
    forall|v: usize| #[trigger]
        vis.contains(v) ==> exists|p: Seq<usize>|
            path_between(g, p, root, v) && p.len() == dm[v] + 1
}

/// No path to a visited node is shorter than its recorded depth.
spec fn inv_lb<G: Graph>(g: G, root: usize, vis: Set<usize>, dm: Map<usize, nat>) -> bool {
    forall|v: usize, p: Seq<usize>|
        vis.contains(v) && #[trigger] path_between(g, p, root, v) ==> p.len() >= dm[v] + 1
}

/// Every successor of `u` is visited, at most one level deeper.
spec fn succ_closed<G: Graph>(g: G, vis: Set<usize>, dm: Map<usize, nat>, u: usize) -> bool {
    forall|c: usize| #[trigger] edge(g, u, c) ==> vis.contains(c) && dm[c] <= dm[u] + 1
}

/// Every visited node is still in the frontier queue, or is `extra` (the
/// node whose successors are being expanded), or is fully processed: no goal
/// and all successors visited one level down at most.
spec fn bfs_closed_except<G: Graph>(
    g: G,
    vis: Set<usize>,
    q: Seq<usize>,
    dm: Map<usize, nat>,
    extra: usize,
) -> bool {
    forall|u: usize| #[trigger]
        vis.contains(u) ==> u == extra || q.contains(u) || (!g.goal(u) && succ_closed(
            g,
            vis,
            dm,
            u,
        ))
}

/// Every visited node is in the frontier queue or fully processed.
spec fn bfs_closed<G: Graph>(g: G, vis: Set<usize>, q: Seq<usize>, dm: Map<usize, nat>) -> bool {
    forall|u: usize| #[trigger]
        vis.contains(u) ==> q.contains(u) || (!g.goal(u) && succ_closed(g, vis, dm, u))
}

/// The queue holds visited nodes whose depths are sorted and lie within one
/// level of each other.
spec fn queue_ok<G: Graph>(g: G, vis: Set<usize>, q: Seq<usize>, dm: Map<usize, nat>) -> bool {
    &&& forall|i: int| 0 <= i < q.len() ==> vis.contains(#[trigger] q[i])
    &&& forall|i: int, j: int|
        0 <= i <= j < q.len() ==> dm[#[trigger] q[i]] <= dm[#[trigger] q[j]] && dm[q[j]] <= dm[q[i]]
            + 1
}

/// Any path from the root that leaves the visited set must first cross a
/// node that is still in the queue (or is the node under expansion), no
/// deeper than its position on the path.
proof fn lemma_escape<G: Graph>(
    g: G,
    root: usize,
    vis: Set<usize>,
    qs: Seq<usize>,
    dm: Map<usize, nat>,
    extra: usize,
    p: Seq<usize>,
    m: usize,
)
    requires
        vis.contains(root),
        inv_lb(g, root, vis, dm),
        bfs_closed_except(g, vis, qs, dm, extra),
        path_between(g, p, root, m),
        !vis.contains(m),
    ensures
        exists|i: int|
            0 <= i <= p.len() - 2 && (qs.contains(#[trigger] p[i]) || p[i] == extra)
                && vis.contains(p[i]) && dm[p[i]] <= i,
    decreases p.len(),
{
    let last2 = p[p.len() - 2];
    let p2 = p.drop_last();
    assert(path_between(g, p2, root, last2)) by {
        assert(forall|i: int| 0 <= i < p2.len() - 1 ==> edge(g, #[trigger] p2[i], p2[i + 1]));
    }
    if !vis.contains(last2) {
        lemma_escape(g, root, vis, qs, dm, extra, p2, last2);
        let i = choose|i: int|
            0 <= i <= p2.len() - 2 && (qs.contains(#[trigger] p2[i]) || p2[i] == extra)
                && vis.contains(p2[i]) && dm[p2[i]] <= i;
        assert(p[i] == p2[i]);
        assert(0 <= i <= p.len() - 2 && (qs.contains(p[i]) || p[i] == extra) && vis.contains(p[i])
            && dm[p[i]] <= i);
    } else {
        assert(p2.len() >= dm[last2] + 1);
        if qs.contains(last2) || last2 == extra {
            let i = p.len() - 2;
            assert(0 <= i <= p.len() - 2 && (qs.contains(p[i]) || p[i] == extra) && vis.contains(
                p[i],
            ) && dm[p[i]] <= i);
        } else {
            assert(edge(g, last2, m));
            assert(vis.contains(m));
        }
    }
}

/// What holds when the node at the head of the queue is a goal: the chain
/// recorded for it is a root-to-goal path, no root-to-goal path is shorter,
/// every visited node is reachable, and a goal root is found as the root.
proof fn lemma_goal_found<G: Graph>(
    g: G,
    root: usize,
    vis: Set<usize>,
    q0: Seq<usize>,
    dm: Map<usize, nat>,
    pm: Map<usize, usize>,
    n: usize,
)
    requires
        vis.finite(),
        vis.contains(root),
        dm.dom() == vis,
        parent_tree_ok(g, pm, dm, root),
        pm.dom() == vis.remove(root),
        inv_ub(g, root, vis, dm),
        inv_lb(g, root, vis, dm),
        queue_ok(g, vis, q0, dm),
        bfs_closed(g, vis, q0, dm),
        q0.len() >= 1,
        q0[0] == n,
        g.goal(n),
    ensures
        vis.contains(n),
        path_between(g, chain(pm, n, pm.dom().len()), root, n),
        chain(pm, n, pm.dom().len()).len() == dm[n] + 1,
        forall|qq: Seq<usize>, m: usize|
            #[trigger] path_between(g, qq, root, m) && g.goal(m) ==> qq.len() >= dm[n] + 1,
        forall|v: usize| #[trigger] vis.contains(v) ==> reaches(g, root, v),
        g.goal(root) ==> n == root,
{
    assert(vis.contains(n));
    assert(pm.dom().finite());
    assert(n == root || pm.dom().contains(n));
    lemma_depth_le_tree_size(g, pm, dm, root, n);
    lemma_chain_path(g, pm, dm, root, n, dm[n]);
    lemma_chain_fuel(g, pm, dm, root, n, dm[n], pm.dom().len());
    assert(bfs_closed_except(g, vis, q0, dm, n)) by {
        assert forall|u: usize| #[trigger]
            vis.contains(u) implies u == n || q0.contains(u) || (!g.goal(u) && succ_closed(
            g,
            vis,
            dm,
            u,
        )) by {
            assert(q0.contains(u) || (!g.goal(u) && succ_closed(g, vis, dm, u)));
        }
    }
    assert forall|qq: Seq<usize>, m: usize|
        #[trigger] path_between(g, qq, root, m) && g.goal(m) implies qq.len() >= dm[n] + 1 by {
        if vis.contains(m) {
            assert(q0.contains(m));
            let idx = choose|idx: int| 0 <= idx < q0.len() && q0[idx] == m;
            assert(dm[q0[0]] <= dm[q0[idx]]);
            assert(qq.len() >= dm[m] + 1);
        } else {
            lemma_escape(g, root, vis, q0, dm, n, qq, m);
            let i = choose|i: int|
                0 <= i <= qq.len() - 2 && (q0.contains(#[trigger] qq[i]) || qq[i] == n)
                    && vis.contains(qq[i]) && dm[qq[i]] <= i;
            if q0.contains(qq[i]) {
                let idx = choose|idx: int| 0 <= idx < q0.len() && q0[idx] == qq[i];
                assert(dm[q0[0]] <= dm[q0[idx]]);
            }
        }
    }
    assert forall|v: usize| #[trigger] vis.contains(v) implies reaches(g, root, v) by {
        let p = choose|p: Seq<usize>| path_between(g, p, root, v) && p.len() == dm[v] + 1;
        assert(path_between(g, p, root, v));
    }
    if g.goal(root) {
        assert(q0.contains(root));
        let idx = choose|idx: int| 0 <= idx < q0.len() && q0[idx] == root;
        assert(dm[q0[0]] <= dm[q0[idx]]);
        assert(dm[n] == 0);
        if n != root {
            assert(pm.dom().contains(n));
            assert(dm[n] == dm[pm[n]] + 1);
        }
    }
}

/// What holds when the queue runs dry: the visited set is exactly the set of
/// reachable nodes and none of them is a goal.
proof fn lemma_exhausted<G: Graph>(
    g: G,
    root: usize,
    vis: Set<usize>,
    q: Seq<usize>,
    dm: Map<usize, nat>,
)
    requires
        vis.contains(root),
        inv_ub(g, root, vis, dm),
        bfs_closed(g, vis, q, dm),
        q.len() == 0,
    ensures
        forall|m: usize| #[trigger] reaches(g, root, m) ==> vis.contains(m) && !g.goal(m),
        forall|v: usize| #[trigger] vis.contains(v) ==> reaches(g, root, v) && !g.goal(v),
{
    assert forall|u: usize, c: usize| vis.contains(u) && edge(g, u, c) implies vis.contains(c) by {
        assert(!q.contains(u));
        assert(succ_closed(g, vis, dm, u));
    }
    assert forall|v: usize| #[trigger] vis.contains(v) implies reaches(g, root, v) && !g.goal(
        v,
    ) by {
        let p = choose|p: Seq<usize>| path_between(g, p, root, v) && p.len() == dm[v] + 1;
        assert(path_between(g, p, root, v));
        assert(!q.contains(v));
    }
    assert forall|m: usize| #[trigger] reaches(g, root, m) implies vis.contains(m) && !g.goal(
        m,
    ) by {
        let p = choose|p: Seq<usize>| path_between(g, p, root, m);
        lemma_closed_set_covers_path(g, root, vis, p, m);
    }
}

/// A newly discovered successor of the node under expansion sits exactly one
/// level below it: there is a root path of that length and none shorter.
proof fn lemma_discover<G: Graph>(
    g: G,
    root: usize,
    vis: Set<usize>,
    q: Seq<usize>,
    dm: Map<usize, nat>,
    n: usize,
    c: usize,
    d: nat,
)
    requires
        vis.contains(root),
        vis.contains(n),
        !vis.contains(c),
        dm.dom() == vis,
        dm[n] == d,
        inv_ub(g, root, vis, dm),
        inv_lb(g, root, vis, dm),
        forall|i: int| 0 <= i < q.len() ==> vis.contains(#[trigger] q[i]) && d <= dm[q[i]],
        bfs_closed_except(g, vis, q, dm, n),
        edge(g, n, c),
    ensures
        forall|p: Seq<usize>| #[trigger] path_between(g, p, root, c) ==> p.len() >= d + 2,
        exists|p: Seq<usize>| path_between(g, p, root, c) && p.len() == d + 2,
{
    assert forall|p: Seq<usize>| #[trigger] path_between(g, p, root, c) implies p.len() >= d
        + 2 by {
        lemma_escape(g, root, vis, q, dm, n, p, c);
        let i = choose|i: int|
            0 <= i <= p.len() - 2 && (q.contains(#[trigger] p[i]) || p[i] == n) && vis.contains(
                p[i],
            ) && dm[p[i]] <= i;
        if q.contains(p[i]) {
            let idx = choose|idx: int| 0 <= idx < q.len() && q[idx] == p[i];
            assert(d <= dm[q[idx]]);
        }
    }
    let pn = choose|p: Seq<usize>| path_between(g, p, root, n) && p.len() == dm[n] + 1;
    lemma_path_push(g, pn, root, n, c);
    assert(path_between(g, pn.push(c), root, c) && pn.push(c).len() == d + 2);
}

/// Recording a newly discovered node re-establishes every loop fact: the
/// parent tree, the exact-depth bounds, the queue ordering and the closure.
proof fn lemma_insert_child<G: Graph>(
    g: G,
    root: usize,
    vis: Set<usize>,
    q: Seq<usize>,
    dm: Map<usize, nat>,
    pm: Map<usize, usize>,
    n: usize,
    c: usize,
    d: nat,
)
    requires
        vis.contains(root),
        vis.contains(n),
        !vis.contains(c),
        dm.dom() == vis,
        dm[n] == d,
        parent_tree_ok(g, pm, dm, root),
        pm.dom() == vis.remove(root),
        inv_ub(g, root, vis, dm),
        inv_lb(g, root, vis, dm),
        queue_ok(g, vis, q, dm),
        forall|i: int| 0 <= i < q.len() ==> d <= dm[#[trigger] q[i]] && dm[q[i]] <= d + 1,
        bfs_closed_except(g, vis, q, dm, n),
        edge(g, n, c),
        forall|p: Seq<usize>| #[trigger] path_between(g, p, root, c) ==> p.len() >= d + 2,
        exists|p: Seq<usize>| path_between(g, p, root, c) && p.len() == d + 2,
    ensures
        ({
            let vis2 = vis.insert(c);
            let dm2 = dm.insert(c, (d + 1) as nat);
            let pm2 = pm.insert(c, n);
            let q2 = q.push(c);
            &&& dm2.dom() == vis2
            &&& parent_tree_ok(g, pm2, dm2, root)
            &&& pm2.dom() == vis2.remove(root)
            &&& inv_ub(g, root, vis2, dm2)
            &&& inv_lb(g, root, vis2, dm2)
            &&& queue_ok(g, vis2, q2, dm2)
            &&& forall|i: int| 0 <= i < q2.len() ==> d <= dm2[#[trigger] q2[i]] && dm2[q2[i]] <= d + 1
            &&& bfs_closed_except(g, vis2, q2, dm2, n)
        }),
{
    let vis2 = vis.insert(c);
    let dm2 = dm.insert(c, (d + 1) as nat);
    let pm2 = pm.insert(c, n);
    let q2 = q.push(c);
    assert(c != root);
    assert(dm2.dom() =~= vis2);
    assert(pm2.dom() =~= vis2.remove(root));
    assert(parent_tree_ok(g, pm2, dm2, root)) by {
        assert forall|x: usize| #[trigger] pm2.dom().contains(x) implies {
            &&& edge(g, pm2[x], x)
            &&& dm2.dom().contains(x)
            &&& dm2.dom().contains(pm2[x])
            &&& dm2[x] == dm2[pm2[x]] + 1
            &&& (pm2[x] == root || pm2.dom().contains(pm2[x]))
        } by {
            if x != c {
                assert(pm.dom().contains(x));
                assert(pm2[x] == pm[x]);
                assert(pm[x] != c) by {
                    assert(pm[x] == root || pm.dom().contains(pm[x]));
                }
            }
        }
    }
    assert(inv_ub(g, root, vis2, dm2)) by {
        assert forall|v: usize| #[trigger] vis2.contains(v) implies exists|p: Seq<usize>|
            path_between(g, p, root, v) && p.len() == dm2[v] + 1 by {
            if v == c {
                let pc = choose|p: Seq<usize>| path_between(g, p, root, c) && p.len() == d + 2;
                assert(path_between(g, pc, root, v) && pc.len() == dm2[v] + 1);
            } else {
                assert(vis.contains(v));
                let p = choose|p: Seq<usize>| path_between(g, p, root, v) && p.len() == dm[v] + 1;
                assert(path_between(g, p, root, v) && p.len() == dm2[v] + 1);
            }
        }
    }
    assert(inv_lb(g, root, vis2, dm2)) by {
        assert forall|v: usize, p: Seq<usize>|
            vis2.contains(v) && #[trigger] path_between(g, p, root, v) implies p.len() >= dm2[v]
            + 1 by {
            if v != c {
                assert(vis.contains(v));
            }
        }
    }
    assert(queue_ok(g, vis2, q2, dm2) && (forall|i: int|
        0 <= i < q2.len() ==> d <= dm2[#[trigger] q2[i]] && dm2[q2[i]] <= d + 1)) by {
        assert forall|i: int| 0 <= i < q2.len() implies vis2.contains(#[trigger] q2[i]) && d
            <= dm2[q2[i]] && dm2[q2[i]] <= d + 1 by {
            if i < q.len() {
                assert(q2[i] == q[i]);
                assert(vis.contains(q[i]));
                assert(q[i] != c);
            }
        }
    }
    assert(bfs_closed_except(g, vis2, q2, dm2, n)) by {
        assert forall|u: usize| #[trigger] vis2.contains(u) implies u == n || q2.contains(u) || (
        !g.goal(u) && succ_closed(g, vis2, dm2, u)) by {
            if u == c {
                assert(q2[q2.len() - 1] == c);
                assert(q2.contains(c));
            } else if u != n {
                assert(vis.contains(u));
                if q.contains(u) {
                    let idx = choose|idx: int| 0 <= idx < q.len() && q[idx] == u;
                    assert(q2[idx] == u);
                    assert(q2.contains(u));
                } else {
                    assert(!g.goal(u) && succ_closed(g, vis, dm, u));
                    assert(u != c);
                    assert forall|cc: usize| #[trigger] edge(g, u, cc) implies vis2.contains(cc)
                        && dm2[cc] <= dm2[u] + 1 by {
                        assert(vis.contains(cc));
                        assert(cc != c);
                    }
                }
            }
        }
    }
}

/// An already-visited successor of the node under expansion is recorded at
/// most one level below it.
proof fn lemma_revisit<G: Graph>(
    g: G,
    root: usize,
    vis: Set<usize>,
    dm: Map<usize, nat>,
    n: usize,
    c: usize,
)
    requires
        vis.contains(n),
        vis.contains(c),
        inv_ub(g, root, vis, dm),
        inv_lb(g, root, vis, dm),
        edge(g, n, c),
    ensures
        dm[c] <= dm[n] + 1,
{
    let pn = choose|p: Seq<usize>| path_between(g, p, root, n) && p.len() == dm[n] + 1;
    lemma_path_push(g, pn, root, n, c);
    assert(path_between(g, pn.push(c), root, c));
    assert(pn.push(c).len() >= dm[c] + 1);
}

/// Breadth-first search over a graph `G`, with a visited set, a parent map
/// for path reconstruction, the recorded solution, and the largest frontier
/// size seen. Single-use: one instrumented run per instance.
pub struct BFS<G: Graph> {
    visited: HashSet<usize>,
    parents: HashMap<usize, usize>,
    solution: Option<usize>,
    max_frontier: usize,
    marker: PhantomData<G>,
}

impl<G: Graph> BFS<G> {
    /// Makes a fresh searcher: nothing visited, no parents, no solution, and
    /// a frontier statistic of one.
    pub fn new() -> (r: Self)
        ensures
            r.fresh(),
            r.visited_set() == Set::<usize>::empty(),
            r.solution_spec() is None,
            r.path_spec() is None,
            r.frontier_stat() == 1,
    {
        Self {
            visited: HashSet::new(),
            parents: HashMap::new(),
            solution: None,
            max_frontier: 1,
            marker: PhantomData,
        }
    }

    /// The largest frontier-queue size observed across the run; one before
    /// any run.
    pub fn max_frontier(&self) -> (m: usize)
        ensures
            m == self.frontier_stat(),
    {
        self.max_frontier
    }

    /// Adds a node to the visited set.
    fn mark_visited(&mut self, node: usize)
        ensures
            final(self).visited@ == old(self).visited@.insert(node),
            final(self).parents@ == old(self).parents@,
            final(self).solution == old(self).solution,
            final(self).max_frontier == old(self).max_frontier,
    {
        self.visited.insert(node);
    }
}

impl<G: Graph> Default for BFS<G> {
    /// A fresh searcher, as `new` makes it.
    fn default() -> (r: Self)
        ensures
            r.fresh(),
    {
        Self::new()
    }
}

impl<G: Graph> GraphSearcher<G> for BFS<G> {
    closed spec fn visited_set(&self) -> Set<usize> {
        self.visited@
    }

    closed spec fn solution_spec(&self) -> Option<usize> {
        self.solution
    }

    closed spec fn path_spec(&self) -> Option<Seq<usize>> {
        match self.solution {
            Option::None => Option::None,
            Option::Some(s) => Option::Some(chain(self.parents@, s, self.parents@.dom().len())),
        }
    }

    closed spec fn frontier_stat(&self) -> nat {
        self.max_frontier as nat
    }

    closed spec fn fresh(&self) -> bool {
        &&& self.visited@ == Set::<usize>::empty()
        &&& self.parents@ == Map::<usize, usize>::empty()
        &&& self.solution is None
        &&& self.max_frontier == 1
    }

    fn search_tracked(&mut self, graph: &G, root: usize) -> (found: Option<usize>) {
        let ghost g = *graph;
        let mut queue: VecDeque<usize> = VecDeque::new();
        self.mark_visited(root);
        queue.push_back(root);
        let ghost mut dm: Map<usize, nat> = Map::<usize, nat>::empty().insert(root, 0nat);
        proof {
            assert(self.visited@ =~= Set::<usize>::empty().insert(root));
            assert(dm.dom() =~= self.visited@);
            assert(self.parents@.dom() =~= self.visited@.remove(root));
            assert(path_between(g, seq![root], root, root));
            assert(inv_ub(g, root, self.visited@, dm)) by {
                assert forall|v: usize| #[trigger] self.visited@.contains(v) implies exists|
                    p: Seq<usize>,
                |
                    path_between(g, p, root, v) && p.len() == dm[v] + 1 by {
                    assert(path_between(g, seq![root], root, v) && seq![root].len() == dm[v] + 1);
                }
            }
        }
        while queue.len() != 0
            invariant
                g == *graph,
                self.visited@.finite(),
                self.visited@.len() <= usize::MAX,
                self.visited@.contains(root),
                dm.dom() == self.visited@,
                parent_tree_ok(g, self.parents@, dm, root),
                self.parents@.dom() == self.visited@.remove(root),
                inv_ub(g, root, self.visited@, dm),
                inv_lb(g, root, self.visited@, dm),
                queue_ok(g, self.visited@, queue@, dm),
                bfs_closed(g, self.visited@, queue@, dm),
                self.solution is None,
                self.max_frontier >= 1,
                self.max_frontier as nat >= old(self).frontier_stat(),
                g.goal(root) ==> self.visited@ == Set::<usize>::empty().insert(root) && queue@
                    =~= seq![root] && self.parents@ == Map::<usize, usize>::empty(),
            decreases usize::MAX + 1 - self.visited@.len(), queue@.len(),
        {
            let ghost q0 = queue@;
            let n = queue.pop_front().unwrap();
            let ghost d = dm[n];
            if graph.is_goal(n) {
                self.solution = Some(n);
                proof {
                    lemma_goal_found(g, root, self.visited@, q0, dm, self.parents@, n);
                    if g.goal(root) {
                        assert(chain(self.parents@, root, self.parents@.dom().len())
                            =~= seq![root]);
                    }
                }
                return Some(n);
            }
            let cs = graph.children(n);
            let ghost vis0 = self.visited@;
            let ghost q0len = queue@.len();
            let mut j: usize = 0;
            proof {
                assert(!g.goal(root) || n == root);
                assert forall|i: int| 0 <= i < queue@.len() implies d <= dm[#[trigger] queue@[i]]
                    && dm[queue@[i]] <= d + 1 by {
                    assert(queue@[i] == q0[i + 1]);
                    assert(dm[q0[0]] <= dm[q0[i + 1]] && dm[q0[i + 1]] <= dm[q0[0]] + 1);
                }
                assert(bfs_closed_except(g, self.visited@, queue@, dm, n)) by {
                    assert forall|u: usize| #[trigger] self.visited@.contains(u) implies u == n
                        || queue@.contains(u) || (!g.goal(u) && succ_closed(
                        g,
                        self.visited@,
                        dm,
                        u,
                    )) by {
                        if u != n && q0.contains(u) {
                            let idx = choose|idx: int| 0 <= idx < q0.len() && q0[idx] == u;
                            if idx == 0 {
                                assert(u == n);
                            } else {
                                assert(queue@[idx - 1] == u);
                                assert(queue@.contains(u));
                            }
                        }
                    }
                }
            }
            while j < cs.len()
                invariant
                    g == *graph,
                    0 <= j <= cs@.len(),
                    cs@ == g.succ(n),
                    !g.goal(n),
                    !g.goal(root),
                    self.visited@.finite(),
                    self.visited@.len() <= usize::MAX,
                    self.visited@.contains(root),
                    self.visited@.contains(n),
                    dm[n] == d,
                    dm.dom() == self.visited@,
                    parent_tree_ok(g, self.parents@, dm, root),
                    self.parents@.dom() == self.visited@.remove(root),
                    inv_ub(g, root, self.visited@, dm),
                    inv_lb(g, root, self.visited@, dm),
                    queue_ok(g, self.visited@, queue@, dm),
                    forall|i: int|
                        0 <= i < queue@.len() ==> d <= dm[#[trigger] queue@[i]] && dm[queue@[i]]
                            <= d + 1,
                    bfs_closed_except(g, self.visited@, queue@, dm, n),
                    forall|k: int|
                        0 <= k < j ==> self.visited@.contains(#[trigger] cs@[k]) && dm[cs@[k]] <= d
                            + 1,
                    self.visited@.len() - vis0.len() == queue@.len() - q0len,
                    queue@.len() >= q0len,
                    self.solution is None,
                    self.max_frontier >= 1,
                    self.max_frontier as nat >= old(self).frontier_stat(),
                decreases cs@.len() - j,
            {
                let c = cs[j];
                proof {
                    assert(g.succ(n)[j as int] == c);
                    assert(edge(g, n, c));
                }
                if !self.visited.contains(&c) {
                    proof {
                        lemma_discover(g, root, self.visited@, queue@, dm, n, c, d);
                        lemma_insert_child(
                            g,
                            root,
                            self.visited@,
                            queue@,
                            dm,
                            self.parents@,
                            n,
                            c,
                            d,
                        );
                    }
                    self.parents.insert(c, n);
                    self.mark_visited(c);
                    queue.push_back(c);
                    proof {
                        dm = dm.insert(c, (d + 1) as nat);
                        assert(self.visited.len() == self.visited@.len());
                    }
                } else {
                    proof {
                        lemma_revisit(g, root, self.visited@, dm, n, c);
                    }
                }
                j = j + 1;
            }
            if queue.len() > self.max_frontier {
                self.max_frontier = queue.len();
            }
            proof {
                assert(succ_closed(g, self.visited@, dm, n)) by {
                    assert forall|c: usize| #[trigger] edge(g, n, c) implies self.visited@.contains(
                        c,
                    ) && dm[c] <= dm[n] + 1 by {
                        let k = choose|k: int| 0 <= k < cs@.len() && cs@[k] == c;
                        assert(self.visited@.contains(cs@[k]) && dm[cs@[k]] <= d + 1);
                    }
                }
                assert(bfs_closed(g, self.visited@, queue@, dm));
            }
        }
        proof {
            lemma_exhausted(g, root, self.visited@, queue@, dm);
            assert(!g.goal(root));
        }
        None
    }

    fn search(graph: &G, root: usize) -> (found: Option<usize>) {
        let ghost g = *graph;
        let mut queue: VecDeque<usize> = VecDeque::new();
        let mut visited: HashSet<usize> = HashSet::new();
        visited.insert(root);
        queue.push_back(root);
        let ghost mut dm: Map<usize, nat> = Map::<usize, nat>::empty().insert(root, 0nat);
        let ghost mut pm: Map<usize, usize> = Map::<usize, usize>::empty();
        proof {
            assert(visited@ =~= Set::<usize>::empty().insert(root));
            assert(dm.dom() =~= visited@);
            assert(pm.dom() =~= visited@.remove(root));
            assert(path_between(g, seq![root], root, root));
            assert(inv_ub(g, root, visited@, dm)) by {
                assert forall|v: usize| #[trigger] visited@.contains(v) implies exists|
                    p: Seq<usize>,
                |
                    path_between(g, p, root, v) && p.len() == dm[v] + 1 by {
                    assert(path_between(g, seq![root], root, v) && seq![root].len() == dm[v] + 1);
                }
            }
        }
        while queue.len() != 0
            invariant
                g == *graph,
                visited@.finite(),
                visited@.len() <= usize::MAX,
                visited@.contains(root),
                dm.dom() == visited@,
                parent_tree_ok(g, pm, dm, root),
                pm.dom() == visited@.remove(root),
                inv_ub(g, root, visited@, dm),
                inv_lb(g, root, visited@, dm),
                queue_ok(g, visited@, queue@, dm),
                bfs_closed(g, visited@, queue@, dm),
            decreases usize::MAX + 1 - visited@.len(), queue@.len(),
        {
            let ghost q0 = queue@;
            let node = queue.pop_front().unwrap();
            let ghost d = dm[node];
            if graph.is_goal(node) {
                proof {
                    lemma_goal_found(g, root, visited@, q0, dm, pm, node);
                    let ch = chain(pm, node, pm.dom().len());
                    assert(found_path_ok(g, root, node, Some(ch)));
                }
                return Some(node);
            }
            let cs = graph.children(node);
            let ghost vis0 = visited@;
            let ghost q0len = queue@.len();
            let mut j: usize = 0;
            proof {
                assert forall|i: int| 0 <= i < queue@.len() implies d <= dm[#[trigger] queue@[i]]
                    && dm[queue@[i]] <= d + 1 by {
                    assert(queue@[i] == q0[i + 1]);
                    assert(dm[q0[0]] <= dm[q0[i + 1]] && dm[q0[i + 1]] <= dm[q0[0]] + 1);
                }
                assert(bfs_closed_except(g, visited@, queue@, dm, node)) by {
                    assert forall|u: usize| #[trigger] visited@.contains(u) implies u == node
                        || queue@.contains(u) || (!g.goal(u) && succ_closed(
                        g,
                        visited@,
                        dm,
                        u,
                    )) by {
                        if u != node && q0.contains(u) {
                            let idx = choose|idx: int| 0 <= idx < q0.len() && q0[idx] == u;
                            if idx == 0 {
                                assert(u == node);
                            } else {
                                assert(queue@[idx - 1] == u);
                                assert(queue@.contains(u));
                            }
                        }
                    }
                }
            }
            while j < cs.len()
                invariant
                    g == *graph,
                    0 <= j <= cs@.len(),
                    cs@ == g.succ(node),
                    !g.goal(node),
                    visited@.finite(),
                    visited@.len() <= usize::MAX,
                    visited@.contains(root),
                    visited@.contains(node),
                    dm[node] == d,
                    dm.dom() == visited@,
                    parent_tree_ok(g, pm, dm, root),
                    pm.dom() == visited@.remove(root),
                    inv_ub(g, root, visited@, dm),
                    inv_lb(g, root, visited@, dm),
                    queue_ok(g, visited@, queue@, dm),
                    forall|i: int|
                        0 <= i < queue@.len() ==> d <= dm[#[trigger] queue@[i]] && dm[queue@[i]]
                            <= d + 1,
                    bfs_closed_except(g, visited@, queue@, dm, node),
                    forall|k: int|
                        0 <= k < j ==> visited@.contains(#[trigger] cs@[k]) && dm[cs@[k]] <= d + 1,
                    visited@.len() - vis0.len() == queue@.len() - q0len,
                    queue@.len() >= q0len,
                decreases cs@.len() - j,
            {
                let c = cs[j];
                proof {
                    assert(g.succ(node)[j as int] == c);
                    assert(edge(g, node, c));
                }
                if !visited.contains(&c) {
                    proof {
                        lemma_discover(g, root, visited@, queue@, dm, node, c, d);
                        lemma_insert_child(g, root, visited@, queue@, dm, pm, node, c, d);
                    }
                    visited.insert(c);
                    queue.push_back(c);
                    proof {
                        dm = dm.insert(c, (d + 1) as nat);
                        pm = pm.insert(c, node);
                        assert(visited.len() == visited@.len());
                    }
                } else {
                    proof {
                        lemma_revisit(g, root, visited@, dm, node, c);
                    }
                }
                j = j + 1;
            }
            proof {
                assert(succ_closed(g, visited@, dm, node)) by {
                    assert forall|c: usize| #[trigger] edge(g, node, c) implies visited@.contains(
                        c,
                    ) && dm[c] <= dm[node] + 1 by {
                        let k = choose|k: int| 0 <= k < cs@.len() && cs@[k] == c;
                        assert(visited@.contains(cs@[k]) && dm[cs@[k]] <= d + 1);
                    }
                }
                assert(bfs_closed(g, visited@, queue@, dm));
            }
        }
        proof {
            lemma_exhausted(g, root, visited@, queue@, dm);
            assert(!g.goal(root));
        }
        None
    }

    fn nodes_visited(&self) -> (n: usize) {
        self.visited.len()
    }

    fn is_visited(&self, node: usize) -> (b: bool) {
        self.visited.contains(&node)
    }

    fn path(&self) -> (path: Option<Vec<usize>>) {
        match self.solution {
            None => None,
            Some(start) => {
                let ghost pm = self.parents@;
                let ghost n0 = pm.dom().len();
                let mut rev: Vec<usize> = Vec::new();
                let mut cur: usize = start;
                rev.push(cur);
                let mut fuel: usize = self.parents.len();
                proof {
                    assert(fuel == n0);
                    lemma_chain_last(pm, start, n0);
                    assert(rev@.reverse() =~= seq![start]);
                    assert(chain(pm, start, n0).drop_last().push(start) =~= chain(pm, start, n0));
                    assert(chain(pm, start, n0).drop_last() + rev@.reverse() =~= chain(
                        pm,
                        start,
                        n0,
                    ));
                }
                while fuel > 0 && self.parents.contains_key(&cur)
                    invariant
                        pm == self.parents@,
                        rev@.len() >= 1,
                        rev@.last() == cur,
                        chain(pm, cur, fuel as nat).drop_last() + rev@.reverse() == chain(
                            pm,
                            start,
                            n0,
                        ),
                    decreases fuel,
                {
                    let ghost fuel_pre = fuel as nat;
                    let ghost rev_pre = rev@;
                    let ghost cur_pre = cur;
                    let next = *self.parents.get(&cur).unwrap();
                    cur = next;
                    rev.push(cur);
                    fuel = fuel - 1;
                    proof {
                        lemma_chain_last(pm, cur, fuel as nat);
                        assert(chain(pm, cur_pre, fuel_pre) == chain(pm, cur, fuel as nat).push(
                            cur_pre,
                        ));
                        assert(rev@.reverse() =~= seq![cur] + rev_pre.reverse());
                        assert(chain(pm, cur, fuel as nat).drop_last() + rev@.reverse() =~= chain(
                            pm,
                            cur_pre,
                            fuel_pre,
                        ).drop_last() + rev_pre.reverse());
                    }
                }
                proof {
                    assert(chain(pm, cur, fuel as nat) =~= seq![cur]);
                    assert(chain(pm, cur, fuel as nat).drop_last() =~= Seq::<usize>::empty());
                    assert(rev@.reverse() == chain(pm, start, n0));
                }
                let mut out: Vec<usize> = Vec::new();
                let mut k: usize = rev.len();
                proof {
                    assert(out@ =~= rev@.skip(k as int).reverse());
                }
                while k > 0
                    invariant
                        0 <= k <= rev@.len(),
                        out@ == rev@.skip(k as int).reverse(),
                    decreases k,
                {
                    k = k - 1;
                    out.push(rev[k]);
                    proof {
                        assert(out@ =~= rev@.skip(k as int).reverse());
                    }
                }
                proof {
                    assert(rev@.skip(0) =~= rev@);
                    assert(out@ == chain(pm, start, n0));
                }
                Some(out)
            },
        }
    }
}

} // verus!
