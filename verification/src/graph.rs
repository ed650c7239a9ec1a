//! The graph capability contract and the mathematical model of paths and
//! reachability that the search contracts are stated over.
//!
//! A node is identified by a `usize` key; a graph implementation owns the
//! edge structure and exposes a root, a successor enumeration and a goal
//! predicate. No search operation mutates the graph.

use vstd::prelude::*;

verus! {

/// A traversable structure: a designated root, a successor enumeration and a
/// goal predicate. The three executable operations are pure; their results
/// are pinned to the spec-level model (`root_spec`, `succ`, `goal`), so the
/// search algorithms can be verified against any implementation.
pub trait Graph: Sized {
    /// The designated starting node, at the spec level.
    spec fn root_spec(&self) -> usize;

    /// The direct successors of `node`, in implementation-defined order.
    spec fn succ(&self, node: usize) -> Seq<usize>;

    /// The goal predicate, at the spec level.
    spec fn goal(&self, node: usize) -> bool;

    /// Returns the single designated starting node.
    fn root(&self) -> (r: usize)
        ensures
            r == self.root_spec(),
    ;

    /// Returns all direct successors of `node`. Search correctness never
    /// depends on the order; which equal-depth result is found does.
    fn children(&self, node: usize) -> (cs: Vec<usize>)
        ensures
            cs@ == self.succ(node),
    ;

    /// Tests whether `node` is a goal. Pure, no side effects.
    fn is_goal(&self, node: usize) -> (b: bool)
        ensures
            b == self.goal(node),
    ;
}

/// There is a directed edge from `a` to `b`.
pub open spec fn edge<G: Graph>(g: G, a: usize, b: usize) -> bool {
    g.succ(a).contains(b)
}

/// `p` is a non-empty sequence of nodes connected by edges.
pub open spec fn is_path<G: Graph>(g: G, p: Seq<usize>) -> bool {
    &&& p.len() > 0
    &&& forall|i: int| 0 <= i < p.len() - 1 ==> edge(g, #[trigger] p[i], p[i + 1])
}

/// `p` is a path that starts at `a` and ends at `b`. A single-node sequence
/// `[a]` is a path from `a` to `a` with zero edges.
pub open spec fn path_between<G: Graph>(g: G, p: Seq<usize>, a: usize, b: usize) -> bool {
    &&& is_path(g, p)
    &&& p.first() == a
    &&& p.last() == b
}

/// `b` can be reached from `a` by following zero or more edges.
pub open spec fn reaches<G: Graph>(g: G, a: usize, b: usize) -> bool {
    exists|p: Seq<usize>| path_between(g, p, a, b)
}

/// What a successful search hands back: `p_opt` holds a root-to-goal path
/// whose node count is minimal among all paths from the root to any goal
/// node (so its edge count is the minimum over all root-to-goal paths).
pub open spec fn found_path_ok<G: Graph>(
    g: G,
    root: usize,
    goal: usize,
    p_opt: Option<Seq<usize>>,
) -> bool {
    &&& p_opt is Some
    &&& path_between(g, p_opt.unwrap(), root, goal)
    &&& forall|q: Seq<usize>, m: usize|
        path_between(g, q, root, m) && g.goal(m) ==> q.len() >= p_opt.unwrap().len()
}

/// A path extended along one more edge is again a path.
pub proof fn lemma_path_push<G: Graph>(g: G, p: Seq<usize>, a: usize, b: usize, c: usize)
    requires
        path_between(g, p, a, b),
        edge(g, b, c),
    ensures
        path_between(g, p.push(c), a, c),
{
    let q = p.push(c);
    assert forall|i: int| 0 <= i < q.len() - 1 implies edge(g, #[trigger] q[i], q[i + 1]) by {
        if i < p.len() - 1 {
            assert(edge(g, p[i], p[i + 1]));
        }
    }
}

/// A set that contains the root and is closed under successors contains
/// every node the root reaches.
pub proof fn lemma_closed_set_covers_path<G: Graph>(
    g: G,
    root: usize,
    s: Set<usize>,
    p: Seq<usize>,
    m: usize,
)
    requires
        s.contains(root),
        forall|u: usize, c: usize| s.contains(u) && edge(g, u, c) ==> s.contains(c),
        path_between(g, p, root, m),
    ensures
        s.contains(m),
    decreases p.len(),
{
    if p.len() == 1 {
        assert(m == root);
    } else {
        let p2 = p.drop_last();
        assert(path_between(g, p2, root, p[p.len() - 2])) by {
            assert(forall|i: int|
                0 <= i < p2.len() - 1 ==> edge(g, #[trigger] p2[i], p2[i + 1]));
        }
        lemma_closed_set_covers_path(g, root, s, p2, p[p.len() - 2]);
        assert(edge(g, p[p.len() - 2], m));
    }
}

/// A sequence without duplicates whose elements all lie in a finite set is
/// no longer than that set.
pub proof fn lemma_distinct_seq_len_le_set<A>(s: Seq<A>, t: Set<A>)
    requires
        s.no_duplicates(),
        t.finite(),
        forall|i: int| 0 <= i < s.len() ==> t.contains(s[i]),
    ensures
        s.len() <= t.len(),
{
    broadcast use vstd::seq_lib::seq_to_set_is_finite;

    s.unique_seq_to_set();
    assert(s.to_set().subset_of(t)) by {
        assert forall|x: A| s.to_set().contains(x) implies t.contains(x) by {
            let i = choose|i: int| 0 <= i < s.len() && s[i] == x;
            assert(t.contains(s[i]));
        }
    }
    vstd::set_lib::lemma_len_subset(s.to_set(), t);
}

} // verus!
