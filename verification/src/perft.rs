//! A traversal counter used to sanity-check a graph implementation's
//! branching structure: it counts the nodes on all traversal paths of up to
//! a fixed depth, without deduplicating, so converging or cyclic edges are
//! counted once per path.

use vstd::prelude::*;

use crate::graph::Graph;

verus! {

/// The number of nodes reached by following at most `depth` edges from
/// `node`: `1` at depth zero or at a leaf, otherwise the sum over the
/// children one level down.
pub open spec fn spec_perft<G: Graph>(g: G, node: usize, depth: nat) -> nat
    decreases depth, 0int,
{
    if depth == 0 || g.succ(node).len() == 0 {
        1
    } else {
        spec_perft_list(g, g.succ(node), (depth - 1) as nat)
    }
}

/// The sum of `spec_perft` over a sequence of start nodes.
pub open spec fn spec_perft_list<G: Graph>(g: G, nodes: Seq<usize>, depth: nat) -> nat
    decreases depth, 1int, nodes.len(),
{
    if nodes.len() == 0 {
        0
    } else {
        spec_perft(g, nodes.first(), depth) + spec_perft_list(g, nodes.drop_first(), depth)
    }
}

/// Counting to depth zero always yields exactly the node itself.
pub proof fn lemma_perft_depth_zero<G: Graph>(g: G, node: usize)
    ensures
        spec_perft(g, node, 0) == 1,
{
}

/// A node without children counts as one, whatever the depth.
pub proof fn lemma_perft_leaf<G: Graph>(g: G, node: usize, depth: nat)
    requires
        g.succ(node).len() == 0,
    ensures
        spec_perft(g, node, depth) == 1,
{
}

/// Splitting a start-node sequence splits the sum.
proof fn lemma_perft_list_skip<G: Graph>(g: G, nodes: Seq<usize>, depth: nat, i: int)
    requires
        0 <= i < nodes.len(),
    ensures
        spec_perft_list(g, nodes.skip(i), depth) == spec_perft(g, nodes[i], depth)
            + spec_perft_list(g, nodes.skip(i + 1), depth),
{
    let s = nodes.skip(i);
    assert(s.first() == nodes[i]);
    assert(s.drop_first() =~= nodes.skip(i + 1));
}

/// Counts the nodes reachable by following up to `depth` edges from `node`,
/// terminating early at leaves. Cycles are not deduplicated: the count is
/// over traversal paths, which mirrors game-tree traversal counting.
pub fn perft<G: Graph>(graph: &G, node: usize, depth: usize) -> (count: usize)
    requires
        spec_perft(*graph, node, depth as nat) <= usize::MAX,
    ensures
        count == spec_perft(*graph, node, depth as nat),
    decreases depth,
{
    let children = graph.children(node);
    let no_children = children.len() == 0;
    if depth == 0 || no_children {
        return 1;
    }
    let ghost d = (depth - 1) as nat;
    let mut total: usize = 0;
    let mut i: usize = 0;
    proof {
        assert(children@.skip(0) =~= children@);
    }
    while i < children.len()
        invariant
            depth >= 1,
            d == (depth - 1) as nat,
            0 <= i <= children@.len(),
            children@ == graph.succ(node),
            spec_perft(*graph, node, depth as nat) == spec_perft_list(*graph, children@, d),
            spec_perft_list(*graph, children@, d) <= usize::MAX,
            total + spec_perft_list(*graph, children@.skip(i as int), d) == spec_perft_list(
                *graph,
                children@,
                d,
            ),
        decreases children@.len() - i,
    {
        proof {
            lemma_perft_list_skip(*graph, children@, d, i as int);
        }
        let c = children[i];
        let part = perft(graph, c, depth - 1);
        total = total + part;
        i = i + 1;
    }
    proof {
        assert(children@.skip(children@.len() as int) =~= Seq::<usize>::empty());
    }
    total
}

} // verus!
