//! A small concrete graph used for demonstration and testing: nodes and
//! directed edges held in vectors, a fixed root and a configurable goal. It
//! exists to exercise the search framework, not as part of it.

use vstd::prelude::*;

use crate::graph::Graph;

verus! {

/// A node of the example graph, identified by a small integer.
#[derive(Clone, Copy, Debug, PartialEq, Eq, Structural, Hash)]
pub struct ExampleNode {
    id: usize,
}

impl ExampleNode {
    /// The identifier, at the spec level.
    pub closed spec fn id_spec(&self) -> usize {
        self.id
    }

    /// Makes the node with the given identifier.
    pub fn new(id: usize) -> (n: Self)
        ensures
            n.id_spec() == id,
    {
        Self { id }
    }

    /// Returns the node's identifier, which is how the graph contract
    /// addresses it.
    pub fn id(&self) -> (id: usize)
        ensures
            id == self.id_spec(),
    {
        self.id
    }
}

/// A directed connection between two node identifiers.
#[derive(Clone, Copy, Debug, PartialEq, Eq, Structural, Hash)]
pub struct ExampleEdge {
    from_id: usize,
    to_id: usize,
}

impl ExampleEdge {
    /// The source identifier, at the spec level.
    pub closed spec fn from_spec(&self) -> usize {
        self.from_id
    }

    /// The target identifier, at the spec level.
    pub closed spec fn to_spec(&self) -> usize {
        self.to_id
    }

    /// Makes the edge from `from_id` to `to_id`.
    pub fn new(from_id: usize, to_id: usize) -> (e: Self)
        ensures
            e.from_spec() == from_id,
            e.to_spec() == to_id,
    {
        Self { from_id, to_id }
    }
}

/// The identifiers of a node sequence, in order.
pub open spec fn node_ids(nodes: Seq<ExampleNode>) -> Seq<usize> {
    nodes.map_values(|n: ExampleNode| n.id_spec())
}

/// The (source, target) identifier pairs of an edge sequence, in order.
pub open spec fn edge_pairs(edges: Seq<ExampleEdge>) -> Seq<(usize, usize)> {
    edges.map_values(|e: ExampleEdge| (e.from_spec(), e.to_spec()))
}

/// Some edge of `edges` runs from `from` to `to`.
pub open spec fn has_edge(edges: Seq<ExampleEdge>, from: usize, to: usize) -> bool {
    exists|j: int|
        0 <= j < edges.len() && (#[trigger] edges[j]).from_spec() == from && edges[j].to_spec()
            == to
}

/// The identifiers of the nodes in `nodes` that `edges` connects `from` to,
/// in node-list order.
pub open spec fn succ_ids(nodes: Seq<ExampleNode>, edges: Seq<ExampleEdge>, from: usize) -> Seq<
    usize,
>
    decreases nodes.len(),
{
    if nodes.len() == 0 {
        Seq::empty()
    } else {
        let rest = succ_ids(nodes.drop_last(), edges, from);
        if has_edge(edges, from, nodes.last().id_spec()) {
            rest.push(nodes.last().id_spec())
        } else {
            rest
        }
    }
}

/// A graph over listed nodes and directed edges, with node `8` as the fixed
/// root and a configurable goal identifier.
pub struct ExampleGraph {
    nodes: Vec<ExampleNode>,
    edges: Vec<ExampleEdge>,
    goal_id: usize,
}

impl ExampleGraph {
    /// The node list, at the spec level.
    pub closed spec fn nodes_view(&self) -> Seq<ExampleNode> {
        self.nodes@
    }

    /// The edge list, at the spec level.
    pub closed spec fn edges_view(&self) -> Seq<ExampleEdge> {
        self.edges@
    }

    /// The goal identifier, at the spec level.
    pub closed spec fn goal_id_spec(&self) -> usize {
        self.goal_id
    }

    /// Makes an empty graph whose goal identifier starts at zero.
    pub fn new() -> (g: Self)
        ensures
            g.nodes_view() == Seq::<ExampleNode>::empty(),
            g.edges_view() == Seq::<ExampleEdge>::empty(),
            g.goal_id_spec() == 0,
    {
        Self { nodes: Vec::new(), edges: Vec::new(), goal_id: 0 }
    }

    /// Appends a node to the node list.
    pub fn add(&mut self, node: ExampleNode)
        ensures
            final(self).nodes_view() == old(self).nodes_view().push(node),
            final(self).edges_view() == old(self).edges_view(),
            final(self).goal_id_spec() == old(self).goal_id_spec(),
    {
        self.nodes.push(node);
    }

    /// Appends a directed edge to the edge list.
    pub fn add_edge(&mut self, edge: ExampleEdge)
        ensures
            final(self).nodes_view() == old(self).nodes_view(),
            final(self).edges_view() == old(self).edges_view().push(edge),
            final(self).goal_id_spec() == old(self).goal_id_spec(),
    {
        self.edges.push(edge);
    }

    /// Marks the given node's identifier as the goal.
    pub fn set_goal(&mut self, node: ExampleNode)
        ensures
            final(self).nodes_view() == old(self).nodes_view(),
            final(self).edges_view() == old(self).edges_view(),
            final(self).goal_id_spec() == node.id_spec(),
    {
        self.goal_id = node.id;
    }

    /// Tests whether some stored edge runs from `from` to `to`.
    fn has_edge_exec(&self, from: usize, to: usize) -> (r: bool)
        ensures
            r == has_edge(self.edges_view(), from, to),
    {
        let mut j: usize = 0;
        while j < self.edges.len()
            invariant
                0 <= j <= self.edges@.len(),
                forall|k: int|
                    0 <= k < j ==> !((#[trigger] self.edges@[k]).from_spec() == from
                        && self.edges@[k].to_spec() == to),
            decreases self.edges@.len() - j,
        {
            if self.edges[j].from_id == from && self.edges[j].to_id == to {
                return true;
            }
            j = j + 1;
        }
        false
    }
}

impl Graph for ExampleGraph {
    open spec fn root_spec(&self) -> usize {
        8
    }

    open spec fn succ(&self, node: usize) -> Seq<usize> {
        succ_ids(self.nodes_view(), self.edges_view(), node)
    }

    open spec fn goal(&self, node: usize) -> bool {
        node == self.goal_id_spec()
    }

    fn root(&self) -> (r: usize) {
        8
    }

    fn children(&self, node: usize) -> (cs: Vec<usize>) {
        let mut out: Vec<usize> = Vec::new();
        let mut i: usize = 0;
        proof {
            assert(self.nodes_view().take(0) =~= Seq::<ExampleNode>::empty());
        }
        while i < self.nodes.len()
            invariant
                0 <= i <= self.nodes@.len(),
                out@ == succ_ids(self.nodes_view().take(i as int), self.edges_view(), node),
            decreases self.nodes@.len() - i,
        {
            proof {
                assert(self.nodes_view().take(i + 1).drop_last() =~= self.nodes_view().take(
                    i as int,
                ));
                assert(self.nodes_view().take(i + 1).last() == self.nodes_view()[i as int]);
            }
            let id = self.nodes[i].id;
            if self.has_edge_exec(node, id) {
                out.push(id);
            }
            i = i + 1;
        }
        proof {
            assert(self.nodes_view().take(self.nodes@.len() as int) =~= self.nodes_view());
        }
        out
    }

    fn is_goal(&self, node: usize) -> (b: bool) {
        node == self.goal_id
    }
}

/// Builds the demonstration graph: a binary-search-tree-shaped graph rooted
/// at `8`, with `7` as the goal.
pub fn get_example_graph() -> (g: ExampleGraph)
    ensures
        node_ids(g.nodes_view()) == seq![8usize, 3, 10, 1, 6, 14, 4, 7, 13],
        edge_pairs(g.edges_view()) == seq![
            (8usize, 3usize),
            (8, 10),
            (3, 1),
            (3, 6),
            (10, 14),
            (6, 4),
            (6, 7),
            (14, 13),
        ],
        g.goal_id_spec() == 7,
{
    let mut graph = ExampleGraph::new();
    graph.add(ExampleNode::new(8));
    graph.add(ExampleNode::new(3));
    graph.add(ExampleNode::new(10));
    graph.add(ExampleNode::new(1));
    graph.add(ExampleNode::new(6));
    graph.add(ExampleNode::new(14));
    graph.add(ExampleNode::new(4));
    graph.add(ExampleNode::new(7));
    graph.add(ExampleNode::new(13));

    graph.add_edge(ExampleEdge::new(8, 3));
    graph.add_edge(ExampleEdge::new(8, 10));
    graph.add_edge(ExampleEdge::new(3, 1));
    graph.add_edge(ExampleEdge::new(3, 6));
    graph.add_edge(ExampleEdge::new(10, 14));
    graph.add_edge(ExampleEdge::new(6, 4));
    graph.add_edge(ExampleEdge::new(6, 7));
    graph.add_edge(ExampleEdge::new(14, 13));

    graph.set_goal(ExampleNode::new(7));

    proof {
        assert(node_ids(graph.nodes_view()) =~= seq![8usize, 3, 10, 1, 6, 14, 4, 7, 13]);
        assert(edge_pairs(graph.edges_view()) =~= seq![
            (8usize, 3usize),
            (8, 10),
            (3, 1),
            (3, 6),
            (10, 14),
            (6, 4),
            (6, 7),
            (14, 13),
        ]);
    }
    graph
}

} // verus!
