//! The search-strategy capability contract: an instrumented search that
//! records visited state, a stateless one-shot search, and diagnostics over
//! the recorded state.

use vstd::prelude::*;

use crate::graph::Graph;
use crate::graph::found_path_ok;
use crate::graph::reaches;

verus! {

/// A search strategy over a graph `G`. An instrumented run mutates the
/// strategy's own state (visited set, recorded solution, reconstructed path,
/// frontier statistic); the stateless variant leaves no trace. A strategy
/// instance is single-use: `search_tracked` demands a fresh instance and the
/// state it leaves behind is read through the diagnostic methods.
pub trait GraphSearcher<G: Graph>: Sized {
    /// The set of nodes the instrumented search has visited.
    spec fn visited_set(&self) -> Set<usize>;

    /// The goal recorded by a successful instrumented run, if any.
    spec fn solution_spec(&self) -> Option<usize>;

    /// The root-to-solution path recorded by a successful instrumented run.
    spec fn path_spec(&self) -> Option<Seq<usize>>;

    /// The largest frontier size the instrumented search has observed.
    spec fn frontier_stat(&self) -> nat;

    /// The state of an instance on which no search has run yet.
    spec fn fresh(&self) -> bool;

    /// Runs an instrumented search from `root`: returns a goal nearest to
    /// the root if one is reachable and nothing otherwise, and records the
    /// visited set, the solution and a minimum-edge-count path to it.
    fn search_tracked(&mut self, graph: &G, root: usize) -> (found: Option<usize>)
        requires
            old(self).fresh(),
        ensures
            final(self).solution_spec() == found,
            final(self).frontier_stat() >= old(self).frontier_stat(),
            final(self).visited_set().finite(),
            final(self).visited_set().contains(root),
            forall|v: usize|
                #[trigger] final(self).visited_set().contains(v) ==> reaches(*graph, root, v),
            match found {
                Some(goal) => {
                    &&& graph.goal(goal)
                    &&& reaches(*graph, root, goal)
                    &&& final(self).visited_set().contains(goal)
                    &&& found_path_ok(*graph, root, goal, final(self).path_spec())
                },
                None => {
                    &&& forall|m: usize| reaches(*graph, root, m) ==> !graph.goal(m)
                    &&& forall|m: usize|
                        #[trigger] final(self).visited_set().contains(m) <==> reaches(
                            *graph,
                            root,
                            m,
                        )
                    &&& final(self).path_spec() is None
                },
            },
            graph.goal(root) ==> found == Some(root) && final(self).visited_set() == Set::<
                usize,
            >::empty().insert(root) && final(self).path_spec() == Some(seq![root]),
    ;

    /// Runs a self-contained search from `root` with no observable side
    /// effects beyond the returned value: a goal nearest to the root if one
    /// is reachable, nothing otherwise. Reentrant and repeatable.
    fn search(graph: &G, root: usize) -> (found: Option<usize>)
        ensures
            match found {
                Some(goal) => {
                    &&& graph.goal(goal)
                    &&& reaches(*graph, root, goal)
                    &&& exists|p: Seq<usize>| found_path_ok(*graph, root, goal, Some(p))
                },
                None => forall|m: usize| reaches(*graph, root, m) ==> !graph.goal(m),
            },
            graph.goal(root) ==> found == Some(root),
    ;

    /// How many nodes the instrumented search has visited; zero before any
    /// run.
    fn nodes_visited(&self) -> (n: usize)
        ensures
            n == self.visited_set().len(),
    ;

    /// Whether the instrumented search has visited `node`; false for every
    /// node before any run.
    fn is_visited(&self, node: usize) -> (b: bool)
        ensures
            b == self.visited_set().contains(node),
    ;

    /// The recorded root-to-solution path of a successful instrumented run,
    /// read root first; nothing if no solution was ever recorded.
    fn path(&self) -> (path: Option<Vec<usize>>)
        ensures
            match path {
                Some(p) => self.path_spec() == Some(p@),
                None => self.path_spec() is None,
            },
    ;
}

} // verus!
