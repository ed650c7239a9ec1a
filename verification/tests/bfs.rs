use graphsearch::bfs::BFS;
use graphsearch::examplegraph::get_example_graph;
use graphsearch::examplegraph::ExampleEdge;
use graphsearch::examplegraph::ExampleGraph;
use graphsearch::examplegraph::ExampleNode;
use graphsearch::graph::Graph;
use graphsearch::graphsearcher::GraphSearcher;

#[test]
fn basic() {
    let graph = get_example_graph();
    let mut searcher = BFS::new();
    let found = searcher.search_tracked(&graph, graph.root());
    assert!(found.is_some());
    assert!(graph.is_goal(found.unwrap()));
    assert_eq!(
        searcher.path().unwrap(),
        &[
            ExampleNode::new(8).id(),
            ExampleNode::new(3).id(),
            ExampleNode::new(6).id(),
            ExampleNode::new(7).id()
        ]
    );
}

#[test]
fn fresh_searcher_diagnostics() {
    let searcher: BFS<ExampleGraph> = BFS::new();
    assert_eq!(searcher.nodes_visited(), 0);
    assert!(!searcher.is_visited(8));
    assert!(!searcher.is_visited(0));
    assert_eq!(searcher.max_frontier(), 1);
    assert!(searcher.path().is_none());
}

#[test]
fn default_searcher_is_fresh() {
    let searcher: BFS<ExampleGraph> = BFS::default();
    assert_eq!(searcher.nodes_visited(), 0);
    assert_eq!(searcher.max_frontier(), 1);
    assert!(searcher.path().is_none());
}

#[test]
fn root_is_goal() {
    let mut graph = ExampleGraph::new();
    graph.add(ExampleNode::new(8));
    graph.set_goal(ExampleNode::new(8));
    let mut searcher = BFS::new();
    let found = searcher.search_tracked(&graph, graph.root());
    assert_eq!(found, Some(8));
    assert_eq!(searcher.nodes_visited(), 1);
    assert_eq!(searcher.path().unwrap(), vec![8]);
    let stateless = <BFS<ExampleGraph> as GraphSearcher<ExampleGraph>>::search(&graph, 8);
    assert_eq!(stateless, Some(8));
}

#[test]
fn no_reachable_goal() {
    let mut graph = ExampleGraph::new();
    graph.add(ExampleNode::new(8));
    graph.add(ExampleNode::new(3));
    graph.add_edge(ExampleEdge::new(8, 3));
    graph.set_goal(ExampleNode::new(99));
    let mut searcher = BFS::new();
    let found = searcher.search_tracked(&graph, graph.root());
    assert!(found.is_none());
    assert!(searcher.path().is_none());
    assert_eq!(searcher.nodes_visited(), 2);
    assert!(searcher.is_visited(8));
    assert!(searcher.is_visited(3));
    assert!(!searcher.is_visited(99));
    let stateless = <BFS<ExampleGraph> as GraphSearcher<ExampleGraph>>::search(&graph, 8);
    assert!(stateless.is_none());
}

#[test]
fn tree_scenario_instrumented() {
    let graph = get_example_graph();
    let mut searcher = BFS::new();
    let found = searcher.search_tracked(&graph, graph.root());
    assert_eq!(found, Some(7));
    assert_eq!(searcher.path().unwrap(), vec![8, 3, 6, 7]);
    assert_eq!(searcher.nodes_visited(), 9);
    assert_eq!(searcher.max_frontier(), 3);
    assert!(searcher.is_visited(13));
    assert!(!searcher.is_visited(99));
}

#[test]
fn first_discovery_parent_is_kept() {
    // Node 4 is reachable both through 2 (discovered first) and through 3:
    // the parent recorded at first discovery must win, so the path runs
    // through 2.
    let mut graph = ExampleGraph::new();
    graph.add(ExampleNode::new(8));
    graph.add(ExampleNode::new(2));
    graph.add(ExampleNode::new(3));
    graph.add(ExampleNode::new(4));
    graph.add_edge(ExampleEdge::new(8, 2));
    graph.add_edge(ExampleEdge::new(8, 3));
    graph.add_edge(ExampleEdge::new(2, 4));
    graph.add_edge(ExampleEdge::new(3, 4));
    graph.set_goal(ExampleNode::new(4));
    let mut searcher = BFS::new();
    let found = searcher.search_tracked(&graph, graph.root());
    assert_eq!(found, Some(4));
    assert_eq!(searcher.path().unwrap(), vec![8, 2, 4]);
}

#[test]
fn cycle_is_tolerated() {
    let mut graph = ExampleGraph::new();
    graph.add(ExampleNode::new(8));
    graph.add(ExampleNode::new(3));
    graph.add(ExampleNode::new(5));
    graph.add_edge(ExampleEdge::new(8, 3));
    graph.add_edge(ExampleEdge::new(3, 8));
    graph.add_edge(ExampleEdge::new(3, 5));
    graph.set_goal(ExampleNode::new(5));
    let mut searcher = BFS::new();
    let found = searcher.search_tracked(&graph, graph.root());
    assert_eq!(found, Some(5));
    assert_eq!(searcher.path().unwrap(), vec![8, 3, 5]);
}

#[test]
fn stateless_search_is_repeatable() {
    let graph = get_example_graph();
    let first = <BFS<ExampleGraph> as GraphSearcher<ExampleGraph>>::search(&graph, graph.root());
    let second = <BFS<ExampleGraph> as GraphSearcher<ExampleGraph>>::search(&graph, graph.root());
    assert_eq!(first, Some(7));
    assert_eq!(second, Some(7));
}

#[test]
fn shortest_path_is_found() {
    // Two routes to the goal: 8 -> 9 -> 5 and 8 -> 2 -> 6 -> 5. BFS must
    // report the two-edge one.
    let mut graph = ExampleGraph::new();
    graph.add(ExampleNode::new(8));
    graph.add(ExampleNode::new(2));
    graph.add(ExampleNode::new(6));
    graph.add(ExampleNode::new(9));
    graph.add(ExampleNode::new(5));
    graph.add_edge(ExampleEdge::new(8, 2));
    graph.add_edge(ExampleEdge::new(2, 6));
    graph.add_edge(ExampleEdge::new(6, 5));
    graph.add_edge(ExampleEdge::new(8, 9));
    graph.add_edge(ExampleEdge::new(9, 5));
    graph.set_goal(ExampleNode::new(5));
    let mut searcher = BFS::new();
    let found = searcher.search_tracked(&graph, graph.root());
    assert_eq!(found, Some(5));
    assert_eq!(searcher.path().unwrap(), vec![8, 9, 5]);
}
