use graphsearch::examplegraph::get_example_graph;
use graphsearch::graph::Graph;
use graphsearch::perft::perft;

#[test]
fn depth1() {
    let graph = get_example_graph();
    let node_count = perft(&graph, graph.root(), 1);
    assert_eq!(node_count, 2);
}

#[test]
fn depth_zero_counts_the_node_itself() {
    let graph = get_example_graph();
    assert_eq!(perft(&graph, graph.root(), 0), 1);
    assert_eq!(perft(&graph, 3, 0), 1);
    assert_eq!(perft(&graph, 13, 0), 1);
}

#[test]
fn leaf_counts_as_one_at_any_depth() {
    let graph = get_example_graph();
    assert_eq!(perft(&graph, 7, 0), 1);
    assert_eq!(perft(&graph, 7, 1), 1);
    assert_eq!(perft(&graph, 7, 50), 1);
    assert_eq!(perft(&graph, 13, 9), 1);
}

#[test]
fn deeper_counts() {
    let graph = get_example_graph();
    assert_eq!(perft(&graph, graph.root(), 2), 3);
    assert_eq!(perft(&graph, graph.root(), 3), 4);
    assert_eq!(perft(&graph, graph.root(), 9), 4);
    assert_eq!(perft(&graph, 3, 1), 2);
}
