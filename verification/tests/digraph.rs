use algorithms::digraph::DiGraph;

fn sample() -> DiGraph<()> {
    let mut digraph: DiGraph<()> = DiGraph::new();

    digraph.add_edge((0, 2), (), ());
    digraph.add_edge((0, 1), (), ());
    digraph.add_edge((0, 5), (), ());
    digraph.add_edge((3, 5), (), ());
    digraph.add_edge((3, 4), (), ());
    digraph.add_edge((2, 4), (), ());
    digraph.add_edge((2, 1), (), ());
    digraph.add_edge((2, 3), (), ());

    digraph
}

#[test]
fn shortest_path() {
    let digraph = sample();
    let path = vec![0, 5];

    assert_eq!(digraph.shortest_path(0, 5), Ok(path));
}

#[test]
fn digraph_paths_and_errors() {
    let digraph = sample();

    assert_eq!(digraph.node_count(), 6);
    assert_eq!(digraph.shortest_path(0, 0), Ok(vec![0]));
    assert_eq!(digraph.shortest_path(0, 4), Ok(vec![0, 2, 4]));
    assert_eq!(digraph.shortest_path(0, 3), Ok(vec![0, 2, 3]));
    assert_eq!(digraph.shortest_path(2, 5), Ok(vec![2, 3, 5]));
    assert_eq!(digraph.shortest_path(9, 5), Err(9));
    assert_eq!(digraph.shortest_path(0, 9), Err(9));
    assert_eq!(digraph.shortest_path(8, 9), Err(8));
}

#[test]
fn digraph_takes_the_short_way_round() {
    let mut digraph: DiGraph<u8> = DiGraph::new();
    digraph.add_edge((1, 2), 1, 2);
    digraph.add_edge((2, 3), 2, 3);
    digraph.add_edge((3, 4), 3, 4);
    digraph.add_edge((4, 5), 4, 5);
    digraph.add_edge((1, 6), 1, 6);
    digraph.add_edge((6, 5), 6, 5);
    digraph.add_edge((5, 1), 5, 1);

    assert_eq!(digraph.node_count(), 6);
    assert_eq!(digraph.shortest_path(1, 5), Ok(vec![1, 6, 5]));
    assert_eq!(digraph.shortest_path(3, 2), Ok(vec![3, 4, 5, 1, 2]));
}

#[test]
fn digraph_counts_edges_once() {
    let mut digraph = sample();

    assert_eq!(digraph.edge_count(), 8);
    digraph.add_edge((2, 3), (), ());
    assert_eq!(digraph.edge_count(), 8);
    digraph.add_edge((5, 5), (), ());
    assert_eq!(digraph.edge_count(), 9);
    assert_eq!(digraph.node_count(), 6);
    assert_eq!(DiGraph::<()>::new().edge_count(), 0);
    assert_eq!(DiGraph::<()>::new().node_count(), 0);
}
