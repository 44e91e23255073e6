use salesforce::DirectedGraph;

#[test]
fn create_new_graph() {
    let graph = DirectedGraph::new(10);
    assert_eq!(10, graph.adjacency_list.capacity());
}

#[test]
fn add_edges() {
    let mut graph = DirectedGraph::new(10);
    graph.add_edges(0, &[1, 2, 3]);
    graph.add_edges(1, &[2, 3]);
    graph.add_edges(2, &[3]);

    assert_eq!(vec![1, 2, 3], graph.adjacency_list[0]);
    assert_eq!(vec![2, 3], graph.adjacency_list[1]);
    assert_eq!(vec![3], graph.adjacency_list[2]);
}

#[test]
fn test_topo_sort_simple_graph() {
    let mut graph = DirectedGraph::new(5);
    graph.add_edges(0, &[1, 2, 3]);
    graph.add_edges(1, &[2, 3]);
    graph.add_edges(2, &[3]);

    let sorted_vertices = graph.topological_sort();
    assert_eq!(Some(vec![0, 4, 1, 2, 3]), sorted_vertices);
}

#[test]
fn test_topo_sort_circle() {
    let mut graph = DirectedGraph::new(2);
    graph.add_edges(0, &[1]);
    graph.add_edges(1, &[0]);

    let sorted_vertices = graph.topological_sort();
    assert_eq!(None, sorted_vertices);
}

#[test]
fn topo_sort_empty_graph() {
    let graph = DirectedGraph::new(0);
    assert_eq!(Some(vec![]), graph.topological_sort());
}

#[test]
fn topo_sort_self_loop() {
    let mut graph = DirectedGraph::new(1);
    graph.add_edges(0, &[0]);
    assert_eq!(None, graph.topological_sort());
}

#[test]
fn topo_sort_cycle_beside_acyclic_component() {
    // vertices 0..3 form a chain, 3 and 4 a cycle; the cycle alone decides
    let mut graph = DirectedGraph::new(5);
    graph.add_edges(0, &[1]);
    graph.add_edges(1, &[2]);
    graph.add_edges(3, &[4]);
    graph.add_edges(4, &[3]);
    assert_eq!(None, graph.topological_sort());
}

#[test]
fn add_edges_drops_duplicates() {
    let mut graph = DirectedGraph::new(3);
    graph.add_edges(0, &[1, 1, 2, 1]);
    assert_eq!(vec![1, 2], graph.adjacency_list[0]);
    graph.add_edges(0, &[2, 1]);
    assert_eq!(vec![1, 2], graph.adjacency_list[0]);
}

#[test]
fn topo_sort_respects_every_edge() {
    let mut graph = DirectedGraph::new(4);
    graph.add_edges(2, &[0]);
    graph.add_edges(3, &[2]);
    graph.add_edges(1, &[3]);

    let order = graph.topological_sort().unwrap();
    let position = |v: usize| order.iter().position(|x| *x == v).unwrap();
    assert!(position(2) < position(0));
    assert!(position(3) < position(2));
    assert!(position(1) < position(3));
    assert_eq!(4, order.len());
}
