use starfield::graph::InGraph;

#[test]
fn graph_test() {
    //   A   B
    //  / \   \
    // C   D   E
    //  \   \ /
    //   F-->G
    let mut graph = InGraph::new();
    let a = graph.add_node(());
    let b = graph.add_node(());
    let c = graph.add_node(());
    let d = graph.add_node(());
    let e = graph.add_node(());
    let f = graph.add_node(());
    let g = graph.add_node(());
    graph.add_edge(a, c, ());
    graph.add_edge(a, d, ());
    graph.add_edge(b, e, ());
    graph.add_edge(c, f, ());
    graph.add_edge(d, g, ());
    graph.add_edge(e, g, ());
    graph.add_edge(f, g, ());

    assert_eq!(graph.topo_sort(), [a, b, c, d, e, f, g]);
}

#[test]
fn edges_to_lists_incoming_edges() {
    let mut graph = InGraph::new();
    let a = graph.add_node("a");
    let b = graph.add_node("b");
    let c = graph.add_node("c");
    graph.add_edge(a, c, 1u32);
    graph.add_edge(b, c, 2u32);
    let edges = graph.edges_to(c);
    assert_eq!(edges, vec![(&"a", &1u32), (&"b", &2u32)]);
    assert!(graph.edges_to(a).is_empty());
    assert_eq!(*graph.node(b), "b");
    assert_eq!(graph.nodes(), &["a", "b", "c"]);
    let ids = graph.node_ids();
    assert_eq!(ids, vec![a, b, c]);
}

#[test]
fn topo_sort_puts_sources_first() {
    let mut graph = InGraph::new();
    let x = graph.add_node(0);
    let y = graph.add_node(1);
    let z = graph.add_node(2);
    graph.add_edge(z, x, ());
    graph.add_edge(y, z, ());
    assert_eq!(graph.topo_sort(), [y, z, x]);
}

#[test]
fn map_nodes_sees_incoming_edges() {
    let mut graph = InGraph::new();
    let a = graph.add_node(10);
    let b = graph.add_node(20);
    let c = graph.add_node(30);
    graph.add_edge(a, c, 'x');
    graph.add_edge(b, c, 'y');
    let mapped = graph.map_nodes(|n, edges| n + edges.len());
    assert_eq!(mapped.nodes(), &[10, 20, 32]);
    assert_eq!(mapped.edges_to(c), vec![(&10, &'x'), (&20, &'y')]);
}

#[test]
fn map_edges_sees_both_ends() {
    let mut graph = InGraph::new();
    let a = graph.add_node(1);
    let b = graph.add_node(2);
    let c = graph.add_node(3);
    graph.add_edge(a, b, 100);
    graph.add_edge(b, c, 200);
    graph.add_edge(a, c, 300);
    let mapped = graph.map_edges(|from, to, w| w + 10 * from + to);
    assert_eq!(mapped.edges_to(b), vec![(&1, &112)]);
    assert_eq!(mapped.edges_to(c), vec![(&2, &223), (&1, &313)]);
    assert_eq!(mapped.nodes(), &[1, 2, 3]);
}

#[test]
fn nodes_mut_edits_in_place() {
    let mut graph: InGraph<i32, ()> = InGraph::new();
    graph.add_node(1);
    graph.add_node(2);
    for n in graph.nodes_mut() {
        *n *= 5;
    }
    assert_eq!(graph.nodes(), &[5, 10]);
}
