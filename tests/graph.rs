use algo_lib::graph::DirectedGraph;

fn sorted_groups(groups: Vec<Vec<usize>>) -> Vec<Vec<usize>> {
    let mut groups: Vec<Vec<usize>> = groups
        .into_iter()
        .map(|mut g| {
            g.sort();
            g
        })
        .collect();
    groups.sort();
    groups
}

#[test]
fn components_of_two_cycles_and_a_tail() {
    let mut g = DirectedGraph::new(6);
    g.add_edge(0, 1);
    g.add_edge(1, 2);
    g.add_edge(2, 0);
    g.add_edge(2, 3);
    g.add_edge(3, 4);
    g.add_edge(4, 3);
    g.add_edge(4, 5);
    let sccs = sorted_groups(g.find_sccs());
    assert_eq!(sccs, vec![vec![0, 1, 2], vec![3, 4], vec![5]]);
}

#[test]
fn components_come_in_topological_order() {
    let mut g = DirectedGraph::new(3);
    g.add_edge(0, 1);
    g.add_edge(1, 2);
    assert_eq!(g.find_sccs(), vec![vec![0], vec![1], vec![2]]);
}

#[test]
fn postorder_lists_each_vertex_once() {
    let mut g = DirectedGraph::new(4);
    g.add_edge(0, 1);
    g.add_edge(0, 2);
    g.add_edge(2, 3);
    assert_eq!(g.postorder(), vec![1, 3, 2, 0]);
}

#[test]
fn transposed_reverses_every_edge() {
    let mut g = DirectedGraph::new(3);
    g.add_edge(0, 1);
    g.add_edge(0, 2);
    g.add_edge(2, 1);
    let t = g.transposed();
    assert_eq!(t.n, 3);
    assert_eq!(t.adj, vec![vec![], vec![0, 2], vec![0]]);
}

#[test]
fn empty_graph_has_no_components() {
    let g = DirectedGraph::new(0);
    assert!(g.find_sccs().is_empty());
    assert!(g.postorder().is_empty());
}
