use daggy::petgraph::Direction;
use schemerz::Dag;

/// The diamond 0 -> 1 -> 3, 0 -> 2 -> 3, with a lone node 4.
fn diamond() -> Dag {
    let mut g = Dag::new();
    for _ in 0..5 {
        g.add_node();
    }
    assert!(g.add_edge(0, 1));
    assert!(g.add_edge(0, 2));
    assert!(g.add_edge(1, 3));
    assert!(g.add_edge(2, 3));
    g
}

fn sorted(mut v: Vec<usize>) -> Vec<usize> {
    v.sort();
    v
}

#[test]
fn new_graph_is_empty() {
    let g = Dag::new();
    assert_eq!(g.node_count(), 0);
    assert_eq!(g.externals(Direction::Outgoing), Vec::<usize>::new());
    assert_eq!(g.toposort(), Vec::<usize>::new());
}

#[test]
fn nodes_are_numbered_in_order() {
    let mut g = Dag::new();
    assert_eq!(g.add_node(), 0);
    assert_eq!(g.add_node(), 1);
    assert_eq!(g.add_node(), 2);
    assert_eq!(g.node_count(), 3);
}

#[test]
fn edge_is_found_only_in_its_direction() {
    let g = diamond();
    assert!(g.contains_edge(0, 1));
    assert!(!g.contains_edge(1, 0));
    assert!(!g.contains_edge(0, 3));
    assert!(!g.contains_edge(4, 0));
    assert!(!g.contains_edge(7, 9));
}

#[test]
fn closing_edge_is_refused_and_not_added() {
    let mut g = diamond();
    assert!(!g.add_edge(3, 0));
    assert!(!g.contains_edge(3, 0));
    assert!(!g.add_edge(1, 0));
    assert!(!g.contains_edge(1, 0));
    assert!(g.add_edge(4, 0));
    assert!(g.contains_edge(4, 0));
    assert!(!g.add_edge(3, 4));
}

#[test]
fn self_loop_is_refused() {
    let mut g = Dag::new();
    g.add_node();
    assert!(!g.add_edge(0, 0));
    assert!(!g.contains_edge(0, 0));
}

#[test]
fn parallel_edge_is_added() {
    let mut g = Dag::new();
    g.add_node();
    g.add_node();
    assert!(g.add_edge(0, 1));
    assert!(g.add_edge(0, 1));
    assert_eq!(g.neighbors_directed(0, Direction::Outgoing), vec![1, 1]);
}

#[test]
fn neighbors_come_latest_edge_first() {
    let g = diamond();
    assert_eq!(g.neighbors_directed(0, Direction::Outgoing), vec![2, 1]);
    assert_eq!(g.neighbors_directed(3, Direction::Incoming), vec![2, 1]);
    assert_eq!(g.neighbors_directed(1, Direction::Outgoing), vec![3]);
    assert_eq!(g.neighbors_directed(1, Direction::Incoming), vec![0]);
    assert_eq!(g.neighbors_directed(0, Direction::Incoming), Vec::<usize>::new());
    assert_eq!(g.neighbors_directed(4, Direction::Outgoing), Vec::<usize>::new());
    assert_eq!(g.neighbors_directed(17, Direction::Outgoing), Vec::<usize>::new());
}

#[test]
fn externals_are_sinks_and_sources_by_rising_index() {
    let g = diamond();
    assert_eq!(g.externals(Direction::Outgoing), vec![3, 4]);
    assert_eq!(g.externals(Direction::Incoming), vec![0, 4]);
}

#[test]
fn toposort_of_chain_is_the_chain() {
    let mut g = Dag::new();
    for _ in 0..3 {
        g.add_node();
    }
    assert!(g.add_edge(2, 1));
    assert!(g.add_edge(1, 0));
    assert_eq!(g.toposort(), vec![2, 1, 0]);
}

#[test]
fn toposort_lists_each_node_once_sources_first() {
    let g = diamond();
    let order = g.toposort();
    assert_eq!(sorted(order.clone()), vec![0, 1, 2, 3, 4]);
    let place = |x: usize| order.iter().position(|&y| y == x).unwrap();
    for (a, b) in [(0, 1), (0, 2), (1, 3), (2, 3)] {
        assert!(place(a) < place(b));
    }
}

#[test]
fn induced_stream_follows_one_direction() {
    let g = diamond();
    assert_eq!(sorted(g.induced_stream(&vec![1], Direction::Incoming)), vec![0, 1]);
    assert_eq!(sorted(g.induced_stream(&vec![1], Direction::Outgoing)), vec![1, 3]);
    assert_eq!(sorted(g.induced_stream(&vec![3], Direction::Incoming)), vec![0, 1, 2, 3]);
    assert_eq!(sorted(g.induced_stream(&vec![0], Direction::Outgoing)), vec![0, 1, 2, 3]);
    assert_eq!(sorted(g.induced_stream(&vec![4], Direction::Outgoing)), vec![4]);
}

#[test]
fn induced_stream_lists_each_node_once() {
    let g = diamond();
    let stream = g.induced_stream(&vec![0, 0, 1], Direction::Outgoing);
    assert_eq!(stream.len(), 4);
    assert_eq!(sorted(stream), vec![0, 1, 2, 3]);
}

#[test]
fn induced_stream_without_seeds_is_empty() {
    let g = diamond();
    assert_eq!(g.induced_stream(&vec![], Direction::Outgoing), Vec::<usize>::new());
}

#[test]
fn induced_stream_from_all_sinks_is_everything() {
    let g = diamond();
    let sinks = g.externals(Direction::Outgoing);
    assert_eq!(sorted(g.induced_stream(&sinks, Direction::Incoming)), vec![0, 1, 2, 3, 4]);
    let sources = g.externals(Direction::Incoming);
    assert_eq!(sorted(g.induced_stream(&sources, Direction::Outgoing)), vec![0, 1, 2, 3, 4]);
}
