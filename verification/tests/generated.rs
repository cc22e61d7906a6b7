use daggy::petgraph::Direction;
use schemerz::traversal::DfsPostOrderDirectional;
use schemerz::Dag;

/// A small generator of numbers that gives the same run every time.
struct Numbers(u64);

impl Numbers {
    fn next(&mut self, below: usize) -> usize {
        self.0 = self.0.wrapping_mul(6364136223846793005).wrapping_add(1442695040888963407);
        ((self.0 >> 33) as usize) % below
    }
}

/// The edges as the test keeps them, beside the graph.
struct Model {
    nodes: usize,
    edges: Vec<(usize, usize)>,
}

impl Model {
    fn reaches(&self, a: usize, b: usize) -> bool {
        let mut seen = vec![false; self.nodes];
        let mut stack = vec![a];
        while let Some(x) = stack.pop() {
            if x == b {
                return true;
            }
            if !seen[x] {
                seen[x] = true;
                for &(s, t) in &self.edges {
                    if s == x {
                        stack.push(t);
                    }
                }
            }
        }
        false
    }

    fn reached(&self, seeds: &[usize], dir: Direction) -> Vec<usize> {
        (0..self.nodes)
            .filter(|&x| {
                seeds.iter().any(|&s| match dir {
                    Direction::Outgoing => self.reaches(s, x),
                    Direction::Incoming => self.reaches(x, s),
                })
            })
            .collect()
    }

    fn neighbors(&self, x: usize, dir: Direction) -> Vec<usize> {
        let mut found: Vec<usize> = self
            .edges
            .iter()
            .filter_map(|&(s, t)| match dir {
                Direction::Outgoing if s == x => Some(t),
                Direction::Incoming if t == x => Some(s),
                _ => None,
            })
            .collect();
        found.reverse();
        found
    }
}

fn generate(seed: u64, nodes: usize, tries: usize) -> (Dag, Model) {
    let mut numbers = Numbers(seed);
    let mut graph = Dag::new();
    let mut model = Model { nodes, edges: Vec::new() };
    for n in 0..nodes {
        assert_eq!(graph.add_node(), n);
    }
    for _ in 0..tries {
        let a = numbers.next(nodes);
        let b = numbers.next(nodes);
        let closes = model.reaches(b, a);
        assert_eq!(graph.add_edge(a, b), !closes);
        if !closes {
            model.edges.push((a, b));
        }
    }
    (graph, model)
}

fn sorted(mut v: Vec<usize>) -> Vec<usize> {
    v.sort();
    v
}

#[test]
fn edges_are_added_unless_they_close_a_cycle() {
    for seed in 0..20 {
        let (graph, model) = generate(seed, 9, 40);
        assert_eq!(graph.node_count(), 9);
        for a in 0..9 {
            for b in 0..9 {
                assert_eq!(graph.contains_edge(a, b), model.edges.contains(&(a, b)));
            }
        }
    }
}

#[test]
fn neighbors_are_those_of_the_edges_latest_first() {
    for seed in 20..40 {
        let (graph, model) = generate(seed, 8, 30);
        for x in 0..8 {
            for dir in [Direction::Outgoing, Direction::Incoming] {
                assert_eq!(graph.neighbors_directed(x, dir), model.neighbors(x, dir));
            }
        }
    }
}

#[test]
fn externals_are_the_nodes_without_neighbors() {
    for seed in 40..60 {
        let (graph, model) = generate(seed, 8, 12);
        for dir in [Direction::Outgoing, Direction::Incoming] {
            let expected: Vec<usize> =
                (0..8).filter(|&x| model.neighbors(x, dir).is_empty()).collect();
            assert_eq!(graph.externals(dir), expected);
        }
    }
}

#[test]
fn toposort_puts_every_edge_forward() {
    for seed in 60..80 {
        let (graph, model) = generate(seed, 10, 35);
        let order = graph.toposort();
        assert_eq!(sorted(order.clone()), (0..10).collect::<Vec<usize>>());
        let place = |x: usize| order.iter().position(|&y| y == x).unwrap();
        for &(a, b) in &model.edges {
            assert!(place(a) < place(b));
        }
        assert_eq!(graph.toposort(), order);
    }
}

#[test]
fn induced_stream_is_what_the_seeds_reach() {
    for seed in 80..100 {
        let (graph, model) = generate(seed, 9, 20);
        let mut numbers = Numbers(seed);
        for dir in [Direction::Outgoing, Direction::Incoming] {
            let seeds = vec![numbers.next(9), numbers.next(9)];
            let stream = graph.induced_stream(&seeds, dir);
            let expected = model.reached(&seeds, dir);
            assert_eq!(stream.len(), expected.len());
            assert_eq!(sorted(stream), expected);
        }
    }
}

#[test]
fn walk_hands_out_what_the_start_reaches_in_post_order() {
    for seed in 100..120 {
        let (graph, model) = generate(seed, 9, 25);
        let mut numbers = Numbers(seed);
        for dir in [Direction::Outgoing, Direction::Incoming] {
            let start = numbers.next(9);
            let mut walk = DfsPostOrderDirectional::new(dir, &graph, start);
            let mut out = Vec::new();
            while let Some(x) = walk.next(&graph) {
                for y in model.neighbors(x, dir) {
                    assert!(out.contains(&y));
                }
                assert!(!out.contains(&x));
                out.push(x);
            }
            assert_eq!(out.last(), Some(&start));
            assert_eq!(sorted(out), model.reached(&[start], dir));
        }
    }
}
