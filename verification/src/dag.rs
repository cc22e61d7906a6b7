//! The dependency graph, kept in a `daggy::Dag`.
//!
//! `daggy` owns the nodes and edges and refuses an edge that would close a
//! cycle. This module states what each of its operations does to the list of
//! edges, and keeps the two facts the rest of the library builds on: every
//! edge joins existing nodes, and the edges are acyclic.
//!
//! Nodes carry no weight here: node `i` stands for the `i`-th registered
//! migration. Indices are `usize`, so the graph has no smaller limit of its
//! own on how many nodes or edges it holds.

use crate::reach::{acyclic, externals, in_bounds, step, topological};
use daggy::petgraph::algo::toposort;
use daggy::petgraph::Direction;
use daggy::NodeIndex;
use vstd::prelude::*;

verus! {

/// `petgraph::Direction`, the direction in which an edge is followed:
/// `Outgoing` along it, `Incoming` against it.
#[verifier::external_type_specification]
pub struct ExDirection(Direction);

/// `Direction::opposite` swaps the two directions.
pub assume_specification[ Direction::opposite ](dir: Direction) -> (r: Direction)
    ensures
        r == crate::reach::flip(dir),
;

/// A directed acyclic graph: a `daggy::Dag` without weights.
#[verifier::external_body]
pub struct Dag {
    pub(crate) inner: daggy::Dag<(), (), usize>,
}

/// The number of nodes in the graph.
pub uninterp spec fn dag_nodes(g: Dag) -> nat;

/// The edges of the graph, in the order in which they were added.
pub uninterp spec fn dag_edges(g: Dag) -> Seq<(usize, usize)>;

/// The order in which `petgraph::algo::toposort` lists the nodes of a graph
/// with this many nodes and these edges, added in this order.
pub uninterp spec fn toposort_order(nodes: nat, edges: Seq<(usize, usize)>) -> Seq<usize>;

/// The neighbours of `x` in direction `dir`, one for each edge at `x`, in the
/// order in which the edges were added.
pub open spec fn neighbors(edges: Seq<(usize, usize)>, dir: Direction, x: usize) -> Seq<usize>
    decreases edges.len(),
{
    if edges.len() == 0 {
        Seq::empty()
    } else {
        let rest = neighbors(edges.drop_last(), dir, x);
        let (a, b) = edges.last();
        match dir {
            Direction::Outgoing => if a == x {
                rest.push(b)
            } else {
                rest
            },
            Direction::Incoming => if b == x {
                rest.push(a)
            } else {
                rest
            },
        }
    }
}

/// Each entry is smaller than the next.
pub open spec fn increasing(s: Seq<usize>) -> bool {
    forall|i: int, j: int| 0 <= i < j < s.len() ==> s[i] < s[j]
}

/// `Dag::new`: a graph without nodes or edges.
#[verifier::external_body]
fn dag_new() -> (g: Dag)
    ensures
        dag_nodes(g) == 0,
        dag_edges(g) == Seq::<(usize, usize)>::empty(),
{
    Dag { inner: daggy::Dag::new() }
}

/// `Dag::node_count`: the number of nodes.
#[verifier::external_body]
fn dag_node_count(g: &Dag) -> (n: usize)
    ensures
        n == dag_nodes(*g),
{
    g.inner.node_count()
}

/// `Dag::add_node`: appends a node and returns its index, which is the
/// number of nodes there were before. The edges stay as they are.
#[verifier::external_body]
fn dag_add_node(g: &mut Dag) -> (idx: usize)
    ensures
        idx == dag_nodes(*old(g)),
        dag_nodes(*final(g)) == dag_nodes(*old(g)) + 1,
        dag_edges(*final(g)) == dag_edges(*old(g)),
{
    g.inner.add_node(()).index()
}

/// `Dag::add_edge`, for two existing nodes: the edge from `a` to `b` is
/// appended and `true` returned if the graph stays acyclic with it; if it
/// would close a cycle the graph is left as it is and `false` returned.
#[verifier::external_body]
fn dag_add_edge(g: &mut Dag, a: usize, b: usize) -> (added: bool)
    requires
        a < dag_nodes(*old(g)),
        b < dag_nodes(*old(g)),
        acyclic(dag_edges(*old(g))),
    ensures
        added == acyclic(dag_edges(*old(g)).push((a, b))),
        dag_nodes(*final(g)) == dag_nodes(*old(g)),
        dag_edges(*final(g)) == if added {
            dag_edges(*old(g)).push((a, b))
        } else {
            dag_edges(*old(g))
        },
{
    g.inner.add_edge(NodeIndex::new(a), NodeIndex::new(b), ()).is_ok()
}

/// `Dag::find_edge`: whether there is an edge from `a` to `b`.
#[verifier::external_body]
fn dag_has_edge(g: &Dag, a: usize, b: usize) -> (found: bool)
    ensures
        found == dag_edges(*g).contains((a, b)),
{
    g.inner.find_edge(NodeIndex::new(a), NodeIndex::new(b)).is_some()
}

/// `Graph::neighbors_directed`: the neighbours of `a` in direction `dir`,
/// the one across the most recently added edge first.
#[verifier::external_body]
fn dag_neighbors(g: &Dag, a: usize, dir: Direction) -> (r: Vec<usize>)
    ensures
        r@ == neighbors(dag_edges(*g), dir, a).reverse(),
{
    g.inner.graph().neighbors_directed(NodeIndex::new(a), dir).map(|n| n.index()).collect()
}

/// `Graph::externals`: the nodes without a neighbour in direction `dir`, by
/// rising index.
#[verifier::external_body]
fn dag_externals(g: &Dag, dir: Direction) -> (r: Vec<usize>)
    ensures
        increasing(r@),
        forall|x: usize| r@.contains(x) <==> externals(dag_nodes(*g), dag_edges(*g), dir).contains(x),
{
    g.inner.graph().externals(dir).map(|n| n.index()).collect()
}

/// `petgraph::algo::toposort`: for an acyclic graph, every node once, each
/// before the nodes that its edges point to; `None` for a graph with a cycle.
#[verifier::external_body]
fn dag_toposort(g: &Dag) -> (r: Option<Vec<usize>>)
    ensures
        match r {
            Some(order) => {
                &&& acyclic(dag_edges(*g))
                &&& order@ == toposort_order(dag_nodes(*g), dag_edges(*g))
                &&& topological(dag_nodes(*g), dag_edges(*g), order@)
            },
            None => !acyclic(dag_edges(*g)),
        },
{
    match toposort(g.inner.graph(), None) {
        Ok(order) => Some(order.into_iter().map(|n| n.index()).collect()),
        Err(_) => None,
    }
}

/// `neighbors` lists exactly the nodes one step away.
pub proof fn lemma_neighbors_step(edges: Seq<(usize, usize)>, dir: Direction, x: usize, y: usize)
    ensures
        neighbors(edges, dir, x).contains(y) <==> step(edges, dir, x, y),
    decreases edges.len(),
{
    if edges.len() == 0 {
    } else {
        let rest = edges.drop_last();
        let e = edges.last();
        lemma_neighbors_step(rest, dir, x, y);
        let wanted = match dir {
            Direction::Outgoing => (x, y),
            Direction::Incoming => (y, x),
        };
        assert(edges =~= rest.push(e));
        assert(edges.contains(wanted) <==> rest.contains(wanted) || e == wanted) by {
            if rest.contains(wanted) {
                let i = choose|i: int| 0 <= i < rest.len() && rest[i] == wanted;
                assert(edges[i] == wanted);
            }
            if e == wanted {
                assert(edges[edges.len() - 1] == wanted);
            }
            if edges.contains(wanted) {
                let i = choose|i: int| 0 <= i < edges.len() && edges[i] == wanted;
                if i < rest.len() {
                    assert(rest[i] == wanted);
                }
            }
        }
        let before = neighbors(rest, dir, x);
        let after = neighbors(edges, dir, x);
        match dir {
            Direction::Outgoing => {
                if e.0 == x {
                    assert(after == before.push(e.1));
                    vstd::seq_lib::lemma_seq_contains_after_push(before, e.1, y);
                }
            },
            Direction::Incoming => {
                if e.1 == x {
                    assert(after == before.push(e.0));
                    vstd::seq_lib::lemma_seq_contains_after_push(before, e.0, y);
                }
            },
        }
    }
}

impl Dag {
    /// The number of nodes.
    pub open spec fn nodes(&self) -> nat {
        dag_nodes(*self)
    }

    /// The edges, in the order in which they were added.
    pub open spec fn edges(&self) -> Seq<(usize, usize)> {
        dag_edges(*self)
    }

    /// Every edge joins existing nodes, and the edges are acyclic.
    pub open spec fn wf(&self) -> bool {
        &&& in_bounds(self.nodes(), self.edges())
        &&& acyclic(self.edges())
    }

    /// A graph without nodes or edges.
    pub fn new() -> (g: Dag)
        ensures
            g.wf(),
            g.nodes() == 0,
            g.edges() == Seq::<(usize, usize)>::empty(),
    {
        proof {
            crate::reach::lemma_acyclic_empty();
        }
        dag_new()
    }

    /// The number of nodes.
    pub fn node_count(&self) -> (n: usize)
        ensures
            n == self.nodes(),
    {
        dag_node_count(self)
    }

    /// Adds a node and returns its index.
    pub fn add_node(&mut self) -> (idx: usize)
        requires
            old(self).wf(),
        ensures
            final(self).wf(),
            idx == old(self).nodes(),
            final(self).nodes() == old(self).nodes() + 1,
            final(self).edges() == old(self).edges(),
    {
        dag_add_node(self)
    }

    /// Adds the edge from `a` to `b` unless it would close a cycle, and says
    /// whether it was added.
    pub fn add_edge(&mut self, a: usize, b: usize) -> (added: bool)
        requires
            old(self).wf(),
            a < old(self).nodes(),
            b < old(self).nodes(),
        ensures
            final(self).wf(),
            added == acyclic(old(self).edges().push((a, b))),
            final(self).nodes() == old(self).nodes(),
            final(self).edges() == if added {
                old(self).edges().push((a, b))
            } else {
                old(self).edges()
            },
    {
        dag_add_edge(self, a, b)
    }

    /// Whether there is an edge from `a` to `b`.
    pub fn contains_edge(&self, a: usize, b: usize) -> (found: bool)
        ensures
            found == self.edges().contains((a, b)),
    {
        dag_has_edge(self, a, b)
    }

    /// The neighbours of `a` in direction `dir`, one for each edge at `a`,
    /// the one across the most recently added edge first.
    pub fn neighbors_directed(&self, a: usize, dir: Direction) -> (r: Vec<usize>)
        ensures
            r@ == neighbors(self.edges(), dir, a).reverse(),
            forall|y: usize| r@.contains(y) <==> step(self.edges(), dir, a, y),
    {
        let r = dag_neighbors(self, a, dir);
        proof {
            let listed = neighbors(self.edges(), dir, a);
            assert forall|y: usize| r@.contains(y) <==> step(self.edges(), dir, a, y) by {
                lemma_neighbors_step(self.edges(), dir, a, y);
                if listed.contains(y) {
                    let i = choose|i: int| 0 <= i < listed.len() && listed[i] == y;
                    assert(r@[listed.len() - 1 - i] == y);
                }
                if r@.contains(y) {
                    let i = choose|i: int| 0 <= i < r@.len() && r@[i] == y;
                    assert(listed[listed.len() - 1 - i] == y);
                }
            }
        }
        r
    }

    /// The nodes without a neighbour in direction `dir`, by rising index:
    /// the sinks for `Outgoing`, the sources for `Incoming`.
    pub fn externals(&self, dir: Direction) -> (r: Vec<usize>)
        ensures
            increasing(r@),
            forall|x: usize| r@.contains(x) <==> externals(self.nodes(), self.edges(), dir).contains(x),
    {
        dag_externals(self, dir)
    }

    /// A topological order of the nodes: each node once, and each before the
    /// nodes that depend on it.
    pub fn toposort(&self) -> (order: Vec<usize>)
        requires
            self.wf(),
        ensures
            order@ == toposort_order(self.nodes(), self.edges()),
            topological(self.nodes(), self.edges(), order@),
    {
        match dag_toposort(self) {
            Some(order) => order,
            None => Vec::new(),
        }
    }
}

} // verus!
