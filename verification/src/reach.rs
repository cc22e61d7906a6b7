//! Reachability over a list of directed edges.
//!
//! Nodes are numbered from zero. An edge `(a, b)` points from `a` to `b`; in
//! the dependency graph it says that migration `b` depends on migration `a`.
//! Everything here is specification and proof: walks, reachability,
//! acyclicity, closures in a direction, and topological orders.

use daggy::petgraph::Direction;
use vstd::prelude::*;

verus! {

/// Every endpoint of every edge is one of the first `nodes` nodes.
pub open spec fn in_bounds(nodes: nat, edges: Seq<(usize, usize)>) -> bool {
    forall|k: int|
        0 <= k < edges.len() ==> (#[trigger] edges[k]).0 < nodes && edges[k].1 < nodes
}

/// Position `k` of `p` and its successor are joined by an edge.
pub open spec fn linked(edges: Seq<(usize, usize)>, p: Seq<usize>, k: int) -> bool {
    edges.contains((p[k], p[k + 1]))
}

/// `p` is a non-empty list of nodes in which each is joined to the next.
pub open spec fn is_walk(edges: Seq<(usize, usize)>, p: Seq<usize>) -> bool {
    &&& p.len() > 0
    &&& forall|k: int| 0 <= k < p.len() - 1 ==> #[trigger] linked(edges, p, k)
}

/// `p` is a walk that starts at `a` and ends at `b`.
pub open spec fn walk_between(edges: Seq<(usize, usize)>, p: Seq<usize>, a: usize, b: usize) -> bool {
    &&& is_walk(edges, p)
    &&& p[0] == a
    &&& p[p.len() - 1] == b
}

/// `b` can be reached from `a` along zero or more edges.
pub open spec fn reaches(edges: Seq<(usize, usize)>, a: usize, b: usize) -> bool {
    exists|p: Seq<usize>| walk_between(edges, p, a, b)
}

/// No walk of one or more edges returns to where it started.
pub open spec fn acyclic(edges: Seq<(usize, usize)>) -> bool {
    forall|p: Seq<usize>| #[trigger] is_walk(edges, p) && p.len() > 1 ==> p[0] != p[p.len() - 1]
}

/// Every edge of `sub` is an edge of `sup`.
pub open spec fn included(sub: Seq<(usize, usize)>, sup: Seq<(usize, usize)>) -> bool {
    forall|e: (usize, usize)| sub.contains(e) ==> sup.contains(e)
}

/// `y` is a neighbour of `x` across one edge, followed in direction `dir`:
/// along the edge for `Outgoing`, against it for `Incoming`.
pub open spec fn step(edges: Seq<(usize, usize)>, dir: Direction, x: usize, y: usize) -> bool {
    match dir {
        Direction::Outgoing => edges.contains((x, y)),
        Direction::Incoming => edges.contains((y, x)),
    }
}

/// `b` can be reached from `a` by following edges in direction `dir`.
pub open spec fn reaches_toward(
    edges: Seq<(usize, usize)>,
    dir: Direction,
    a: usize,
    b: usize,
) -> bool {
    match dir {
        Direction::Outgoing => reaches(edges, a, b),
        Direction::Incoming => reaches(edges, b, a),
    }
}

/// `x` has no neighbour in direction `dir`: a sink for `Outgoing`, a source
/// for `Incoming`.
pub open spec fn is_external(edges: Seq<(usize, usize)>, dir: Direction, x: usize) -> bool {
    forall|y: usize| !step(edges, dir, x, y)
}

/// The other direction.
pub open spec fn flip(dir: Direction) -> Direction {
    match dir {
        Direction::Outgoing => Direction::Incoming,
        Direction::Incoming => Direction::Outgoing,
    }
}

/// The nodes that can be reached from some seed by following edges in
/// direction `dir`, the seeds included.
pub open spec fn closure(edges: Seq<(usize, usize)>, dir: Direction, seeds: Set<usize>) -> Set<
    usize,
> {
    Set::new(|x: usize| exists|s: usize| seeds.contains(s) && reaches_toward(edges, dir, s, x))
}

/// The nodes among the first `nodes` that have no neighbour in direction
/// `dir`.
pub open spec fn externals(nodes: nat, edges: Seq<(usize, usize)>, dir: Direction) -> Set<usize> {
    Set::new(|x: usize| x < nodes && is_external(edges, dir, x))
}

/// `order` lists each of the first `nodes` nodes exactly once.
pub open spec fn is_permutation(nodes: nat, order: Seq<usize>) -> bool {
    &&& order.len() == nodes
    &&& order.no_duplicates()
    &&& forall|k: int| 0 <= k < order.len() ==> #[trigger] order[k] < nodes
}

/// Wherever two entries of `order` are joined by an edge, the source of the
/// edge comes first.
pub open spec fn respects(edges: Seq<(usize, usize)>, order: Seq<usize>) -> bool {
    forall|i: int, j: int|
        0 <= i < order.len() && 0 <= j < order.len() && edges.contains(
            (#[trigger] order[i], #[trigger] order[j]),
        ) ==> i < j
}

/// `order` is a topological order of the graph.
pub open spec fn topological(nodes: nat, edges: Seq<(usize, usize)>, order: Seq<usize>) -> bool {
    is_permutation(nodes, order) && respects(edges, order)
}

/// A node reaches itself.
pub proof fn lemma_reaches_self(edges: Seq<(usize, usize)>, a: usize)
    ensures
        reaches(edges, a, a),
{
    assert(walk_between(edges, seq![a], a, a));
}

/// An edge is a walk.
pub proof fn lemma_reaches_edge(edges: Seq<(usize, usize)>, a: usize, b: usize)
    requires
        edges.contains((a, b)),
    ensures
        reaches(edges, a, b),
{
    let p = seq![a, b];
    assert(linked(edges, p, 0));
    assert(walk_between(edges, p, a, b));
}

/// Two walks that meet end to start join into one.
pub proof fn lemma_join_walks(
    edges: Seq<(usize, usize)>,
    p: Seq<usize>,
    q: Seq<usize>,
)
    requires
        is_walk(edges, p),
        is_walk(edges, q),
        p[p.len() - 1] == q[0],
    ensures
        is_walk(edges, p + q.skip(1)),
        (p + q.skip(1))[0] == p[0],
        (p + q.skip(1))[(p + q.skip(1)).len() - 1] == q[q.len() - 1],
        (p + q.skip(1)).len() == p.len() + q.len() - 1,
{
    let r = p + q.skip(1);
    assert forall|k: int| 0 <= k < r.len() - 1 implies #[trigger] linked(edges, r, k) by {
        if k < p.len() - 1 {
            assert(linked(edges, p, k));
        } else {
            let j = k - (p.len() - 1);
            assert(linked(edges, q, j));
            assert(r[k + 1] == q[j + 1]);
            if j == 0 {
                assert(r[k] == p[p.len() - 1]);
            } else {
                assert(r[k] == q[j]);
            }
        }
    }
}

/// Reachability is transitive.
pub proof fn lemma_reaches_trans(edges: Seq<(usize, usize)>, a: usize, b: usize, c: usize)
    requires
        reaches(edges, a, b),
        reaches(edges, b, c),
    ensures
        reaches(edges, a, c),
{
    let p = choose|p: Seq<usize>| walk_between(edges, p, a, b);
    let q = choose|q: Seq<usize>| walk_between(edges, q, b, c);
    lemma_join_walks(edges, p, q);
    assert(walk_between(edges, p + q.skip(1), a, c));
}

/// A walk followed by one more edge.
pub proof fn lemma_reaches_then_edge(edges: Seq<(usize, usize)>, a: usize, b: usize, c: usize)
    requires
        reaches(edges, a, b),
        edges.contains((b, c)),
    ensures
        reaches(edges, a, c),
{
    lemma_reaches_edge(edges, b, c);
    lemma_reaches_trans(edges, a, b, c);
}

/// Reachability in a direction is reflexive.
pub proof fn lemma_toward_self(edges: Seq<(usize, usize)>, dir: Direction, a: usize)
    ensures
        reaches_toward(edges, dir, a, a),
{
    lemma_reaches_self(edges, a);
}

/// Reachability in a direction extends by one step in that direction.
pub proof fn lemma_toward_then_step(
    edges: Seq<(usize, usize)>,
    dir: Direction,
    a: usize,
    b: usize,
    c: usize,
)
    requires
        reaches_toward(edges, dir, a, b),
        step(edges, dir, b, c),
    ensures
        reaches_toward(edges, dir, a, c),
{
    match dir {
        Direction::Outgoing => {
            lemma_reaches_then_edge(edges, a, b, c);
        },
        Direction::Incoming => {
            lemma_reaches_edge(edges, c, b);
            lemma_reaches_trans(edges, c, b, a);
        },
    }
}

/// The empty list of edges is acyclic.
pub proof fn lemma_acyclic_empty()
    ensures
        acyclic(Seq::<(usize, usize)>::empty()),
{
    let edges = Seq::<(usize, usize)>::empty();
    assert forall|p: Seq<usize>| #[trigger] is_walk(edges, p) && p.len() > 1 implies p[0] != p[p.len()
        - 1] by {
        assert(linked(edges, p, 0));
    }
}

/// `b` can be reached from `a` along one or more edges.
pub open spec fn reaches_strictly(edges: Seq<(usize, usize)>, a: usize, b: usize) -> bool {
    exists|p: Seq<usize>| walk_between(edges, p, a, b) && p.len() > 1
}

/// A walk over the edges and one more edge, from `a` to `b`, either does
/// without the new edge or leads to `a` and goes on from `b`.
proof fn lemma_walk_over_new_edge(edges: Seq<(usize, usize)>, a: usize, b: usize, p: Seq<usize>)
    requires
        is_walk(edges.push((a, b)), p),
        p.len() > 1,
    ensures
        reaches_strictly(edges, p[0], p[p.len() - 1]) || (reaches(edges, p[0], a) && reaches(
            edges,
            b,
            p[p.len() - 1],
        )),
    decreases p.len(),
{
    let more = edges.push((a, b));
    let x = p[0];
    let z = p[p.len() - 2];
    let y = p[p.len() - 1];
    assert(linked(more, p, p.len() - 2));
    let at = choose|i: int| 0 <= i < more.len() && more[i] == (z, y);
    let old_link = at < edges.len();
    if old_link {
        assert(edges[at] == (z, y));
    } else {
        assert(z == a && y == b);
    }
    if p.len() == 2 {
        if old_link {
            let q = seq![z, y];
            assert(linked(edges, q, 0));
            assert(walk_between(edges, q, x, y));
        } else {
            lemma_reaches_self(edges, a);
            lemma_reaches_self(edges, b);
        }
    } else {
        let front = p.drop_last();
        assert forall|k: int| 0 <= k < front.len() - 1 implies #[trigger] linked(more, front, k) by {
            assert(linked(more, p, k));
        }
        lemma_walk_over_new_edge(edges, a, b, front);
        if reaches_strictly(edges, x, z) {
            if old_link {
                let q = choose|q: Seq<usize>| walk_between(edges, q, x, z) && q.len() > 1;
                let step = seq![z, y];
                assert(linked(edges, step, 0));
                lemma_join_walks(edges, q, step);
                assert(walk_between(edges, q + step.skip(1), x, y));
            } else {
                let q = choose|q: Seq<usize>| walk_between(edges, q, x, z) && q.len() > 1;
                assert(walk_between(edges, q, x, a));
                lemma_reaches_self(edges, b);
            }
        } else {
            if old_link {
                lemma_reaches_then_edge(edges, b, z, y);
            } else {
                lemma_reaches_self(edges, b);
            }
        }
    }
}

/// Where one more edge, from `a` to `b`, closes a cycle in an acyclic graph,
/// `a` could already be reached from `b`.
pub proof fn lemma_closing_edge(edges: Seq<(usize, usize)>, a: usize, b: usize)
    requires
        acyclic(edges),
        !acyclic(edges.push((a, b))),
    ensures
        reaches(edges, b, a),
{
    let more = edges.push((a, b));
    let p = choose|p: Seq<usize>| #[trigger] is_walk(more, p) && p.len() > 1 && p[0] == p[p.len() - 1];
    lemma_walk_over_new_edge(edges, a, b, p);
    if reaches_strictly(edges, p[0], p[p.len() - 1]) {
        let q = choose|q: Seq<usize>| walk_between(edges, q, p[0], p[p.len() - 1]) && q.len() > 1;
        assert(is_walk(edges, q));
    } else {
        lemma_reaches_trans(edges, b, p[0], a);
    }
}

/// `b` can be reached from `a` by following one or more edges in direction
/// `dir`.
pub open spec fn strictly_toward(
    edges: Seq<(usize, usize)>,
    dir: Direction,
    a: usize,
    b: usize,
) -> bool {
    match dir {
        Direction::Outgoing => reaches_strictly(edges, a, b),
        Direction::Incoming => reaches_strictly(edges, b, a),
    }
}

/// One step is a walk of one edge.
pub proof fn lemma_strictly_step(edges: Seq<(usize, usize)>, dir: Direction, a: usize, b: usize)
    requires
        step(edges, dir, a, b),
    ensures
        strictly_toward(edges, dir, a, b),
{
    match dir {
        Direction::Outgoing => {
            let p = seq![a, b];
            assert(linked(edges, p, 0));
            assert(walk_between(edges, p, a, b) && p.len() > 1);
        },
        Direction::Incoming => {
            let p = seq![b, a];
            assert(linked(edges, p, 0));
            assert(walk_between(edges, p, b, a) && p.len() > 1);
        },
    }
}

/// A walk of one or more edges followed by a step is a walk of one or more
/// edges.
pub proof fn lemma_strictly_then_step(
    edges: Seq<(usize, usize)>,
    dir: Direction,
    a: usize,
    b: usize,
    c: usize,
)
    requires
        strictly_toward(edges, dir, a, b),
        step(edges, dir, b, c),
    ensures
        strictly_toward(edges, dir, a, c),
{
    match dir {
        Direction::Outgoing => {
            let p = choose|p: Seq<usize>| walk_between(edges, p, a, b) && p.len() > 1;
            let q = seq![b, c];
            assert(linked(edges, q, 0));
            lemma_join_walks(edges, p, q);
            assert(walk_between(edges, p + q.skip(1), a, c));
        },
        Direction::Incoming => {
            let p = choose|p: Seq<usize>| walk_between(edges, p, b, a) && p.len() > 1;
            let q = seq![c, b];
            assert(linked(edges, q, 0));
            lemma_join_walks(edges, q, p);
            assert(walk_between(edges, q + p.skip(1), c, a));
        },
    }
}

/// In an acyclic graph no walk of one or more edges comes back.
pub proof fn lemma_strictly_elsewhere(edges: Seq<(usize, usize)>, dir: Direction, a: usize)
    requires
        acyclic(edges),
    ensures
        !strictly_toward(edges, dir, a, a),
{
    if strictly_toward(edges, dir, a, a) {
        let p = choose|p: Seq<usize>| walk_between(edges, p, a, a) && p.len() > 1;
        assert(is_walk(edges, p));
    }
}

/// Where the edges stay within the first `nodes` nodes, so does every walk of
/// one or more edges.
pub proof fn lemma_walk_in_bounds(nodes: nat, edges: Seq<(usize, usize)>, p: Seq<usize>, k: int)
    requires
        in_bounds(nodes, edges),
        is_walk(edges, p),
        p.len() > 1,
        0 <= k < p.len(),
    ensures
        p[k] < nodes,
{
    if k < p.len() - 1 {
        assert(linked(edges, p, k));
        let e = (p[k], p[k + 1]);
        let i = choose|i: int| 0 <= i < edges.len() && edges[i] == e;
        assert(edges[i].0 < nodes);
    } else {
        assert(linked(edges, p, k - 1));
        let e = (p[k - 1], p[k]);
        let i = choose|i: int| 0 <= i < edges.len() && edges[i] == e;
        assert(edges[i].1 < nodes);
    }
}

/// What a node within bounds reaches is within bounds.
pub proof fn lemma_reaches_in_bounds(nodes: nat, edges: Seq<(usize, usize)>, a: usize, b: usize)
    requires
        in_bounds(nodes, edges),
        reaches(edges, a, b),
        a < nodes || b < nodes,
    ensures
        a < nodes,
        b < nodes,
{
    let p = choose|p: Seq<usize>| walk_between(edges, p, a, b);
    if p.len() > 1 {
        lemma_walk_in_bounds(nodes, edges, p, 0);
        lemma_walk_in_bounds(nodes, edges, p, p.len() - 1);
    }
}

} // verus!
