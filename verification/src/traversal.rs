//! A depth-first walk of the graph in either direction, which hands out each
//! node after all the nodes that it leads to.

use crate::dag::{dag_nodes, Dag};
use crate::reach::{
    acyclic, in_bounds, lemma_strictly_elsewhere, lemma_strictly_step, lemma_strictly_then_step,
    lemma_toward_self, lemma_toward_then_step, reaches_toward, step, strictly_toward,
};
use crate::stream::{lemma_closed_holds_closure, lemma_mark, lemma_step_in_bounds, unmarked};
use daggy::petgraph::visit::{VisitMap, Visitable};
use daggy::petgraph::Direction;
use daggy::NodeIndex;
use vstd::prelude::*;

verus! {

/// The map in which `petgraph` marks the nodes of a graph as visited.
#[verifier::external_body]
pub struct Marks {
    inner: <daggy::Dag<(), (), usize> as Visitable>::Map,
}

/// The nodes that are marked.
pub uninterp spec fn marked(marks: Marks) -> Set<usize>;

/// The number of nodes that the map was made for.
pub uninterp spec fn marks_len(marks: Marks) -> nat;

/// `Visitable::visit_map`: a map for the nodes of the graph, none marked.
#[verifier::external_body]
fn marks_for(graph: &Dag) -> (marks: Marks)
    ensures
        marked(marks) == Set::<usize>::empty(),
        marks_len(marks) == dag_nodes(*graph),
{
    Marks { inner: graph.inner.visit_map() }
}

/// `VisitMap::visit`, for a node that the map was made for: marks the node
/// and says whether it was not marked before.
#[verifier::external_body]
fn mark(marks: &mut Marks, x: usize) -> (first: bool)
    requires
        x < marks_len(*old(marks)),
    ensures
        first == !marked(*old(marks)).contains(x),
        marked(*final(marks)) == marked(*old(marks)).insert(x),
        marks_len(*final(marks)) == marks_len(*old(marks)),
{
    marks.inner.visit(NodeIndex::<usize>::new(x))
}

/// `VisitMap::is_visited`: whether the node is marked.
#[verifier::external_body]
fn is_marked(marks: &Marks, x: usize) -> (found: bool)
    ensures
        found == marked(*marks).contains(x),
{
    marks.inner.is_visited(&NodeIndex::<usize>::new(x))
}

/// Some place of the stack above `p` holds `y`.
pub open spec fn above(stack: Seq<usize>, p: int, y: usize) -> bool {
    exists|q: int| p < q < stack.len() && #[trigger] stack[q] == y
}

/// Place `p` of the stack is where the discovered node `x` waits to be
/// finished: each of its neighbours is finished or higher up in the stack,
/// and everything higher up is led to from `x`.
pub open spec fn seated(
    edges: Seq<(usize, usize)>,
    dir: Direction,
    stack: Seq<usize>,
    finished: Set<usize>,
    x: usize,
    p: int,
) -> bool {
    &&& 0 <= p < stack.len()
    &&& stack[p] == x
    &&& forall|y: usize| #[trigger] step(edges, dir, x, y) ==> finished.contains(y) || above(stack, p, y)
    &&& forall|q: int| p < q < stack.len() ==> strictly_toward(edges, dir, x, #[trigger] stack[q])
}

/// What holds of a depth-first walk under way.
///
/// What is finished is discovered, and what is discovered or on the stack is
/// led to from the start. The neighbours of a finished node are finished.
/// A node that is discovered and not finished has its place in the stack.
/// The start is discovered or on the stack.
pub open spec fn walking(
    nodes: nat,
    edges: Seq<(usize, usize)>,
    dir: Direction,
    start: usize,
    stack: Seq<usize>,
    discovered: Set<usize>,
    finished: Set<usize>,
) -> bool {
    &&& forall|x: usize| finished.contains(x) ==> discovered.contains(x)
    &&& forall|x: usize|
        discovered.contains(x) ==> x < nodes && reaches_toward(edges, dir, start, x)
    &&& forall|k: int|
        0 <= k < stack.len() ==> (#[trigger] stack[k]) < nodes && reaches_toward(
            edges,
            dir,
            start,
            stack[k],
        )
    &&& forall|x: usize, y: usize|
        finished.contains(x) && #[trigger] step(edges, dir, x, y) ==> finished.contains(y)
    &&& forall|x: usize|
        discovered.contains(x) && !finished.contains(x) ==> exists|p: int| #[trigger]
            seated(edges, dir, stack, finished, x, p)
    &&& discovered.contains(start) || stack.contains(start)
}

/// For each of the first `nodes` nodes, whether the set holds it.
pub open spec fn marks_of(nodes: nat, set: Set<usize>) -> Seq<bool> {
    Seq::new(nodes, |i: int| set.contains(i as usize))
}

/// The walk begins with the start on the stack and nothing discovered.
pub proof fn lemma_walk_begins(nodes: nat, edges: Seq<(usize, usize)>, dir: Direction, start: usize)
    requires
        start < nodes,
    ensures
        walking(nodes, edges, dir, start, seq![start], Set::empty(), Set::empty()),
{
    lemma_toward_self(edges, dir, start);
    assert(seq![start][0] == start);
}

/// Meeting a node for the first time discovers it and puts those of its
/// neighbours on the stack that are not discovered.
pub proof fn lemma_walk_discovers(
    nodes: nat,
    edges: Seq<(usize, usize)>,
    dir: Direction,
    start: usize,
    stack: Seq<usize>,
    discovered: Set<usize>,
    finished: Set<usize>,
    pushed: Seq<usize>,
)
    requires
        in_bounds(nodes, edges),
        acyclic(edges),
        walking(nodes, edges, dir, start, stack, discovered, finished),
        stack.len() > 0,
        !discovered.contains(stack[stack.len() - 1]),
        forall|y: usize|
            pushed.contains(y) <==> step(edges, dir, stack[stack.len() - 1], y)
                && !discovered.contains(y),
    ensures
        walking(
            nodes,
            edges,
            dir,
            start,
            stack + pushed,
            discovered.insert(stack[stack.len() - 1]),
            finished,
        ),
{
    let top = stack.len() - 1;
    let nx = stack[top];
    let more = stack + pushed;
    let found = discovered.insert(nx);
    assert forall|k: int| 0 <= k < more.len() implies (#[trigger] more[k]) < nodes
        && reaches_toward(edges, dir, start, more[k]) by {
        if k < stack.len() {
            assert(more[k] == stack[k]);
        } else {
            let y = pushed[k - stack.len()];
            assert(more[k] == y);
            assert(pushed.contains(y));
            lemma_step_in_bounds(nodes, edges, dir, nx, y);
            lemma_toward_then_step(edges, dir, start, nx, y);
        }
    }
    assert forall|x: usize| found.contains(x) && !finished.contains(x) implies exists|p: int| #[trigger]
        seated(edges, dir, more, finished, x, p) by {
        if x == nx {
            assert forall|y: usize| #[trigger] step(edges, dir, nx, y) implies finished.contains(y)
                || above(more, top, y) by {
                if discovered.contains(y) {
                    if !finished.contains(y) {
                        let p = choose|p: int| #[trigger] seated(edges, dir, stack, finished, y, p);
                        assert(p != top);
                        assert(strictly_toward(edges, dir, y, stack[top]));
                        lemma_strictly_then_step(edges, dir, y, nx, y);
                        lemma_strictly_elsewhere(edges, dir, y);
                    }
                } else {
                    assert(pushed.contains(y));
                    let j = choose|j: int| 0 <= j < pushed.len() && pushed[j] == y;
                    assert(more[stack.len() + j] == y);
                }
            }
            assert forall|q: int| top < q < more.len() implies strictly_toward(
                edges,
                dir,
                nx,
                #[trigger] more[q],
            ) by {
                let y = pushed[q - stack.len()];
                assert(more[q] == y);
                assert(pushed.contains(y));
                lemma_strictly_step(edges, dir, nx, y);
            }
            assert(more[top] == nx);
            assert(seated(edges, dir, more, finished, nx, top));
        } else {
            let p = choose|p: int| #[trigger] seated(edges, dir, stack, finished, x, p);
            assert(more[p] == x);
            assert forall|y: usize| #[trigger] step(edges, dir, x, y) implies finished.contains(y)
                || above(more, p, y) by {
                if !finished.contains(y) {
                    assert(above(stack, p, y));
                    let q = choose|q: int| p < q < stack.len() && #[trigger] stack[q] == y;
                    assert(more[q] == y);
                }
            }
            assert forall|q: int| p < q < more.len() implies strictly_toward(
                edges,
                dir,
                x,
                #[trigger] more[q],
            ) by {
                if q < stack.len() {
                    assert(more[q] == stack[q]);
                } else {
                    let y = pushed[q - stack.len()];
                    assert(more[q] == y);
                    assert(pushed.contains(y));
                    assert(p < top);
                    assert(strictly_toward(edges, dir, x, stack[top]));
                    lemma_strictly_then_step(edges, dir, x, nx, y);
                }
            }
            assert(seated(edges, dir, more, finished, x, p));
        }
    }
    if stack.contains(start) {
        let k = choose|k: int| 0 <= k < stack.len() && stack[k] == start;
        assert(more[k] == start);
    }
}

/// Meeting a discovered node again, at the top of the stack, finishes it if
/// it was not finished: by then all its neighbours are.
pub proof fn lemma_walk_finishes(
    nodes: nat,
    edges: Seq<(usize, usize)>,
    dir: Direction,
    start: usize,
    stack: Seq<usize>,
    discovered: Set<usize>,
    finished: Set<usize>,
)
    requires
        acyclic(edges),
        walking(nodes, edges, dir, start, stack, discovered, finished),
        stack.len() > 0,
        discovered.contains(stack[stack.len() - 1]),
    ensures
        walking(
            nodes,
            edges,
            dir,
            start,
            stack.drop_last(),
            discovered,
            finished.insert(stack[stack.len() - 1]),
        ),
        forall|y: usize| #[trigger]
            step(edges, dir, stack[stack.len() - 1], y) ==> finished.insert(
                stack[stack.len() - 1],
            ).contains(y),
{
    let top = stack.len() - 1;
    let nx = stack[top];
    let rest = stack.drop_last();
    let done = finished.insert(nx);
    assert forall|y: usize| #[trigger] step(edges, dir, nx, y) implies done.contains(y) by {
        if !finished.contains(nx) {
            let p = choose|p: int| #[trigger] seated(edges, dir, stack, finished, nx, p);
            if p < top {
                assert(strictly_toward(edges, dir, nx, stack[top]));
                lemma_strictly_elsewhere(edges, dir, nx);
            }
            assert(!above(stack, top, y));
        }
    }
    assert forall|x: usize| discovered.contains(x) && !done.contains(x) implies exists|p: int| #[trigger]
        seated(edges, dir, rest, done, x, p) by {
        let p = choose|p: int| #[trigger] seated(edges, dir, stack, finished, x, p);
        assert(p != top);
        assert(rest[p] == x);
        assert forall|y: usize| #[trigger] step(edges, dir, x, y) implies done.contains(y) || above(
            rest,
            p,
            y,
        ) by {
            if !finished.contains(y) {
                let q = choose|q: int| p < q < stack.len() && #[trigger] stack[q] == y;
                if q < top {
                    assert(rest[q] == y);
                }
            }
        }
        assert forall|q: int| p < q < rest.len() implies strictly_toward(
            edges,
            dir,
            x,
            #[trigger] rest[q],
        ) by {
            assert(rest[q] == stack[q]);
        }
        assert(seated(edges, dir, rest, done, x, p));
    }
    assert forall|k: int| 0 <= k < rest.len() implies (#[trigger] rest[k]) < nodes && reaches_toward(
        edges,
        dir,
        start,
        rest[k],
    ) by {
        assert(rest[k] == stack[k]);
    }
    if stack.contains(start) && !discovered.contains(start) {
        let k = choose|k: int| 0 <= k < stack.len() && stack[k] == start;
        assert(rest[k] == start);
    }
}

/// When the stack is empty, everything that the start leads to is finished.
pub proof fn lemma_walk_ends(
    nodes: nat,
    edges: Seq<(usize, usize)>,
    dir: Direction,
    start: usize,
    discovered: Set<usize>,
    finished: Set<usize>,
)
    requires
        walking(nodes, edges, dir, start, Seq::empty(), discovered, finished),
    ensures
        forall|x: usize| #[trigger] reaches_toward(edges, dir, start, x) ==> finished.contains(x),
{
    let none = Seq::<usize>::empty();
    assert forall|x: usize| discovered.contains(x) implies finished.contains(x) by {
        if !finished.contains(x) {
            let p = choose|p: int| #[trigger] seated(edges, dir, none, finished, x, p);
        }
    }
    assert(!none.contains(start));
    let seeds = set![start];
    lemma_closed_holds_closure(edges, dir, seeds, finished);
    assert forall|x: usize| #[trigger] reaches_toward(edges, dir, start, x) implies finished.contains(
        x,
    ) by {
        assert(seeds.contains(start));
        assert(crate::reach::closure(edges, dir, seeds).contains(x));
    }
}

/// Discovering a node leaves one fewer to discover.
pub proof fn lemma_discovered_more(nodes: nat, discovered: Set<usize>, x: usize)
    requires
        x < nodes,
        nodes <= usize::MAX,
        !discovered.contains(x),
    ensures
        unmarked(marks_of(nodes, discovered.insert(x))) + 1 == unmarked(marks_of(nodes, discovered)),
{
    lemma_mark(marks_of(nodes, discovered), x as int);
    assert(marks_of(nodes, discovered.insert(x)) =~= marks_of(nodes, discovered).update(
        x as int,
        true,
    ));
}

/// Just like `daggy::DfsPostOrder` but can traverse in either direction.
pub struct DfsPostOrderDirectional {
    direction: Direction,
    /// The stack of nodes to visit
    stack: Vec<usize>,
    /// The map of discovered nodes
    discovered: Marks,
    /// The map of finished nodes
    finished: Marks,
    /// The node that the walk started from
    start: Ghost<usize>,
}

impl DfsPostOrderDirectional {
    /// The direction in which the walk follows the edges.
    pub closed spec fn direction(&self) -> Direction {
        self.direction
    }

    /// The node that the walk started from.
    pub closed spec fn start(&self) -> usize {
        self.start@
    }

    /// The nodes still to be looked at, the next one last.
    pub closed spec fn stack(&self) -> Seq<usize> {
        self.stack@
    }

    /// The nodes met so far.
    pub closed spec fn discovered(&self) -> Set<usize> {
        marked(self.discovered)
    }

    /// The nodes handed out so far.
    pub closed spec fn finished(&self) -> Set<usize> {
        marked(self.finished)
    }

    /// The maps of the walk were made for the nodes of the graph.
    pub closed spec fn fits(&self, graph: &Dag) -> bool {
        &&& marks_len(self.discovered) == graph.nodes()
        &&& marks_len(self.finished) == graph.nodes()
    }

    /// The walk is under way on this graph.
    pub open spec fn wf(&self, graph: &Dag) -> bool {
        &&& graph.wf()
        &&& self.fits(graph)
        &&& walking(
            graph.nodes(),
            graph.edges(),
            self.direction(),
            self.start(),
            self.stack(),
            self.discovered(),
            self.finished(),
        )
    }

    /// Create a new `DfsPostOrderDirectional` using the graph's visitor map,
    /// and put `start` in the stack of nodes to visit.
    pub fn new(direction: Direction, graph: &Dag, start: usize) -> (walk: Self)
        requires
            graph.wf(),
            start < graph.nodes(),
        ensures
            walk.wf(graph),
            walk.direction() == direction,
            walk.start() == start,
            walk.stack() == seq![start],
            walk.discovered() == Set::<usize>::empty(),
            walk.finished() == Set::<usize>::empty(),
    {
        let mut stack: Vec<usize> = Vec::new();
        stack.push(start);
        proof {
            lemma_walk_begins(graph.nodes(), graph.edges(), direction, start);
            assert(stack@ =~= seq![start]);
        }
        DfsPostOrderDirectional {
            direction,
            stack,
            discovered: marks_for(graph),
            finished: marks_for(graph),
            start: Ghost(start),
        }
    }

    /// Return the next node in the traversal, or `None` if the traversal is
    /// done.
    ///
    /// A node is handed out once, after every node that it leads to in one
    /// step: it is finished then, and they were finished before. `None` says
    /// that everything that the start leads to has been handed out.
    pub fn next(&mut self, graph: &Dag) -> (r: Option<usize>)
        requires
            old(self).wf(graph),
        ensures
            final(self).wf(graph),
            final(self).direction() == old(self).direction(),
            final(self).start() == old(self).start(),
            match r {
                Some(node) => {
                    &&& !old(self).finished().contains(node)
                    &&& final(self).finished() == old(self).finished().insert(node)
                    &&& reaches_toward(graph.edges(), old(self).direction(), old(self).start(), node)
                    &&& forall|y: usize| #[trigger]
                        step(graph.edges(), old(self).direction(), node, y) ==> old(
                            self,
                        ).finished().contains(y)
                },
                None => {
                    &&& final(self).finished() == old(self).finished()
                    &&& final(self).stack().len() == 0
                    &&& forall|x: usize|
                        final(self).finished().contains(x) <==> #[trigger] reaches_toward(
                            graph.edges(),
                            old(self).direction(),
                            old(self).start(),
                            x,
                        )
                },
            },
    {
        let ghost nodes = graph.nodes();
        let ghost edges = graph.edges();
        let ghost dir = self.direction;
        let ghost start = self.start@;
        let count = graph.node_count();
        loop
            invariant
                self.wf(graph),
                nodes == graph.nodes(),
                edges == graph.edges(),
                count == nodes,
                dir == self.direction(),
                dir == old(self).direction(),
                start == self.start(),
                start == old(self).start(),
                self.finished() == old(self).finished(),
            decreases unmarked(marks_of(nodes, self.discovered())), self.stack@.len(),
        {
            let len = self.stack.len();
            if len == 0 {
                proof {
                    assert(self.stack@ =~= Seq::<usize>::empty());
                    lemma_walk_ends(nodes, edges, dir, start, self.discovered(), self.finished());
                }
                return None;
            }
            let nx = self.stack[len - 1];
            let ghost stack = self.stack@;
            let ghost discovered = self.discovered();
            if mark(&mut self.discovered, nx) {
                // First time visiting `nx`: Push neighbors, don't pop `nx`
                let found = graph.neighbors_directed(nx, self.direction);
                let mut j: usize = 0;
                let ghost wanted = |y: usize| !self.discovered().contains(y);
                proof {
                    assert(found@.take(0).filter(wanted) =~= Seq::<usize>::empty()) by {
                        reveal(Seq::filter);
                    }
                }
                while j < found.len()
                    invariant
                        j <= found.len(),
                        wanted == (|y: usize| !self.discovered().contains(y)),
                        self.discovered() == discovered.insert(nx),
                        self.stack@ == stack + found@.take(j as int).filter(wanted),
                        self.finished() == old(self).finished(),
                        self.direction() == dir,
                        self.start() == start,
                        self.fits(graph),
                    decreases found.len() - j,
                {
                    let succ = found[j];
                    proof {
                        assert(found@.take(j + 1) =~= found@.take(j as int).push(succ));
                        found@.take(j as int).lemma_filter_push(succ, wanted);
                    }
                    if !is_marked(&self.discovered, succ) {
                        self.stack.push(succ);
                    }
                    j += 1;
                }
                proof {
                    assert(found@.take(found.len() as int) =~= found@);
                    let pushed = found@.filter(wanted);
                    assert forall|y: usize| pushed.contains(y) <==> step(edges, dir, nx, y)
                        && !discovered.contains(y) by {
                        crate::lists::lemma_filter_holds(found@, wanted, y);
                        if step(edges, dir, nx, y) && y == nx {
                            lemma_strictly_step(edges, dir, nx, nx);
                            lemma_strictly_elsewhere(edges, dir, nx);
                        }
                    }
                    lemma_walk_discovers(
                        nodes,
                        edges,
                        dir,
                        start,
                        stack,
                        discovered,
                        self.finished(),
                        pushed,
                    );
                    lemma_discovered_more(nodes, discovered, nx);
                }
            } else {
                self.stack.pop();
                proof {
                    assert(self.stack@ =~= stack.drop_last());
                    assert(self.discovered() =~= discovered);
                    lemma_walk_finishes(nodes, edges, dir, start, stack, discovered, self.finished());
                }
                if mark(&mut self.finished, nx) {
                    // Second time: All reachable nodes must have been finished
                    return Some(nx);
                }
                proof {
                    assert(self.finished() =~= old(self).finished());
                }
            }
        }
    }
}

} // verus!
