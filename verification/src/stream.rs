//! The induced stream: every node that can be reached from a set of seeds by
//! following the edges of the graph in one direction.

use crate::dag::Dag;
use crate::reach::{
    closure, in_bounds, lemma_toward_self, lemma_toward_then_step, reaches_toward, step,
};
use daggy::petgraph::Direction;
use itertools::Itertools;
use std::collections::VecDeque;
use vstd::prelude::*;

verus! {

/// `s` without repeats: of equal entries the first stays, and what stays
/// keeps its order.
pub open spec fn distinct(s: Seq<usize>) -> Seq<usize>
    decreases s.len(),
{
    if s.len() == 0 {
        Seq::empty()
    } else {
        let kept = distinct(s.drop_last());
        if kept.contains(s.last()) {
            kept
        } else {
            kept.push(s.last())
        }
    }
}

/// `Itertools::unique`, collected: the entries of `v` in their order, each
/// only where it occurs first.
#[verifier::external_body]
fn unique(v: Vec<usize>) -> (r: Vec<usize>)
    ensures
        r@ == distinct(v@),
{
    v.into_iter().unique().collect()
}

/// `distinct` holds no entry twice, and holds exactly the entries of `s`.
pub proof fn lemma_distinct(s: Seq<usize>)
    ensures
        distinct(s).no_duplicates(),
        forall|x: usize| distinct(s).contains(x) <==> s.contains(x),
    decreases s.len(),
{
    broadcast use vstd::seq_lib::group_seq_properties;

    if s.len() > 0 {
        let front = s.drop_last();
        lemma_distinct(front);
        assert(s =~= front.push(s.last()));
        assert forall|x: usize| distinct(s).contains(x) <==> s.contains(x) by {
            assert(s.contains(x) <==> front.contains(x) || x == s.last());
        }
    }
}

/// The number of entries of `marks` that are not set.
pub open spec fn unmarked(marks: Seq<bool>) -> nat
    decreases marks.len(),
{
    if marks.len() == 0 {
        0
    } else {
        unmarked(marks.drop_last()) + if marks.last() {
            0nat
        } else {
            1nat
        }
    }
}

/// Setting an entry that was not set leaves one fewer unset.
pub proof fn lemma_mark(marks: Seq<bool>, i: int)
    requires
        0 <= i < marks.len(),
        !marks[i],
    ensures
        unmarked(marks.update(i, true)) + 1 == unmarked(marks),
    decreases marks.len(),
{
    let after = marks.update(i, true);
    if i == marks.len() - 1 {
        assert(after.drop_last() =~= marks.drop_last());
    } else {
        lemma_mark(marks.drop_last(), i);
        assert(after.drop_last() =~= marks.drop_last().update(i, true));
    }
}

/// A set that holds the seeds and, with each of its nodes, that node's
/// neighbours in direction `dir`, holds everything the seeds reach.
pub proof fn lemma_closed_holds_closure(
    edges: Seq<(usize, usize)>,
    dir: Direction,
    seeds: Set<usize>,
    held: Set<usize>,
)
    requires
        forall|s: usize| seeds.contains(s) ==> held.contains(s),
        forall|x: usize, y: usize| held.contains(x) && step(edges, dir, x, y) ==> held.contains(y),
    ensures
        forall|x: usize| closure(edges, dir, seeds).contains(x) ==> held.contains(x),
{
    assert forall|x: usize| closure(edges, dir, seeds).contains(x) implies held.contains(x) by {
        let s = choose|s: usize| seeds.contains(s) && reaches_toward(edges, dir, s, x);
        match dir {
            Direction::Outgoing => {
                let p = choose|p: Seq<usize>| crate::reach::walk_between(edges, p, s, x);
                lemma_walk_stays(edges, dir, held, p, p.len() - 1);
            },
            Direction::Incoming => {
                let p = choose|p: Seq<usize>| crate::reach::walk_between(edges, p, x, s);
                lemma_walk_stays(edges, dir, held, p, p.len() - 1);
            },
        }
    }
}

/// A walk that starts in a closed set, followed in direction `dir` for `k`
/// steps, is still in the set. For `Incoming` the walk is followed from its
/// end.
proof fn lemma_walk_stays(
    edges: Seq<(usize, usize)>,
    dir: Direction,
    held: Set<usize>,
    p: Seq<usize>,
    k: int,
)
    requires
        crate::reach::is_walk(edges, p),
        0 <= k < p.len(),
        forall|x: usize, y: usize| held.contains(x) && step(edges, dir, x, y) ==> held.contains(y),
        match dir {
            Direction::Outgoing => held.contains(p[0]),
            Direction::Incoming => held.contains(p[p.len() - 1]),
        },
    ensures
        match dir {
            Direction::Outgoing => held.contains(p[k]),
            Direction::Incoming => held.contains(p[p.len() - 1 - k]),
        },
    decreases k,
{
    if k > 0 {
        lemma_walk_stays(edges, dir, held, p, k - 1);
        match dir {
            Direction::Outgoing => {
                assert(crate::reach::linked(edges, p, k - 1));
                assert(step(edges, dir, p[k - 1], p[k]));
            },
            Direction::Incoming => {
                let j = p.len() - 1 - k;
                assert(crate::reach::linked(edges, p, j));
                assert(step(edges, dir, p[j + 1], p[j]));
            },
        }
    }
}

/// What holds of a breadth-first search under way.
///
/// `recorded` lists the arrivals so far, `queued` the nodes still to be
/// taken up, and `marks` says for each node whether its neighbours have been
/// followed. Everything listed is reached from a seed; every seed is
/// recorded; each recorded node is marked or still queued; and the neighbours
/// of a marked node are recorded or queued.
pub open spec fn searching(
    edges: Seq<(usize, usize)>,
    dir: Direction,
    seeds: Set<usize>,
    recorded: Seq<usize>,
    queued: Seq<usize>,
    marks: Seq<bool>,
) -> bool {
    &&& forall|s: usize| seeds.contains(s) ==> recorded.contains(s)
    &&& forall|k: int|
        0 <= k < recorded.len() ==> (#[trigger] recorded[k]) < marks.len() && closure(
            edges,
            dir,
            seeds,
        ).contains(recorded[k])
    &&& forall|k: int|
        0 <= k < queued.len() ==> (#[trigger] queued[k]) < marks.len() && closure(
            edges,
            dir,
            seeds,
        ).contains(queued[k])
    &&& forall|k: int|
        0 <= k < recorded.len() ==> marks[(#[trigger] recorded[k]) as int] || queued.contains(
            recorded[k],
        )
    &&& forall|x: usize, y: usize|
        x < marks.len() && marks[x as int] && #[trigger] step(edges, dir, x, y)
            ==> recorded.contains(y) || queued.contains(y)
}

/// The search starts with the seeds recorded and queued, and no node marked.
pub proof fn lemma_search_starts(
    edges: Seq<(usize, usize)>,
    dir: Direction,
    seeds: Seq<usize>,
    marks: Seq<bool>,
)
    requires
        forall|k: int| 0 <= k < seeds.len() ==> seeds[k] < marks.len(),
        forall|k: int| 0 <= k < marks.len() ==> !marks[k],
    ensures
        searching(edges, dir, seeds.to_set(), seeds, seeds, marks),
{
    assert forall|k: int| 0 <= k < seeds.len() implies closure(
        edges,
        dir,
        seeds.to_set(),
    ).contains(#[trigger] seeds[k]) by {
        lemma_toward_self(edges, dir, seeds[k]);
        assert(seeds.to_set().contains(seeds[k]));
    }
}

/// Taking up a node whose neighbours were followed before records the
/// arrival and changes nothing else.
pub proof fn lemma_search_passes(
    edges: Seq<(usize, usize)>,
    dir: Direction,
    seeds: Set<usize>,
    recorded: Seq<usize>,
    queued: Seq<usize>,
    marks: Seq<bool>,
)
    requires
        searching(edges, dir, seeds, recorded, queued, marks),
        queued.len() > 0,
        marks[queued[0] as int],
    ensures
        searching(edges, dir, seeds, recorded.push(queued[0]), queued.skip(1), marks),
{
    let idx = queued[0];
    let after = recorded.push(idx);
    let waiting = queued.skip(1);
    lemma_leaves_queue(queued);
    assert forall|x: usize| recorded.contains(x) implies after.contains(x) by {
        vstd::seq_lib::lemma_seq_contains_after_push(recorded, idx, x);
    }
    assert(after[recorded.len() as int] == idx);
    assert forall|k: int| 0 <= k < after.len() implies marks[(#[trigger] after[k]) as int]
        || waiting.contains(after[k]) by {
        if k < recorded.len() {
            assert(after[k] == recorded[k]);
        }
    }
    assert forall|k: int| 0 <= k < waiting.len() implies (#[trigger] waiting[k]) < marks.len()
        && closure(edges, dir, seeds).contains(waiting[k]) by {
        assert(waiting[k] == queued[k + 1]);
    }
    assert forall|k: int| 0 <= k < after.len() implies (#[trigger] after[k]) < marks.len()
        && closure(edges, dir, seeds).contains(after[k]) by {
        if k < recorded.len() {
            assert(after[k] == recorded[k]);
        } else {
            assert(after[k] == queued[0]);
        }
    }
}

/// Taking up a node for the first time records the arrival, marks the node
/// and queues its neighbours.
pub proof fn lemma_search_expands(
    nodes: nat,
    edges: Seq<(usize, usize)>,
    dir: Direction,
    seeds: Set<usize>,
    recorded: Seq<usize>,
    queued: Seq<usize>,
    marks: Seq<bool>,
    found: Seq<usize>,
)
    requires
        searching(edges, dir, seeds, recorded, queued, marks),
        in_bounds(nodes, edges),
        marks.len() == nodes,
        queued.len() > 0,
        !marks[queued[0] as int],
        forall|y: usize| found.contains(y) <==> step(edges, dir, queued[0], y),
    ensures
        searching(
            edges,
            dir,
            seeds,
            recorded.push(queued[0]),
            queued.skip(1) + found,
            marks.update(queued[0] as int, true),
        ),
{
    let idx = queued[0];
    let after = recorded.push(idx);
    let waiting = queued.skip(1);
    let line = waiting + found;
    let set = marks.update(idx as int, true);
    lemma_leaves_queue(queued);
    assert forall|x: usize| waiting.contains(x) implies line.contains(x) by {
        let k = choose|k: int| 0 <= k < waiting.len() && waiting[k] == x;
        assert(line[k] == x);
    }
    assert forall|x: usize| found.contains(x) implies line.contains(x) by {
        let k = choose|k: int| 0 <= k < found.len() && found[k] == x;
        assert(line[waiting.len() + k] == x);
    }
    assert forall|x: usize| recorded.contains(x) implies after.contains(x) by {
        vstd::seq_lib::lemma_seq_contains_after_push(recorded, idx, x);
    }
    assert(after[recorded.len() as int] == idx);
    assert forall|k: int| 0 <= k < after.len() implies (#[trigger] after[k]) < set.len()
        && closure(edges, dir, seeds).contains(after[k]) by {
        if k < recorded.len() {
            assert(after[k] == recorded[k]);
        } else {
            assert(after[k] == queued[0]);
        }
    }
    assert forall|k: int| 0 <= k < line.len() implies (#[trigger] line[k]) < set.len() && closure(
        edges,
        dir,
        seeds,
    ).contains(line[k]) by {
        if k < waiting.len() {
            assert(line[k] == queued[k + 1]);
        } else {
            let y = found[k - waiting.len()];
            assert(line[k] == y);
            assert(found.contains(y));
            let s = choose|s: usize| seeds.contains(s) && reaches_toward(edges, dir, s, idx);
            lemma_toward_then_step(edges, dir, s, idx, y);
            lemma_step_in_bounds(nodes, edges, dir, idx, y);
        }
    }
    assert forall|k: int| 0 <= k < after.len() implies set[(#[trigger] after[k]) as int]
        || line.contains(after[k]) by {
        if k < recorded.len() {
            assert(after[k] == recorded[k]);
            assert(marks[recorded[k] as int] || queued.contains(recorded[k]));
        }
    }
    assert forall|x: usize, y: usize|
        x < set.len() && set[x as int] && #[trigger] step(edges, dir, x, y) implies after.contains(
        y,
    ) || line.contains(y) by {
        if x == idx {
            assert(found.contains(y));
        } else {
            assert(marks[x as int]);
            assert(recorded.contains(y) || queued.contains(y));
        }
    }
}

/// When nothing is queued any more, the arrivals are exactly the nodes that
/// the seeds reach.
pub proof fn lemma_search_ends(
    edges: Seq<(usize, usize)>,
    dir: Direction,
    seeds: Set<usize>,
    recorded: Seq<usize>,
    marks: Seq<bool>,
)
    requires
        searching(edges, dir, seeds, recorded, Seq::empty(), marks),
    ensures
        forall|x: usize| recorded.contains(x) <==> closure(edges, dir, seeds).contains(x),
{
    let held = recorded.to_set();
    let none = Seq::<usize>::empty();
    assert forall|x: usize, y: usize|
        held.contains(x) && step(edges, dir, x, y) implies held.contains(y) by {
        let k = choose|k: int| 0 <= k < recorded.len() && recorded[k] == x;
        assert(marks[recorded[k] as int] || none.contains(recorded[k]));
        assert(recorded.contains(y) || none.contains(y));
    }
    lemma_closed_holds_closure(edges, dir, seeds, held);
    assert forall|x: usize| recorded.contains(x) <==> closure(edges, dir, seeds).contains(x) by {
        if recorded.contains(x) {
            let k = choose|k: int| 0 <= k < recorded.len() && recorded[k] == x;
            assert(closure(edges, dir, seeds).contains(recorded[k]));
        }
        if closure(edges, dir, seeds).contains(x) {
            assert(held.contains(x));
        }
    }
}

/// What is queued is the head of the queue or stays queued behind it.
proof fn lemma_leaves_queue(queued: Seq<usize>)
    requires
        queued.len() > 0,
    ensures
        forall|x: usize| queued.contains(x) ==> x == queued[0] || queued.skip(1).contains(x),
{
    assert forall|x: usize| queued.contains(x) implies x == queued[0] || queued.skip(1).contains(
        x,
    ) by {
        let k = choose|k: int| 0 <= k < queued.len() && queued[k] == x;
        if k > 0 {
            assert(queued.skip(1)[k - 1] == x);
        }
    }
}

impl Dag {
    /// The nodes that the seeds reach in direction `dir`, seeds included, each
    /// listed once.
    ///
    /// The search is breadth first. Every arrival at a node is recorded, a
    /// node's neighbours are followed only on the first, and repeated
    /// arrivals are dropped at the end.
    pub fn induced_stream(&self, seeds: &Vec<usize>, dir: Direction) -> (stream: Vec<usize>)
        requires
            self.wf(),
            forall|k: int| 0 <= k < seeds.len() ==> seeds[k] < self.nodes(),
        ensures
            stream@.no_duplicates(),
            forall|x: usize|
                stream@.contains(x) <==> closure(self.edges(), dir, seeds@.to_set()).contains(x),
    {
        let nodes = self.node_count();
        let mut expanded: Vec<bool> = Vec::new();
        while expanded.len() < nodes
            invariant
                expanded.len() <= nodes,
                forall|k: int| 0 <= k < expanded.len() ==> !expanded[k],
            decreases nodes - expanded.len(),
        {
            expanded.push(false);
        }
        let mut target_ids: Vec<usize> = Vec::new();
        let mut to_visit: VecDeque<usize> = VecDeque::new();
        let mut i: usize = 0;
        while i < seeds.len()
            invariant
                i <= seeds.len(),
                target_ids@ == seeds@.take(i as int),
                to_visit@ == seeds@.take(i as int),
            decreases seeds.len() - i,
        {
            target_ids.push(seeds[i]);
            to_visit.push_back(seeds[i]);
            proof {
                assert(seeds@.take(i + 1) =~= seeds@.take(i as int).push(seeds@[i as int]));
            }
            i += 1;
        }
        proof {
            assert(seeds@.take(seeds.len() as int) =~= seeds@);
            lemma_search_starts(self.edges(), dir, seeds@, expanded@);
        }
        loop
            invariant
                self.wf(),
                nodes == self.nodes(),
                expanded.len() == nodes,
                searching(self.edges(), dir, seeds@.to_set(), target_ids@, to_visit@, expanded@),
            ensures
                to_visit@.len() == 0,
            decreases unmarked(expanded@), to_visit@.len(),
        {
            let ghost queued = to_visit@;
            let ghost recorded = target_ids@;
            let ghost marks = expanded@;
            let idx = match to_visit.pop_front() {
                Some(idx) => idx,
                None => {
                    break ;
                },
            };
            proof {
                assert(to_visit@ =~= queued.skip(1));
            }
            target_ids.push(idx);
            if !expanded[idx] {
                expanded.set(idx, true);
                let found = self.neighbors_directed(idx, dir);
                let ghost waiting = to_visit@;
                let mut j: usize = 0;
                while j < found.len()
                    invariant
                        j <= found.len(),
                        to_visit@ == waiting + found@.take(j as int),
                    decreases found.len() - j,
                {
                    to_visit.push_back(found[j]);
                    proof {
                        assert(found@.take(j + 1) =~= found@.take(j as int).push(found@[j as int]));
                    }
                    j += 1;
                }
                proof {
                    assert(found@.take(found.len() as int) =~= found@);
                    lemma_mark(marks, idx as int);
                    lemma_search_expands(
                        nodes as nat,
                        self.edges(),
                        dir,
                        seeds@.to_set(),
                        recorded,
                        queued,
                        marks,
                        found@,
                    );
                }
            } else {
                proof {
                    lemma_search_passes(
                        self.edges(),
                        dir,
                        seeds@.to_set(),
                        recorded,
                        queued,
                        marks,
                    );
                }
            }
        }
        let ghost recorded = target_ids@;
        let stream = unique(target_ids);
        proof {
            lemma_distinct(recorded);
            assert(to_visit@ =~= Seq::<usize>::empty());
            lemma_search_ends(self.edges(), dir, seeds@.to_set(), recorded, expanded@);
            assert forall|x: usize| stream@.contains(x) <==> closure(
                self.edges(),
                dir,
                seeds@.to_set(),
            ).contains(x) by {
                assert(stream@.contains(x) <==> recorded.contains(x));
            }
        }
        stream
    }
}

/// One step from a node keeps within the nodes that the edges join.
pub proof fn lemma_step_in_bounds(
    nodes: nat,
    edges: Seq<(usize, usize)>,
    dir: Direction,
    x: usize,
    y: usize,
)
    requires
        in_bounds(nodes, edges),
        step(edges, dir, x, y),
    ensures
        x < nodes,
        y < nodes,
{
    let e = match dir {
        Direction::Outgoing => (x, y),
        Direction::Incoming => (y, x),
    };
    let i = choose|i: int| 0 <= i < edges.len() && edges[i] == e;
    assert(edges[i].0 < nodes && edges[i].1 < nodes);
}

} // verus!
