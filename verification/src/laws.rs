//! What holds of every plan.
//!
//! `Migrator::up` and `Migrator::down` apply or revert the migrations of a
//! plan, in the plan's order: that is what `run_outcome` says of the calls
//! they make. The laws here say which migrations a plan holds and how it
//! orders them.
//!
//! They speak of a graph that is built: its edges are the declared
//! dependencies, and `order` is a topological order of it. A run establishes
//! both before it applies or reverts anything.

use crate::declare::{all_declared, complete, distinct_ids, index_of, registered};
use crate::lists::{lemma_filter_all, lemma_filter_holds, lemma_filter_keeps_order};
use crate::migration::{Migration, MigrationDirection};
use crate::plan::{pending, plan, scope, walk_order};
use crate::reach::{
    acyclic, in_bounds, is_external, is_permutation, lemma_reaches_edge, lemma_reaches_in_bounds,
    lemma_reaches_self, lemma_reaches_trans, linked, reaches, topological, walk_between,
};
use daggy::petgraph::Direction;
use vstd::prelude::*;

verus! {

/// The edges are those of a built graph: acyclic, between the first
/// `units.len()` nodes, and exactly the declared dependencies; and `order` is
/// a topological order of them.
pub open spec fn built<I, M: Migration<I>>(
    units: Seq<M>,
    edges: Seq<(usize, usize)>,
    order: Seq<usize>,
) -> bool {
    &&& distinct_ids(units)
    &&& in_bounds(units.len(), edges)
    &&& acyclic(edges)
    &&& all_declared(units, edges)
    &&& complete(units, edges)
    &&& topological(units.len(), edges, order)
}

/// A list that holds each of the first `nodes` numbers once holds every one
/// of them.
pub proof fn lemma_permutation_holds_all(nodes: nat, order: Seq<usize>, u: usize)
    requires
        is_permutation(nodes, order),
        u < nodes,
    ensures
        order.contains(u),
{
    let wide = order.map_values(|x: usize| x as int);
    assert(wide.no_duplicates()) by {
        assert forall|i: int, j: int| 0 <= i < wide.len() && 0 <= j < wide.len() && i != j implies wide[i]
            != wide[j] by {
            assert(order[i] != order[j]);
        }
    }
    wide.unique_seq_to_set();
    vstd::set_lib::lemma_int_range(0, nodes as int);
    let range = vstd::set_lib::set_int_range(0, nodes as int);
    assert(wide.to_set().subset_of(range)) by {
        assert forall|x: int| wide.to_set().contains(x) implies range.contains(x) by {
            let i = choose|i: int| 0 <= i < wide.len() && wide[i] == x;
            assert(order[i] < nodes);
        }
    }
    vstd::set_lib::lemma_set_subset_finite(range, wide.to_set());
    vstd::set_lib::lemma_subset_equality(wide.to_set(), range);
    assert(range.contains(u as int));
    assert(wide.to_set().contains(u as int));
    let i = choose|i: int| 0 <= i < wide.len() && wide[i] == u as int;
    assert(order[i] == u);
}

/// Along a walk the places in a topological order rise: what a node reaches
/// does not come before it.
pub proof fn lemma_reach_follows_order(
    nodes: nat,
    edges: Seq<(usize, usize)>,
    order: Seq<usize>,
    i: int,
    j: int,
)
    requires
        in_bounds(nodes, edges),
        topological(nodes, edges, order),
        0 <= i < order.len(),
        0 <= j < order.len(),
        reaches(edges, order[i], order[j]),
    ensures
        i <= j,
{
    let p = choose|p: Seq<usize>| walk_between(edges, p, order[i], order[j]);
    lemma_walk_follows_order(nodes, edges, order, p, i, j);
}

/// The induction behind `lemma_reach_follows_order`, on the length of the
/// walk.
proof fn lemma_walk_follows_order(
    nodes: nat,
    edges: Seq<(usize, usize)>,
    order: Seq<usize>,
    p: Seq<usize>,
    i: int,
    j: int,
)
    requires
        in_bounds(nodes, edges),
        topological(nodes, edges, order),
        0 <= i < order.len(),
        0 <= j < order.len(),
        walk_between(edges, p, order[i], order[j]),
    ensures
        i <= j,
        p.len() > 1 ==> i < j,
    decreases p.len(),
{
    if p.len() == 1 {
        if i != j {
            assert(order[i] != order[j]);
        }
    } else {
        let front = p.drop_last();
        let z = p[p.len() - 2];
        assert(linked(edges, p, p.len() - 2));
        crate::reach::lemma_walk_in_bounds(nodes, edges, p, p.len() - 2);
        lemma_permutation_holds_all(nodes, order, z);
        let m = choose|m: int| 0 <= m < order.len() && order[m] == z;
        assert(crate::reach::is_walk(edges, front)) by {
            assert forall|k: int| 0 <= k < front.len() - 1 implies #[trigger] linked(
                edges,
                front,
                k,
            ) by {
                assert(linked(edges, p, k));
            }
        }
        lemma_walk_follows_order(nodes, edges, order, front, i, m);
        assert(edges.contains((order[m], order[j])));
    }
}

/// Every node of the graph leads, in direction `dir`, to a node that has no
/// neighbour in that direction: every migration is a dependency of a sink,
/// and depends on a source.
pub proof fn lemma_leads_to_external(
    nodes: nat,
    edges: Seq<(usize, usize)>,
    order: Seq<usize>,
    dir: Direction,
    i: int,
) -> (end: usize)
    requires
        in_bounds(nodes, edges),
        topological(nodes, edges, order),
        0 <= i < order.len(),
    ensures
        end < nodes,
        is_external(edges, dir, end),
        crate::reach::reaches_toward(edges, dir, order[i], end),
    decreases
        match dir {
            Direction::Outgoing => order.len() - i,
            Direction::Incoming => i,
        },
{
    let x = order[i];
    if is_external(edges, dir, x) {
        lemma_reaches_self(edges, x);
        x
    } else {
        let y = choose|y: usize| crate::reach::step(edges, dir, x, y);
        crate::stream::lemma_step_in_bounds(nodes, edges, dir, x, y);
        lemma_permutation_holds_all(nodes, order, y);
        let j = choose|j: int| 0 <= j < order.len() && order[j] == y;
        match dir {
            Direction::Outgoing => {
                assert(edges.contains((order[i], order[j])));
                let end = lemma_leads_to_external(nodes, edges, order, dir, j);
                lemma_reaches_edge(edges, x, y);
                lemma_reaches_trans(edges, x, y, end);
                end
            },
            Direction::Incoming => {
                assert(edges.contains((order[j], order[i])));
                let end = lemma_leads_to_external(nodes, edges, order, dir, j);
                lemma_reaches_edge(edges, y, x);
                lemma_reaches_trans(edges, end, y, x);
                end
            },
        }
    }
}

/// Without a target the scope of a run is every migration: each is a
/// dependency of some sink, and each depends on some source.
pub proof fn law_scope_without_target<I, M: Migration<I>>(
    units: Seq<M>,
    edges: Seq<(usize, usize)>,
    order: Seq<usize>,
    direction: MigrationDirection,
    u: usize,
)
    requires
        built(units, edges, order),
        u < units.len(),
    ensures
        scope(units, edges, None::<I>, direction).contains(u),
{
    lemma_permutation_holds_all(units.len(), order, u);
    let i = choose|i: int| 0 <= i < order.len() && order[i] == u;
    let dir = crate::plan::search_direction(direction);
    let back = crate::reach::flip(dir);
    let end = lemma_leads_to_external(units.len(), edges, order, back, i);
    assert(crate::reach::externals(units.len(), edges, back).contains(end));
    assert(crate::reach::reaches_toward(edges, dir, end, u));
}

/// With a target, the scope of applying is the target and all that it
/// depends on, directly or not; the scope of reverting is all that depends
/// on the target, directly or not, without the target itself.
pub proof fn law_scope_of_target<I, M: Migration<I>>(
    units: Seq<M>,
    edges: Seq<(usize, usize)>,
    target: I,
    direction: MigrationDirection,
    u: usize,
)
    ensures
        scope(units, edges, Some(target), direction).contains(u) <==> match direction {
            MigrationDirection::Up => reaches(edges, u, index_of(units, target)),
            MigrationDirection::Down => reaches(edges, index_of(units, target), u) && u
                != index_of(units, target),
        },
{
    let t = index_of(units, target);
    let dir = crate::plan::search_direction(direction);
    let from = crate::plan::seeds(units, edges, Some(target), dir);
    assert(from.contains(t));
    if crate::plan::induced(units, edges, Some(target), dir).contains(u) {
        let s = choose|s: usize| from.contains(s) && crate::reach::reaches_toward(edges, dir, s, u);
        assert(s == t);
    }
}

/// A plan holds exactly the migrations that are pending, each once.
pub proof fn law_plan_members<I, M: Migration<I>>(
    units: Seq<M>,
    order: Seq<usize>,
    within: Set<usize>,
    applied: Set<I>,
    direction: MigrationDirection,
)
    requires
        is_permutation(units.len(), order),
    ensures
        plan(units, order, within, applied, direction).no_duplicates(),
        forall|u: usize|
            plan(units, order, within, applied, direction).contains(u) <==> pending(
                units,
                within,
                applied,
                direction,
                u,
            ),
{
    let walk = walk_order(order, direction);
    let wanted = |u: usize| pending(units, within, applied, direction, u);
    let steps = walk.filter(wanted);
    lemma_walk_order_permutation(units.len(), order, direction);
    assert forall|i: int, j: int| 0 <= i < steps.len() && 0 <= j < steps.len() && i != j implies steps[i]
        != steps[j] by {
        if i < j {
            let (a, b) = lemma_filter_keeps_order(walk, wanted, i, j);
        } else {
            let (a, b) = lemma_filter_keeps_order(walk, wanted, j, i);
        }
    }
    assert forall|u: usize| steps.contains(u) <==> pending(
        units,
        within,
        applied,
        direction,
        u,
    ) by {
        lemma_filter_holds(walk, wanted, u);
        if pending(units, within, applied, direction, u) {
            lemma_permutation_holds_all(units.len(), walk, u);
        }
    }
}

/// A plan follows the dependencies. When applying, no migration comes
/// before one that it depends on: each is applied after all its
/// dependencies. When reverting, no migration comes after one that it
/// depends on: each is reverted before all its dependencies.
pub proof fn law_plan_order<I, M: Migration<I>>(
    units: Seq<M>,
    edges: Seq<(usize, usize)>,
    order: Seq<usize>,
    within: Set<usize>,
    applied: Set<I>,
    direction: MigrationDirection,
    i: int,
    j: int,
)
    requires
        in_bounds(units.len(), edges),
        topological(units.len(), edges, order),
        0 <= i < j < plan(units, order, within, applied, direction).len(),
    ensures
        ({
            let steps = plan(units, order, within, applied, direction);
            match direction {
                MigrationDirection::Up => !reaches(edges, steps[j], steps[i]),
                MigrationDirection::Down => !reaches(edges, steps[i], steps[j]),
            }
        }),
{
    let walk = walk_order(order, direction);
    let wanted = |u: usize| pending(units, within, applied, direction, u);
    let steps = walk.filter(wanted);
    let (a, b) = lemma_filter_keeps_order(walk, wanted, i, j);
    match direction {
        MigrationDirection::Up => {
            if reaches(edges, steps[j], steps[i]) {
                lemma_reach_follows_order(units.len(), edges, order, b, a);
            }
        },
        MigrationDirection::Down => {
            let n = order.len() as int;
            assert(walk[a] == order[n - 1 - a]);
            assert(walk[b] == order[n - 1 - b]);
            if reaches(edges, steps[i], steps[j]) {
                lemma_reach_follows_order(units.len(), edges, order, n - 1 - a, n - 1 - b);
            }
        },
    }
}

/// Applying everything to a backend on which nothing registered is applied
/// touches every migration exactly once, in a topological order: each after
/// all that it depends on.
pub proof fn law_up_applies_all<I, M: Migration<I>>(
    units: Seq<M>,
    edges: Seq<(usize, usize)>,
    order: Seq<usize>,
    applied: Set<I>,
)
    requires
        built(units, edges, order),
        forall|u: int| 0 <= u < units.len() ==> !applied.contains(#[trigger] units[u].ident()),
    ensures
        plan(
            units,
            order,
            scope(units, edges, None::<I>, MigrationDirection::Up),
            applied,
            MigrationDirection::Up,
        ) == order,
{
    let direction = MigrationDirection::Up;
    let within = scope(units, edges, None::<I>, direction);
    let wanted = |u: usize| pending(units, within, applied, direction, u);
    assert forall|k: int| 0 <= k < order.len() implies wanted(#[trigger] order[k]) by {
        law_scope_without_target(units, edges, order, direction, order[k]);
    }
    lemma_filter_all(order, wanted);
}

/// Reverting everything on a backend on which every registered migration is
/// applied touches every migration exactly once, in a topological order
/// taken backward: each before all that it depends on.
pub proof fn law_down_reverts_all<I, M: Migration<I>>(
    units: Seq<M>,
    edges: Seq<(usize, usize)>,
    order: Seq<usize>,
    applied: Set<I>,
)
    requires
        built(units, edges, order),
        forall|u: int| 0 <= u < units.len() ==> applied.contains(#[trigger] units[u].ident()),
    ensures
        plan(
            units,
            order,
            scope(units, edges, None::<I>, MigrationDirection::Down),
            applied,
            MigrationDirection::Down,
        ) == order.reverse(),
{
    let direction = MigrationDirection::Down;
    let within = scope(units, edges, None::<I>, direction);
    let wanted = |u: usize| pending(units, within, applied, direction, u);
    let walk = order.reverse();
    assert forall|k: int| 0 <= k < walk.len() implies wanted(#[trigger] walk[k]) by {
        assert(walk[k] == order[order.len() - 1 - k]);
        law_scope_without_target(units, edges, order, direction, walk[k]);
    }
    lemma_filter_all(walk, wanted);
}

/// A run repeated has nothing left to do. If, after a plan was carried out,
/// the backend lists what it listed before with the applied migrations added
/// or the reverted ones removed, the plan for the same target is empty.
pub proof fn law_second_run_is_empty<I, M: Migration<I>>(
    units: Seq<M>,
    order: Seq<usize>,
    within: Set<usize>,
    applied: Set<I>,
    later: Set<I>,
    direction: MigrationDirection,
)
    requires
        is_permutation(units.len(), order),
        forall|id: I|
            later.contains(id) <==> match direction {
                MigrationDirection::Up => applied.contains(id) || exists|u: usize|
                    plan(units, order, within, applied, direction).contains(u)
                        && #[trigger] units[u as int].ident() == id,
                MigrationDirection::Down => applied.contains(id) && !exists|u: usize|
                    plan(units, order, within, applied, direction).contains(u)
                        && #[trigger] units[u as int].ident() == id,
            },
    ensures
        plan(units, order, within, later, direction).len() == 0,
{
    let walk = walk_order(order, direction);
    let first = plan(units, order, within, applied, direction);
    let again = |u: usize| pending(units, within, later, direction, u);
    law_plan_members(units, order, within, applied, direction);
    assert forall|k: int| 0 <= k < walk.len() implies !again(#[trigger] walk[k]) by {
        let u = walk[k];
        if again(u) {
            let id = units[u as int].ident();
            match direction {
                MigrationDirection::Up => {
                    assert(!applied.contains(id));
                    assert(pending(units, within, applied, direction, u));
                    assert(first.contains(u) && units[u as int].ident() == id);
                },
                MigrationDirection::Down => {
                    assert(applied.contains(id));
                    assert(pending(units, within, applied, direction, u));
                    assert(first.contains(u) && units[u as int].ident() == id);
                },
            }
        }
    }
    assert(walk.all(|u: usize| !again(u)));
    walk.lemma_all_neg_filter_empty(again);
}

/// Applying up to a target touches exactly the target and what it depends
/// on, as far as it is not applied; nothing else.
pub proof fn law_up_to_target<I, M: Migration<I>>(
    units: Seq<M>,
    edges: Seq<(usize, usize)>,
    order: Seq<usize>,
    target: I,
    applied: Set<I>,
    u: usize,
)
    requires
        built(units, edges, order),
        registered(units, target),
    ensures
        plan(
            units,
            order,
            scope(units, edges, Some(target), MigrationDirection::Up),
            applied,
            MigrationDirection::Up,
        ).contains(u) <==> reaches(edges, u, index_of(units, target)) && !applied.contains(
            units[u as int].ident(),
        ),
{
    let direction = MigrationDirection::Up;
    let within = scope(units, edges, Some(target), direction);
    law_plan_members(units, order, within, applied, direction);
    law_scope_of_target(units, edges, target, direction, u);
    crate::declare::lemma_index_of(units, target);
    if reaches(edges, u, index_of(units, target)) {
        lemma_reaches_in_bounds(units.len(), edges, u, index_of(units, target));
    }
    assert(plan(units, order, within, applied, direction).contains(u) <==> pending(
        units,
        within,
        applied,
        direction,
        u,
    ));
}

/// Reverting down to a target touches exactly what depends on the target,
/// as far as it is applied; the target itself is left as it is.
pub proof fn law_down_to_target<I, M: Migration<I>>(
    units: Seq<M>,
    edges: Seq<(usize, usize)>,
    order: Seq<usize>,
    target: I,
    applied: Set<I>,
    u: usize,
)
    requires
        built(units, edges, order),
        registered(units, target),
    ensures
        plan(
            units,
            order,
            scope(units, edges, Some(target), MigrationDirection::Down),
            applied,
            MigrationDirection::Down,
        ).contains(u) <==> reaches(edges, index_of(units, target), u) && u != index_of(
            units,
            target,
        ) && applied.contains(units[u as int].ident()),
{
    let direction = MigrationDirection::Down;
    let within = scope(units, edges, Some(target), direction);
    law_plan_members(units, order, within, applied, direction);
    law_scope_of_target(units, edges, target, direction, u);
    crate::declare::lemma_index_of(units, target);
    if reaches(edges, index_of(units, target), u) {
        lemma_reaches_in_bounds(units.len(), edges, index_of(units, target), u);
    }
    assert(plan(units, order, within, applied, direction).contains(u) <==> pending(
        units,
        within,
        applied,
        direction,
        u,
    ));
}

/// A permutation walked backward is a permutation.
proof fn lemma_walk_order_permutation(nodes: nat, order: Seq<usize>, direction: MigrationDirection)
    requires
        is_permutation(nodes, order),
    ensures
        is_permutation(nodes, walk_order(order, direction)),
{
    let walk = walk_order(order, direction);
    if direction == MigrationDirection::Down {
        assert forall|i: int, j: int| 0 <= i < walk.len() && 0 <= j < walk.len() && i != j implies walk[i]
            != walk[j] by {
            assert(walk[i] == order[order.len() - 1 - i]);
            assert(walk[j] == order[order.len() - 1 - j]);
        }
        assert forall|k: int| 0 <= k < walk.len() implies #[trigger] walk[k] < nodes by {
            assert(walk[k] == order[order.len() - 1 - k]);
        }
    }
}

} // verus!
