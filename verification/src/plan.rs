//! What a run of the migrator touches, and in which order.
//!
//! A run has a scope, the induced stream of its target, and walks one
//! topological order of the whole graph: forward to apply, backward to
//! revert. It touches the migrations of the scope that are not yet applied,
//! when applying, or that are applied, when reverting.

use crate::dag::toposort_order;
use crate::declare::{complete, cyclic, declares, index_of, registered, resolvable};
use crate::migration::{DependencyError, Migration, MigrationDirection, MigratorError};
use crate::reach::{closure, externals, flip, reaches, topological};
use daggy::petgraph::Direction;
use vstd::prelude::*;

verus! {

/// One call that a migrator made to its adapter, with what came back.
#[verifier::reject_recursive_types(I)]
pub enum AdapterCall<I, E> {
    /// `applied_migrations`.
    Listed { outcome: Result<Set<I>, E> },
    /// `apply_migration` on the migration registered as number `unit`.
    Applied { unit: usize, outcome: Result<(), E> },
    /// `revert_migration` on the migration registered as number `unit`.
    Reverted { unit: usize, outcome: Result<(), E> },
}

/// Where the search for a target starts: at the target, or without one at
/// every node that has no neighbour against the direction of the search.
pub open spec fn seeds<I, M: Migration<I>>(
    units: Seq<M>,
    edges: Seq<(usize, usize)>,
    target: Option<I>,
    dir: Direction,
) -> Set<usize> {
    match target {
        Some(id) => set![index_of(units, id)],
        None => externals(units.len(), edges, flip(dir)),
    }
}

/// The induced stream of a target: what the seeds reach in direction `dir`.
pub open spec fn induced<I, M: Migration<I>>(
    units: Seq<M>,
    edges: Seq<(usize, usize)>,
    target: Option<I>,
    dir: Direction,
) -> Set<usize> {
    closure(edges, dir, seeds(units, edges, target, dir))
}

/// The direction in which the graph is searched for a run: toward the
/// dependencies to apply, toward the dependents to revert.
pub open spec fn search_direction(direction: MigrationDirection) -> Direction {
    match direction {
        MigrationDirection::Up => Direction::Incoming,
        MigrationDirection::Down => Direction::Outgoing,
    }
}

/// The migrations that a run may touch. To apply up to a target: the target
/// and all it depends on. To revert down to a target: all that depends on
/// the target, but not the target. Without a target: what the sinks depend
/// on, or what depends on the sources.
pub open spec fn scope<I, M: Migration<I>>(
    units: Seq<M>,
    edges: Seq<(usize, usize)>,
    target: Option<I>,
    direction: MigrationDirection,
) -> Set<usize> {
    let stream = induced(units, edges, target, search_direction(direction));
    match (direction, target) {
        (MigrationDirection::Down, Some(id)) => stream.remove(index_of(units, id)),
        _ => stream,
    }
}

/// Whether a run in `direction` touches migration `u`: it is in scope, and
/// not yet applied when applying, or applied when reverting.
pub open spec fn pending<I, M: Migration<I>>(
    units: Seq<M>,
    within: Set<usize>,
    applied: Set<I>,
    direction: MigrationDirection,
    u: usize,
) -> bool {
    &&& u < units.len()
    &&& within.contains(u)
    &&& match direction {
        MigrationDirection::Up => !applied.contains(units[u as int].ident()),
        MigrationDirection::Down => applied.contains(units[u as int].ident()),
    }
}

/// The order in which a run walks the graph: `order` to apply, `order`
/// backward to revert.
pub open spec fn walk_order(order: Seq<usize>, direction: MigrationDirection) -> Seq<usize> {
    match direction {
        MigrationDirection::Up => order,
        MigrationDirection::Down => order.reverse(),
    }
}

/// The migrations that a run touches, in the order in which it touches
/// them.
pub open spec fn plan<I, M: Migration<I>>(
    units: Seq<M>,
    order: Seq<usize>,
    within: Set<usize>,
    applied: Set<I>,
    direction: MigrationDirection,
) -> Seq<usize> {
    walk_order(order, direction).filter(|u: usize| pending(units, within, applied, direction, u))
}

/// The call that applies or reverts one migration.
pub open spec fn step_call<I, E>(
    direction: MigrationDirection,
    unit: usize,
    outcome: Result<(), E>,
) -> AdapterCall<I, E> {
    match direction {
        MigrationDirection::Up => AdapterCall::Applied { unit, outcome },
        MigrationDirection::Down => AdapterCall::Reverted { unit, outcome },
    }
}

/// The calls for the first `count` migrations of a plan. All succeeded,
/// except that the last one failed with `failure`, if that is given.
pub open spec fn step_calls<I, E>(
    direction: MigrationDirection,
    plan: Seq<usize>,
    count: int,
    failure: Option<E>,
) -> Seq<AdapterCall<I, E>> {
    Seq::new(
        count as nat,
        |k: int|
            step_call(
                direction,
                plan[k],
                match failure {
                    Some(error) if k == count - 1 => Err(error),
                    _ => Ok(()),
                },
            ),
    )
}

/// The set that the call at place `at` returned, where that call asked for
/// the applied migrations and got them.
pub open spec fn listed_at<I, E>(calls: Seq<AdapterCall<I, E>>, at: int) -> Set<I> {
    match calls[at] {
        AdapterCall::Listed { outcome: Ok(applied) } => applied,
        _ => Set::empty(),
    }
}

/// What an error from building the edges says: the identity of an
/// `UnknownId` is named as a dependency and is not registered; the `to` of a
/// `Cycle` declares a dependency on its `from`, which already depends on it
/// through the edges, so that the declarations hold a cycle.
pub open spec fn edge_error<I, M: Migration<I>>(
    units: Seq<M>,
    edges: Seq<(usize, usize)>,
    error: DependencyError<I>,
) -> bool {
    match error {
        DependencyError::UnknownId(id) => {
            &&& !registered(units, id)
            &&& exists|u: int| 0 <= u < units.len() && #[trigger] units[u].depends_on().contains(id)
        },
        DependencyError::Cycle { from, to } => {
            &&& registered(units, from)
            &&& registered(units, to)
            &&& declares(units, index_of(units, from), index_of(units, to))
            &&& reaches(edges, index_of(units, to), index_of(units, from))
            &&& cyclic(units)
        },
        DependencyError::DuplicateId(_) => false,
    }
}

/// The graph is built and the target is known: every declared dependency is
/// registered and is an edge, the declarations hold no cycle, and the
/// target, if there is one, is registered.
pub open spec fn ready<I, M: Migration<I>>(
    units: Seq<M>,
    edges: Seq<(usize, usize)>,
    target: Option<I>,
) -> bool {
    &&& resolvable(units)
    &&& !cyclic(units)
    &&& complete(units, edges)
    &&& target matches Some(id) ==> registered(units, id)
}

/// What a run leaves behind, for each way in which it can end.
///
/// `before` and `after` are the calls made to the adapter up to the start and
/// up to the end of the run, `edges` the edges at its end.
///
/// - A `Dependency` error: no call was made. The error is that of building
///   the edges, or, where these can be built, `UnknownId` of the target.
/// - An `Adapter` error: the graph was ready, and the one call made asked for
///   the applied migrations and failed with that error.
/// - Success: the graph was ready; the applied migrations were asked for,
///   and then each migration of the plan was applied or reverted, in the
///   plan's order. The plan follows a topological order of the graph.
/// - A `Migration` error: as for success, up to the migration of the plan on
///   which the adapter failed. The error names that migration and holds what
///   the adapter failed with.
pub open spec fn run_outcome<I, M: Migration<I>, E>(
    units: Seq<M>,
    edges: Seq<(usize, usize)>,
    before: Seq<AdapterCall<I, E>>,
    after: Seq<AdapterCall<I, E>>,
    target: Option<I>,
    direction: MigrationDirection,
    result: Result<(), MigratorError<I, E>>,
) -> bool {
    let order = toposort_order(units.len(), edges);
    let applied = listed_at(after, before.len() as int);
    let steps = plan(units, order, scope(units, edges, target, direction), applied, direction);
    let asked = before.push(AdapterCall::Listed { outcome: Ok(applied) });
    match result {
        Err(MigratorError::Dependency(error)) => {
            &&& after == before
            &&& if resolvable(units) && !cyclic(units) {
                &&& target is Some
                &&& error == DependencyError::UnknownId(target->0)
                &&& !registered(units, target->0)
            } else {
                edge_error(units, edges, error)
            }
        },
        Err(MigratorError::Adapter(error)) => {
            &&& ready(units, edges, target)
            &&& after == before.push(AdapterCall::Listed { outcome: Err(error) })
        },
        Ok(()) => {
            &&& ready(units, edges, target)
            &&& topological(units.len(), edges, order)
            &&& after == asked + step_calls(direction, steps, steps.len() as int, None)
        },
        Err(MigratorError::Migration { id, description, direction: failed, error }) => {
            let count = after.len() - asked.len();
            &&& ready(units, edges, target)
            &&& topological(units.len(), edges, order)
            &&& failed == direction
            &&& 1 <= count <= steps.len()
            &&& after == asked + step_calls(direction, steps, count, Some(error))
            &&& id == units[steps[count - 1] as int].ident()
            &&& description@ == units[steps[count - 1] as int].summary()
        },
    }
}

} // verus!
