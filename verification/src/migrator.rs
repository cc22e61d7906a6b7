//! The migrator: registers migrations, builds their dependency graph, and
//! applies or reverts them through an adapter in dependency order.

use crate::dag::{toposort_order, Dag};
use crate::declare::{
    all_declared, complete, cyclic, declares, distinct_ids, index_of, lemma_complete_not_cyclic,
    lemma_edge_added, lemma_index_of, lemma_index_of_unit, lemma_return_is_cyclic,
    lemma_unit_added, registered, resolvable,
};
use crate::migration::{DependencyError, Migration, MigrationDirection, MigratorError};
use crate::plan::{
    edge_error, induced, pending, plan, run_outcome, scope, search_direction, step_call,
    step_calls, walk_order, AdapterCall,
};
use crate::reach::{acyclic, in_bounds, included, lemma_closing_edge, topological};
use daggy::petgraph::Direction;
use std::collections::{HashMap, HashSet};
use std::hash::Hash;
use vstd::prelude::*;
use vstd::std_specs::hash::obeys_key_model;

verus! {

/// Trait necessary to adapt the migrator's management to a stateful backend.
///
/// Nothing is assumed of an adapter: each call may succeed or fail, and
/// `applied_migrations` may return any set.
pub trait Adapter<I> {
    /// Type migrations must implement for this adapter.
    type MigrationType: Migration<I>;

    /// Type of errors returned by this adapter.
    type Error;

    /// Returns the set of IDs for migrations that have been applied.
    fn applied_migrations(&mut self) -> Result<HashSet<I>, Self::Error>;

    /// Apply a single migration.
    fn apply_migration(&mut self, migration: &Self::MigrationType) -> Result<(), Self::Error>;

    /// Revert a single migration.
    fn revert_migration(&mut self, migration: &Self::MigrationType) -> Result<(), Self::Error>;
}

/// `Vec::from_iter` on a `HashSet`: the members of the set, each once, in the
/// order in which the set hands them out.
#[verifier::external_body]
fn members<I>(set: HashSet<I>) -> (list: Vec<I>)
    ensures
        obeys_key_model::<I>() ==> list@.no_duplicates() && list@.to_set() == set@,
{
    Vec::from_iter(set)
}

/// Primary type for defining and applying migrations.
///
/// Migrations are numbered in the order in which they were registered, and
/// node `u` of the dependency graph stands for migration `u`. An edge from
/// `a` to `b` says that `b` depends on `a`.
#[verifier::reject_recursive_types(I)]
pub struct Migrator<I, T: Adapter<I>> {
    adapter: T,
    migrations: Vec<T::MigrationType>,
    dependencies: Dag,
    id_map: HashMap<I, usize>,
    calls: Ghost<Seq<AdapterCall<I, T::Error>>>,
}

impl<I, T> Migrator<I, T> where I: Hash + Eq, T: Adapter<I> {
    /// The registered migrations, in the order of their registration.
    pub closed spec fn units(&self) -> Seq<T::MigrationType> {
        self.migrations@
    }

    /// The edges built so far, in the order in which they were added.
    pub closed spec fn edges(&self) -> Seq<(usize, usize)> {
        self.dependencies.edges()
    }

    /// Every call that the migrator made to the adapter so far, oldest
    /// first.
    pub closed spec fn calls(&self) -> Seq<AdapterCall<I, T::Error>> {
        self.calls@
    }

    /// The adapter as it is now.
    pub closed spec fn backend(&self) -> T {
        self.adapter
    }

    /// The graph has one node for each migration, and the index from
    /// identities to numbers is that of the registered migrations.
    pub closed spec fn indexed(&self) -> bool {
        &&& obeys_key_model::<I>()
        &&& self.dependencies.nodes() == self.migrations@.len()
        &&& forall|u: int|
            0 <= u < self.migrations@.len() ==> self.id_map@.contains_key(
                (#[trigger] self.migrations@[u]).ident(),
            ) && self.id_map@[self.migrations@[u].ident()] == u
        &&& forall|id: I| #[trigger]
            self.id_map@.contains_key(id) ==> registered(self.migrations@, id)
    }

    /// The migrator is well formed: identities are distinct, and the edges
    /// built so far are acyclic, join registered migrations, are declared
    /// dependencies, and are each there once.
    pub open spec fn wf(&self) -> bool {
        &&& self.indexed()
        &&& distinct_ids(self.units())
        &&& in_bounds(self.units().len(), self.edges())
        &&& acyclic(self.edges())
        &&& all_declared(self.units(), self.edges())
        &&& self.edges().no_duplicates()
    }

    /// Create a `Migrator` using the given `Adapter`.
    ///
    /// Identities are kept in hash maps and sets: their type has to hash and
    /// compare as a key of such a map should.
    pub fn new(adapter: T) -> (migrator: Migrator<I, T>)
        requires
            obeys_key_model::<I>(),
        ensures
            migrator.wf(),
            migrator.backend() == adapter,
            migrator.units().len() == 0,
            migrator.edges().len() == 0,
            migrator.calls().len() == 0,
    {
        Migrator {
            adapter,
            migrations: Vec::new(),
            dependencies: Dag::new(),
            id_map: HashMap::new(),
            calls: Ghost(Seq::empty()),
        }
    }

    /// The adapter.
    pub fn adapter(&self) -> (adapter: &T)
        ensures
            *adapter == self.backend(),
    {
        &self.adapter
    }

    /// The adapter, to be called directly. Such calls are not among
    /// `calls()`; but for the adapter the migrator stays as it is.
    pub fn adapter_mut(&mut self) -> (adapter: &mut T)
        requires
            old(self).wf(),
        ensures
            *adapter == old(self).backend(),
            final(self).backend() == *final(adapter),
            final(self).wf(),
            final(self).units() == old(self).units(),
            final(self).edges() == old(self).edges(),
            final(self).calls() == old(self).calls(),
    {
        &mut self.adapter
    }

    /// The number of registered migrations.
    pub fn len(&self) -> (n: usize)
        ensures
            n == self.units().len(),
    {
        self.migrations.len()
    }

    /// Register a migration into the dependency graph.
    ///
    /// Fails with `DuplicateId` if a migration with the same identity is
    /// registered, and then changes nothing. The dependencies of the
    /// migration are not looked at yet.
    pub fn register(&mut self, migration: T::MigrationType) -> (r: Result<
        (),
        MigratorError<I, T::Error>,
    >)
        requires
            old(self).wf(),
        ensures
            final(self).wf(),
            final(self).edges() == old(self).edges(),
            final(self).calls() == old(self).calls(),
            final(self).backend() == old(self).backend(),
            match r {
                Ok(()) => {
                    &&& !registered(old(self).units(), migration.ident())
                    &&& final(self).units() == old(self).units().push(migration)
                },
                Err(MigratorError::Dependency(DependencyError::DuplicateId(id))) => {
                    &&& id == migration.ident()
                    &&& registered(old(self).units(), id)
                    &&& final(self).units() == old(self).units()
                },
                Err(_) => false,
            },
    {
        broadcast use vstd::std_specs::hash::group_hash_axioms;

        let id = migration.id();
        if self.id_map.contains_key(&id) {
            return Err(MigratorError::Dependency(DependencyError::DuplicateId(id)));
        }
        proof {
            if registered(self.units(), id) {
                let u = index_of(self.units(), id);
                assert(self.id_map@.contains_key(self.migrations@[u as int].ident()));
            }
        }
        let count = self.migrations.len();
        let migration_idx = self.dependencies.add_node();
        self.migrations.push(migration);
        self.id_map.insert(id, migration_idx);
        proof {
            assert(self.migrations@.len() == self.migrations.len());
            lemma_unit_added(old(self).units(), old(self).edges(), migration);
            assert forall|u: int| 0 <= u < self.migrations@.len() implies self.id_map@.contains_key(
                (#[trigger] self.migrations@[u]).ident(),
            ) && self.id_map@[self.migrations@[u].ident()] == u by {
                if u < count {
                    assert(self.migrations@[u] == old(self).migrations@[u]);
                    assert(registered(old(self).units(), old(self).migrations@[u as usize as int].ident()));
                }
            }
        }
        Ok(())
    }

    /// Register multiple migrations into the dependency graph.
    ///
    /// The migrations are registered in their order. At the first whose
    /// identity is registered already, among them one given earlier, this
    /// fails with `DuplicateId`; those before it stay registered.
    pub fn register_multiple(&mut self, migrations: Vec<T::MigrationType>) -> (r: Result<
        (),
        MigratorError<I, T::Error>,
    >)
        requires
            old(self).wf(),
        ensures
            final(self).wf(),
            final(self).edges() == old(self).edges(),
            final(self).calls() == old(self).calls(),
            final(self).backend() == old(self).backend(),
            old(self).units().len() <= final(self).units().len() <= old(self).units().len()
                + migrations@.len(),
            final(self).units() == old(self).units() + migrations@.take(
                final(self).units().len() - old(self).units().len(),
            ),
            match r {
                Ok(()) => final(self).units().len() == old(self).units().len() + migrations@.len(),
                Err(MigratorError::Dependency(DependencyError::DuplicateId(id))) => {
                    let k = final(self).units().len() - old(self).units().len();
                    &&& k < migrations@.len()
                    &&& id == migrations@[k].ident()
                    &&& registered(final(self).units(), id)
                },
                Err(_) => false,
            },
    {
        let ghost all = migrations@;
        proof {
            assert(self.units() =~= old(self).units() + all.take(0));
        }
        for migration in iter: migrations
            invariant
                iter.seq() == all,
                self.wf(),
                self.edges() == old(self).edges(),
                self.calls() == old(self).calls(),
                self.backend() == old(self).backend(),
                self.units() == old(self).units() + all.take(iter.index()),
        {
            let ghost k = iter.index();
            let ghost before = self.units();
            match self.register(migration) {
                Ok(()) => {},
                Err(e) => {
                    return Err(e);
                },
            }
            proof {
                assert(all.take(k + 1) =~= all.take(k).push(all[k]));
                assert(self.units() =~= old(self).units() + all.take(k + 1));
            }
        }
        proof {
            assert(all.take(all.len() as int) =~= all);
        }
        Ok(())
    }

    /// Creates the edges for the current migrations into the dependency
    /// graph.
    ///
    /// The migrations are taken in the order of their registration, and each
    /// dependency that is not yet an edge is added. Succeeds exactly when
    /// every declared dependency is registered and the declarations hold no
    /// cycle; every declared dependency is then an edge. Fails with
    /// `UnknownId` on a dependency that is not registered, and with `Cycle`
    /// on one that would close a cycle: one whose `from` already depends on
    /// its `to`. The edges built before a failure stay.
    pub fn register_edges(&mut self) -> (r: Result<(), MigratorError<I, T::Error>>)
        requires
            old(self).wf(),
        ensures
            final(self).wf(),
            final(self).units() == old(self).units(),
            final(self).calls() == old(self).calls(),
            final(self).backend() == old(self).backend(),
            included(old(self).edges(), final(self).edges()),
            r is Ok <==> resolvable(old(self).units()) && !cyclic(old(self).units()),
            match r {
                Ok(()) => complete(final(self).units(), final(self).edges()),
                Err(MigratorError::Dependency(error)) => edge_error(
                    old(self).units(),
                    final(self).edges(),
                    error,
                ),
                Err(_) => false,
            },
            !resolvable(old(self).units()) && !cyclic(old(self).units()) ==> r matches Err(
                MigratorError::Dependency(DependencyError::UnknownId(_)),
            ),
            resolvable(old(self).units()) && cyclic(old(self).units()) ==> r matches Err(
                MigratorError::Dependency(DependencyError::Cycle { .. }),
            ),
    {
        broadcast use vstd::std_specs::hash::group_hash_axioms;

        let ghost units = self.units();
        let count = self.migrations.len();
        let mut unit: usize = 0;
        while unit < count
            invariant
                self.wf(),
                self.units() == units,
                units == old(self).units(),
                self.calls() == old(self).calls(),
                self.backend() == old(self).backend(),
                count == units.len(),
                unit <= count,
                included(old(self).edges(), self.edges()),
                forall|a: usize, b: usize|
                    b < unit && #[trigger] declares(units, a, b) ==> self.edges().contains((a, b)),
                forall|u: int, d: I|
                    0 <= u < unit && #[trigger] units[u].depends_on().contains(d) ==> registered(
                        units,
                        d,
                    ),
            decreases count - unit,
        {
            let mut depends = members(self.migrations[unit].dependencies());
            let ghost all = depends@;
            loop
                invariant
                    self.wf(),
                    self.units() == units,
                    units == old(self).units(),
                    self.calls() == old(self).calls(),
                    self.backend() == old(self).backend(),
                    count == units.len(),
                    unit < count,
                    included(old(self).edges(), self.edges()),
                    forall|a: usize, b: usize|
                        b < unit && #[trigger] declares(units, a, b) ==> self.edges().contains(
                            (a, b),
                        ),
                    forall|u: int, d: I|
                        0 <= u < unit && #[trigger] units[u].depends_on().contains(d)
                            ==> registered(units, d),
                    all.to_set() == units[unit as int].depends_on(),
                    depends@ == all.take(depends.len() as int),
                    depends.len() <= all.len(),
                    forall|k: int|
                        depends.len() <= k < all.len() ==> registered(units, #[trigger] all[k])
                            && self.edges().contains((index_of(units, all[k]), unit)),
                ensures
                    depends.len() == 0,
                decreases depends.len(),
            {
                let ghost built = self.edges();
                let d = match depends.pop() {
                    Some(d) => d,
                    None => {
                        break ;
                    },
                };
                proof {
                    assert(d == all[depends.len() as int]);
                    assert(depends@ =~= all.take(depends.len() as int));
                    assert(all.to_set().contains(d));
                    assert(units[unit as int].depends_on().contains(d));
                }
                let parent = match self.id_map.get(&d) {
                    Some(parent) => *parent,
                    None => {
                        proof {
                            if registered(units, d) {
                                let u = index_of(units, d);
                                assert(self.id_map@.contains_key(self.migrations@[u as int].ident()));
                            }
                            assert(units[unit as int].depends_on().contains(d));
                            assert(edge_error(units, self.edges(), DependencyError::UnknownId(d)));
                        }
                        return Err(MigratorError::Dependency(DependencyError::UnknownId(d)));
                    },
                };
                proof {
                    assert(self.id_map@.contains_key(d));
                    lemma_index_of(units, d);
                    let u = index_of(units, d);
                    assert(self.id_map@.contains_key(self.migrations@[u as int].ident()));
                    assert(parent == u);
                    assert(declares(units, parent, unit));
                }
                if !self.dependencies.contains_edge(parent, unit) {
                    if !self.dependencies.add_edge(parent, unit) {
                        let to = self.migrations[unit].id();
                        proof {
                            lemma_closing_edge(built, parent, unit);
                            lemma_index_of_unit(units, unit);
                            lemma_return_is_cyclic(units, built, parent, unit);
                        }
                        return Err(
                            MigratorError::Dependency(DependencyError::Cycle { from: d, to }),
                        );
                    }
                    proof {
                        lemma_edge_added(units, built, parent, unit);
                        assert(self.edges().contains((parent, unit))) by {
                            assert(self.edges()[built.len() as int] == (parent, unit));
                        }
                    }
                }
                proof {
                    assert forall|k: int| depends.len() <= k < all.len() implies registered(
                        units,
                        #[trigger] all[k],
                    ) && self.edges().contains((index_of(units, all[k]), unit)) by {
                        if k > depends.len() {
                            assert(built.contains((index_of(units, all[k]), unit)));
                        }
                    }
                }
            }
            proof {
                assert forall|a: usize, b: usize| b < unit + 1 && #[trigger] declares(units, a, b) implies self.edges().contains(
                    (a, b),
                ) by {
                    if b == unit {
                        let id = units[a as int].ident();
                        assert(all.to_set().contains(id));
                        let k = choose|k: int| 0 <= k < all.len() && all[k] == id;
                        assert(self.edges().contains((index_of(units, all[k]), unit)));
                        lemma_index_of_unit(units, a);
                    }
                }
                assert forall|u: int, d: I|
                    0 <= u < unit + 1 && #[trigger] units[u].depends_on().contains(
                        d,
                    ) implies registered(units, d) by {
                    if u == unit {
                        assert(all.to_set().contains(d));
                        let k = choose|k: int| 0 <= k < all.len() && all[k] == d;
                        assert(registered(units, all[k]));
                    }
                }
            }
            unit += 1;
        }
        proof {
            lemma_complete_not_cyclic(units, self.edges());
        }
        Ok(())
    }

    /// Collect the numbers of recursively dependent migrations in `dir`
    /// induced starting from `id`. If `dir` is `Incoming`, this is all
    /// ancestors (dependencies); if `Outgoing`, this is all descendents
    /// (dependents). If `id` is `None`, this is all migrations starting from
    /// the sources or the sinks, respectively.
    ///
    /// Fails with `UnknownId` exactly when `id` is given and not registered.
    /// Each number is listed once; their order says nothing.
    pub fn induced_stream(&self, id: Option<I>, dir: Direction) -> (r: Result<
        Vec<usize>,
        DependencyError<I>,
    >)
        requires
            self.wf(),
        ensures
            match r {
                Ok(stream) => {
                    &&& id matches Some(known) ==> registered(self.units(), known)
                    &&& stream@.no_duplicates()
                    &&& stream@.to_set() == induced(self.units(), self.edges(), id, dir)
                },
                Err(DependencyError::UnknownId(unknown)) => {
                    &&& id == Some(unknown)
                    &&& !registered(self.units(), unknown)
                },
                Err(_) => false,
            },
    {
        broadcast use vstd::std_specs::hash::group_hash_axioms;

        let ghost units = self.units();
        let ghost from = crate::plan::seeds(units, self.edges(), id, dir);
        let seeds = match id {
            Some(id) => {
                match self.id_map.get(&id) {
                    Some(idx) => {
                        let mut seeds: Vec<usize> = Vec::new();
                        seeds.push(*idx);
                        proof {
                            lemma_index_of(units, id);
                            let u = index_of(units, id);
                            assert(self.id_map@.contains_key(self.migrations@[u as int].ident()));
                            assert(seeds@[0] == u);
                            assert(seeds@.to_set() =~= from);
                        }
                        seeds
                    },
                    None => {
                        proof {
                            if registered(units, id) {
                                let u = index_of(units, id);
                                assert(self.id_map@.contains_key(self.migrations@[u as int].ident()));
                            }
                        }
                        return Err(DependencyError::UnknownId(id));
                    },
                }
            },
            None => {
                let seeds = self.dependencies.externals(dir.opposite());
                proof {
                    assert(seeds@.to_set() =~= from);
                }
                seeds
            },
        };
        proof {
            assert forall|k: int| 0 <= k < seeds.len() implies seeds[k] < self.dependencies.nodes() by {
                assert(seeds@.contains(seeds[k]));
                assert(from.contains(seeds[k]));
            }
        }
        let stream = self.dependencies.induced_stream(&seeds, dir);
        proof {
            assert(stream@.to_set() =~= induced(units, self.edges(), id, dir));
        }
        Ok(stream)
    }

    /// The migrations of `stream` that a run in `direction` touches, given
    /// the identities that are applied, in the order in which it touches
    /// them: a topological order of the whole graph to apply, the same order
    /// backward to revert.
    pub fn plan(
        &self,
        stream: &Vec<usize>,
        applied: &HashSet<I>,
        direction: MigrationDirection,
    ) -> (steps: Vec<usize>)
        requires
            self.wf(),
        ensures
            topological(
                self.units().len(),
                self.edges(),
                toposort_order(self.units().len(), self.edges()),
            ),
            steps@ == plan(
                self.units(),
                toposort_order(self.units().len(), self.edges()),
                stream@.to_set(),
                applied@,
                direction,
            ),
    {
        broadcast use vstd::std_specs::hash::group_hash_axioms;

        let order = self.dependencies.toposort();
        let ghost walk = walk_order(order@, direction);
        let ghost wanted = |u: usize|
            pending(self.units(), stream@.to_set(), applied@, direction, u);
        let mut steps: Vec<usize> = Vec::new();
        let mut k: usize = 0;
        proof {
            assert(walk.take(0).filter(wanted) =~= Seq::<usize>::empty()) by {
                reveal(Seq::filter);
            }
        }
        while k < order.len()
            invariant
                self.wf(),
                k <= order.len(),
                walk == walk_order(order@, direction),
                walk.len() == order.len(),
                topological(self.units().len(), self.edges(), order@),
                wanted == (|u: usize|
                    pending(self.units(), stream@.to_set(), applied@, direction, u)),
                steps@ == walk.take(k as int).filter(wanted),
            decreases order.len() - k,
        {
            let idx = match direction {
                MigrationDirection::Up => order[k],
                MigrationDirection::Down => order[order.len() - 1 - k],
            };
            proof {
                assert(idx == walk[k as int]);
                assert(walk.take(k + 1) =~= walk.take(k as int).push(idx));
                walk.take(k as int).lemma_filter_push(idx, wanted);
            }
            if holds(stream, idx) {
                let id = self.migrations[idx].id();
                let listed = applied.contains(&id);
                let touch = match direction {
                    MigrationDirection::Up => !listed,
                    MigrationDirection::Down => listed,
                };
                if touch {
                    steps.push(idx);
                }
            }
            k += 1;
        }
        proof {
            assert(walk.take(order.len() as int) =~= walk);
        }
        steps
    }

    /// Apply migrations as necessary to so that the specified migration is
    /// applied (inclusive).
    ///
    /// If `to` is `None`, apply all registered migrations.
    ///
    /// The edges are built first. Then the adapter is asked once which
    /// migrations are applied, and those of the target's dependencies, the
    /// target among them, that are not applied are applied in a topological
    /// order of the graph, each after all that it depends on. The run stops
    /// at the first failure and undoes nothing.
    pub fn up(&mut self, to: Option<I>) -> (r: Result<(), MigratorError<I, T::Error>>)
        requires
            old(self).wf(),
        ensures
            final(self).wf(),
            final(self).units() == old(self).units(),
            included(old(self).edges(), final(self).edges()),
            run_outcome(
                old(self).units(),
                final(self).edges(),
                old(self).calls(),
                final(self).calls(),
                to,
                MigrationDirection::Up,
                r,
            ),
    {
        self.migrate(to, MigrationDirection::Up)
    }

    /// Revert migrations as necessary so that no migrations dependent on the
    /// specified migration are applied. If the specified migration was
    /// already applied, it will still be applied.
    ///
    /// If `to` is `None`, revert all applied migrations.
    ///
    /// The edges are built first. Then the adapter is asked once which
    /// migrations are applied, and those of the target's dependents that are
    /// applied are reverted in a topological order of the graph taken
    /// backward, each before all that it depends on. The run stops at the
    /// first failure and undoes nothing.
    pub fn down(&mut self, to: Option<I>) -> (r: Result<(), MigratorError<I, T::Error>>)
        requires
            old(self).wf(),
        ensures
            final(self).wf(),
            final(self).units() == old(self).units(),
            included(old(self).edges(), final(self).edges()),
            run_outcome(
                old(self).units(),
                final(self).edges(),
                old(self).calls(),
                final(self).calls(),
                to,
                MigrationDirection::Down,
                r,
            ),
    {
        self.migrate(to, MigrationDirection::Down)
    }

    /// One run: builds the edges, finds the scope of the target, asks the
    /// adapter which migrations are applied, and applies or reverts the
    /// migrations of the plan.
    fn migrate(&mut self, to: Option<I>, direction: MigrationDirection) -> (r: Result<
        (),
        MigratorError<I, T::Error>,
    >)
        requires
            old(self).wf(),
        ensures
            final(self).wf(),
            final(self).units() == old(self).units(),
            included(old(self).edges(), final(self).edges()),
            run_outcome(
                old(self).units(),
                final(self).edges(),
                old(self).calls(),
                final(self).calls(),
                to,
                direction,
                r,
            ),
    {
        broadcast use vstd::std_specs::hash::group_hash_axioms;
        broadcast use vstd::seq_lib::group_filter_ensures;

        match self.register_edges() {
            Ok(()) => {},
            Err(error) => {
                return Err(error);
            },
        }
        let ghost units = self.units();
        let ghost edges = self.edges();
        let ghost before = self.calls();
        let skip: Option<usize> = match direction {
            MigrationDirection::Up => None,
            MigrationDirection::Down => match &to {
                Some(id) => match self.id_map.get(id) {
                    Some(idx) => Some(*idx),
                    None => None,
                },
                None => None,
            },
        };
        let dir = match direction {
            MigrationDirection::Up => Direction::Incoming,
            MigrationDirection::Down => Direction::Outgoing,
        };
        let found = match self.induced_stream(to, dir) {
            Ok(found) => found,
            Err(error) => {
                return Err(MigratorError::Dependency(error));
            },
        };
        let stream = match skip {
            Some(target) => {
                proof {
                    lemma_index_of(units, to->0);
                    let u = index_of(units, to->0);
                    assert(self.id_map@.contains_key(self.migrations@[u as int].ident()));
                    assert(target == u);
                }
                without(&found, target)
            },
            None => {
                proof {
                    if to is Some && direction == MigrationDirection::Down {
                        lemma_index_of(units, to->0);
                        let u = index_of(units, to->0);
                        assert(self.id_map@.contains_key(self.migrations@[u as int].ident()));
                    }
                }
                found
            },
        };
        proof {
            assert(dir == search_direction(direction));
            assert(found@.to_set() == induced(units, edges, to, dir));
            assert(stream@.to_set() =~= scope(units, edges, to, direction));
        }
        let applied = match self.adapter.applied_migrations() {
            Ok(applied) => applied,
            Err(error) => {
                proof {
                    self.calls@ = self.calls@.push(AdapterCall::Listed { outcome: Err(error) });
                }
                return Err(MigratorError::Adapter(error));
            },
        };
        proof {
            self.calls@ = self.calls@.push(AdapterCall::Listed { outcome: Ok(applied@) });
        }
        let ghost asked = self.calls();
        let steps = self.plan(&stream, &applied, direction);
        proof {
            let order = toposort_order(units.len(), edges);
            let wanted = |u: usize| pending(units, stream@.to_set(), applied@, direction, u);
            assert forall|k: int| 0 <= k < steps.len() implies steps[k] < units.len() by {
                assert(wanted(walk_order(order, direction).filter(wanted)[k]));
            }
            assert(crate::plan::listed_at(asked, before.len() as int) == applied@);
        }
        let r = self.perform(&steps, direction);
        proof {
            assert(self.calls()[before.len() as int] == asked[before.len() as int]);
        }
        r
    }

    /// Applies or reverts the migrations of `steps` in their order, and stops
    /// at the first on which the adapter fails.
    fn perform(&mut self, steps: &Vec<usize>, direction: MigrationDirection) -> (r: Result<
        (),
        MigratorError<I, T::Error>,
    >)
        requires
            old(self).wf(),
            forall|k: int| 0 <= k < steps.len() ==> steps[k] < old(self).units().len(),
        ensures
            final(self).wf(),
            final(self).units() == old(self).units(),
            final(self).edges() == old(self).edges(),
            match r {
                Ok(()) => final(self).calls() == old(self).calls() + step_calls(
                    direction,
                    steps@,
                    steps.len() as int,
                    None,
                ),
                Err(MigratorError::Migration { id, description, direction: failed, error }) => {
                    let count = final(self).calls().len() - old(self).calls().len();
                    &&& failed == direction
                    &&& 1 <= count <= steps.len()
                    &&& final(self).calls() == old(self).calls() + step_calls(
                        direction,
                        steps@,
                        count,
                        Some(error),
                    )
                    &&& id == old(self).units()[steps[count - 1] as int].ident()
                    &&& description@ == old(self).units()[steps[count - 1] as int].summary()
                },
                Err(_) => false,
            },
    {
        let mut k: usize = 0;
        proof {
            assert(self.calls() =~= old(self).calls() + step_calls(
                direction,
                steps@,
                0,
                None::<T::Error>,
            ));
        }
        while k < steps.len()
            invariant
                self.wf(),
                self.units() == old(self).units(),
                self.edges() == old(self).edges(),
                k <= steps.len(),
                forall|j: int| 0 <= j < steps.len() ==> steps[j] < self.units().len(),
                self.calls() == old(self).calls() + step_calls(
                    direction,
                    steps@,
                    k as int,
                    None::<T::Error>,
                ),
            decreases steps.len() - k,
        {
            let idx = steps[k];
            let ghost done_so_far = self.calls();
            let outcome = match direction {
                MigrationDirection::Up => self.adapter.apply_migration(&self.migrations[idx]),
                MigrationDirection::Down => self.adapter.revert_migration(&self.migrations[idx]),
            };
            match outcome {
                Ok(()) => {
                    proof {
                        self.calls@ = self.calls@.push(step_call(direction, idx, Ok(())));
                        assert(self.calls() =~= old(self).calls() + step_calls(
                            direction,
                            steps@,
                            k + 1,
                            None::<T::Error>,
                        ));
                    }
                },
                Err(error) => {
                    proof {
                        self.calls@ = self.calls@.push(step_call(direction, idx, Err(error)));
                        assert(self.calls() =~= old(self).calls() + step_calls(
                            direction,
                            steps@,
                            k + 1,
                            Some(error),
                        ));
                    }
                    let id = self.migrations[idx].id();
                    let description = self.migrations[idx].description();
                    return Err(MigratorError::Migration { id, description, direction, error });
                },
            }
            k += 1;
        }
        Ok(())
    }
}

/// `list` without `x`.
fn without(list: &Vec<usize>, x: usize) -> (rest: Vec<usize>)
    ensures
        rest@ == list@.filter(|u: usize| u != x),
        rest@.to_set() == list@.to_set().remove(x),
{
    let ghost kept = |u: usize| u != x;
    let mut rest: Vec<usize> = Vec::new();
    let mut k: usize = 0;
    proof {
        assert(list@.take(0).filter(kept) =~= Seq::<usize>::empty()) by {
            reveal(Seq::filter);
        }
    }
    while k < list.len()
        invariant
            k <= list.len(),
            kept == (|u: usize| u != x),
            rest@ == list@.take(k as int).filter(kept),
        decreases list.len() - k,
    {
        proof {
            assert(list@.take(k + 1) =~= list@.take(k as int).push(list[k as int]));
            list@.take(k as int).lemma_filter_push(list[k as int], kept);
        }
        if list[k] != x {
            rest.push(list[k]);
        }
        k += 1;
    }
    proof {
        assert(list@.take(list.len() as int) =~= list@);
        assert forall|u: usize| rest@.contains(u) <==> list@.contains(u) && u != x by {
            crate::lists::lemma_filter_holds(list@, kept, u);
        }
        assert(rest@.to_set() =~= list@.to_set().remove(x));
    }
    rest
}

/// Whether `list` holds `x`.
fn holds(list: &Vec<usize>, x: usize) -> (found: bool)
    ensures
        found == list@.contains(x),
{
    let mut k: usize = 0;
    while k < list.len()
        invariant
            k <= list.len(),
            forall|j: int| 0 <= j < k ==> list[j] != x,
        decreases list.len() - k,
    {
        if list[k] == x {
            return true;
        }
        k += 1;
    }
    false
}

} // verus!
