//! What a migration is: an identity, the identities it depends on, and a
//! description.

use std::collections::HashSet;
use std::rc::Rc;
use std::sync::Arc;
use vstd::prelude::*;

verus! {

/// Metadata for defining the identity and dependence relations of migrations.
/// Specific adapters require additional traits for actual application and
/// reversion of migrations.
///
/// A migration does not change once it is made: each method returns the same
/// value at every call. The three specification functions name those values.
/// An implementation written in Verus states them and is held to them; of one
/// written in plain Rust they are taken on trust.
pub trait Migration<I> {
    /// The identity that `id` returns.
    open spec fn ident(&self) -> I {
        arbitrary()
    }

    /// The identities that `dependencies` returns.
    open spec fn depends_on(&self) -> Set<I> {
        arbitrary()
    }

    /// The text that `description` returns.
    open spec fn summary(&self) -> Seq<char> {
        arbitrary()
    }

    /// Unique identifier for this migration.
    fn id(&self) -> (id: I)
        ensures
            id == self.ident(),
    ;

    /// Set of IDs of all direct dependencies of this migration.
    fn dependencies(&self) -> (deps: HashSet<I>)
        ensures
            deps@ == self.depends_on(),
    ;

    /// User-targeted description of this migration.
    fn description(&self) -> (text: &'static str)
        ensures
            text@ == self.summary(),
    ;
}

impl<I, T> Migration<I> for Box<T> where T: Migration<I> + ?Sized {
    open spec fn ident(&self) -> I {
        (**self).ident()
    }

    open spec fn depends_on(&self) -> Set<I> {
        (**self).depends_on()
    }

    open spec fn summary(&self) -> Seq<char> {
        (**self).summary()
    }

    fn id(&self) -> I {
        (**self).id()
    }

    fn dependencies(&self) -> HashSet<I> {
        (**self).dependencies()
    }

    fn description(&self) -> &'static str {
        (**self).description()
    }
}

impl<I, T> Migration<I> for Rc<T> where T: Migration<I> + ?Sized {
    open spec fn ident(&self) -> I {
        (**self).ident()
    }

    open spec fn depends_on(&self) -> Set<I> {
        (**self).depends_on()
    }

    open spec fn summary(&self) -> Seq<char> {
        (**self).summary()
    }

    fn id(&self) -> I {
        (**self).id()
    }

    fn dependencies(&self) -> HashSet<I> {
        (**self).dependencies()
    }

    fn description(&self) -> &'static str {
        (**self).description()
    }
}

impl<I, T> Migration<I> for Arc<T> where T: Migration<I> + ?Sized {
    open spec fn ident(&self) -> I {
        (**self).ident()
    }

    open spec fn depends_on(&self) -> Set<I> {
        (**self).depends_on()
    }

    open spec fn summary(&self) -> Seq<char> {
        (**self).summary()
    }

    fn id(&self) -> I {
        (**self).id()
    }

    fn dependencies(&self) -> HashSet<I> {
        (**self).dependencies()
    }

    fn description(&self) -> &'static str {
        (**self).description()
    }
}

/// Direction in which a migration is applied (`Up`) or reverted (`Down`).
#[derive(Debug, Clone, Copy, PartialEq, Eq)]
pub enum MigrationDirection {
    Up,
    Down,
}

impl MigrationDirection {
    /// The direction as it is printed: `up` or `Down`.
    pub fn to_string(&self) -> (text: String)
        ensures
            text@ == match self {
                MigrationDirection::Up => "up"@,
                MigrationDirection::Down => "Down"@,
            },
    {
        match self {
            MigrationDirection::Up => "up".to_owned(),
            MigrationDirection::Down => "Down".to_owned(),
        }
    }
}

/// Error resulting from the definition of migration identity and dependency.
#[derive(Debug)]
pub enum DependencyError<I> {
    /// The identity was registered before.
    DuplicateId(I),
    /// The identity, named as a dependency or as a target, is not registered.
    UnknownId(I),
    /// The dependency of `to` on `from` closes a cycle.
    Cycle { from: I, to: I },
}

/// Error resulting either from migration definitions or from migration
/// application with an adapter.
#[derive(Debug)]
pub enum MigratorError<I, E> {
    /// The registered migrations do not form a valid dependency graph.
    Dependency(DependencyError<I>),
    /// The adapter could not tell which migrations are applied.
    Adapter(E),
    /// The adapter failed to apply or revert the migration `id`.
    Migration { id: I, description: &'static str, direction: MigrationDirection, error: E },
}

} // verus!
