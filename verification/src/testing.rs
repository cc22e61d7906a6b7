//! A plain migration and a way to make one, for exercising adapters.

use crate::migration::Migration;
use crate::migrator::Adapter;
use std::collections::HashSet;
use std::hash::Hash;
use vstd::prelude::*;

verus! {

/// `HashSet::clone`, for members that are copied bit by bit: a set with the
/// same members.
#[verifier::external_body]
fn copy_of<I: Copy + Hash + Eq>(set: &HashSet<I>) -> (copy: HashSet<I>)
    ensures
        copy@ == set@,
{
    set.clone()
}

/// Trait necessary to exercise an adapter: a way to make the migrations that
/// it takes.
pub trait TestAdapter<I>: Adapter<I> {
    /// A migration of the adapter's type with the given identity and
    /// dependencies.
    fn mock(id: I, dependencies: HashSet<I>) -> Self::MigrationType;
}

/// A migration that is nothing but its identity and its dependencies.
pub struct TestMigration<I> {
    id: I,
    dependencies: HashSet<I>,
}

impl<I: Copy + Hash + Eq> TestMigration<I> {
    /// A migration with the given identity and dependencies.
    pub fn new(id: I, dependencies: HashSet<I>) -> (migration: TestMigration<I>)
        ensures
            migration.ident() == id,
            migration.depends_on() == dependencies@,
    {
        TestMigration { id, dependencies }
    }
}

impl<I: Copy + Hash + Eq> Migration<I> for TestMigration<I> {
    closed spec fn ident(&self) -> I {
        self.id
    }

    closed spec fn depends_on(&self) -> Set<I> {
        self.dependencies@
    }

    open spec fn summary(&self) -> Seq<char> {
        "Test Migration"@
    }

    fn id(&self) -> I {
        self.id
    }

    fn dependencies(&self) -> HashSet<I> {
        copy_of(&self.dependencies)
    }

    fn description(&self) -> &'static str {
        "Test Migration"
    }
}

} // verus!
