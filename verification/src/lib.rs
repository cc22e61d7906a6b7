//! Database schema migrations whose dependencies form a directed acyclic
//! graph.
//!
//! Migrations are registered with a [`Migrator`], which orders them by their
//! declared dependencies and applies or reverts them through an [`Adapter`].
//!
//! - [`migration`]: what a migration is, and the errors.
//! - [`migrator`]: the adapter's interface and the migrator itself.
//! - [`dag`]: the graph, kept in a `daggy::Dag`.
//! - [`stream`]: the breadth-first search for what a target reaches.
//! - [`traversal`]: a depth-first walk in either direction.
//! - [`reach`], [`declare`], [`plan`]: what the contracts speak of: paths and
//!   cycles, what the migrations declare, what a run touches.
//! - [`laws`]: what holds of every plan.
//! - [`lists`]: lemmas on filtered lists.
//! - [`testing`]: a plain migration for exercising adapters.

pub mod dag;
pub mod declare;
pub mod laws;
pub mod lists;
pub mod migration;
pub mod migrator;
pub mod plan;
pub mod reach;
pub mod stream;
pub mod testing;
pub mod traversal;

pub use crate::dag::Dag;
pub use crate::migration::{DependencyError, Migration, MigrationDirection, MigratorError};
pub use crate::migrator::{Adapter, Migrator};
