use schemerz::testing::{TestAdapter, TestMigration};
use schemerz::{Adapter, DependencyError, Migration, MigrationDirection, Migrator, MigratorError};
use daggy::petgraph::Direction;
use std::collections::HashSet;
use std::rc::Rc;
use std::sync::Arc;
use uuid::Uuid;

/// An adapter that keeps the applied identities in memory and records each
/// call that changes them.
struct DefaultTestAdapter {
    applied_migrations: HashSet<Uuid>,
    log: Vec<(MigrationDirection, Uuid)>,
    listings: usize,
    fail_on: Option<Uuid>,
    fail_listing: bool,
}

impl DefaultTestAdapter {
    fn new() -> DefaultTestAdapter {
        DefaultTestAdapter {
            applied_migrations: HashSet::new(),
            log: Vec::new(),
            listings: 0,
            fail_on: None,
            fail_listing: false,
        }
    }
}

#[derive(Debug, PartialEq)]
struct DefaultTestAdapterError;

impl Adapter<Uuid> for DefaultTestAdapter {
    type MigrationType = TestMigration<Uuid>;

    type Error = DefaultTestAdapterError;

    fn applied_migrations(&mut self) -> Result<HashSet<Uuid>, Self::Error> {
        self.listings += 1;
        if self.fail_listing {
            return Err(DefaultTestAdapterError);
        }
        Ok(self.applied_migrations.clone())
    }

    fn apply_migration(&mut self, migration: &Self::MigrationType) -> Result<(), Self::Error> {
        if self.fail_on == Some(migration.id()) {
            return Err(DefaultTestAdapterError);
        }
        self.applied_migrations.insert(migration.id());
        self.log.push((MigrationDirection::Up, migration.id()));
        Ok(())
    }

    fn revert_migration(&mut self, migration: &Self::MigrationType) -> Result<(), Self::Error> {
        if self.fail_on == Some(migration.id()) {
            return Err(DefaultTestAdapterError);
        }
        self.applied_migrations.remove(&migration.id());
        self.log.push((MigrationDirection::Down, migration.id()));
        Ok(())
    }
}

impl TestAdapter<Uuid> for DefaultTestAdapter {
    fn mock(id: Uuid, dependencies: HashSet<Uuid>) -> Self::MigrationType {
        TestMigration::new(id, dependencies)
    }
}

fn uuid(n: u128) -> Uuid {
    Uuid::from_u128(n)
}

fn deps(ids: &[Uuid]) -> HashSet<Uuid> {
    ids.iter().cloned().collect()
}

#[test]
fn test_single_migration() {
    let migration1 = DefaultTestAdapter::mock(
        Uuid::parse_str("bc960dc8-0e4a-4182-a62a-8e776d1e2b30").unwrap(),
        HashSet::new(),
    );
    let uuid1 = migration1.id();

    let mut migrator: Migrator<Uuid, DefaultTestAdapter> = Migrator::new(DefaultTestAdapter::new());

    migrator.register(migration1).expect("Migration 1 registration failed");
    migrator.up(None).expect("Up migration failed");

    assert!(migrator.adapter_mut().applied_migrations().unwrap().contains(&uuid1));

    migrator.down(None).expect("Down migration failed");

    assert!(!migrator.adapter_mut().applied_migrations().unwrap().contains(&uuid1));
    assert_eq!(
        migrator.adapter().log,
        vec![(MigrationDirection::Up, uuid1), (MigrationDirection::Down, uuid1)]
    );
}

#[test]
fn test_migration_chain() {
    let migration1 = DefaultTestAdapter::mock(
        Uuid::parse_str("bc960dc8-0e4a-4182-a62a-8e776d1e2b30").unwrap(),
        HashSet::new(),
    );
    let migration2 = DefaultTestAdapter::mock(
        Uuid::parse_str("4885e8ab-dafa-4d76-a565-2dee8b04ef60").unwrap(),
        vec![migration1.id()].into_iter().collect(),
    );
    let migration3 = DefaultTestAdapter::mock(
        Uuid::parse_str("c5d07448-851f-45e8-8fa7-4823d5250609").unwrap(),
        vec![migration2.id()].into_iter().collect(),
    );

    let uuid1 = migration1.id();
    let uuid2 = migration2.id();
    let uuid3 = migration3.id();

    let mut migrator = Migrator::new(DefaultTestAdapter::new());

    migrator.register(migration1).expect("Migration 1 registration failed");
    migrator.register(migration2).expect("Migration 2 registration failed");
    migrator.register(migration3).expect("Migration 3 registration failed");

    migrator.up(Some(uuid2)).expect("Up migration failed");

    {
        let applied = migrator.adapter_mut().applied_migrations().unwrap();
        assert!(applied.contains(&uuid1));
        assert!(applied.contains(&uuid2));
        assert!(!applied.contains(&uuid3));
    }
    assert_eq!(
        migrator.adapter().log,
        vec![(MigrationDirection::Up, uuid1), (MigrationDirection::Up, uuid2)]
    );

    migrator.down(Some(uuid1)).expect("Down migration failed");

    {
        let applied = migrator.adapter_mut().applied_migrations().unwrap();
        assert!(applied.contains(&uuid1));
        assert!(!applied.contains(&uuid2));
        assert!(!applied.contains(&uuid3));
    }
    assert_eq!(
        migrator.adapter().log,
        vec![
            (MigrationDirection::Up, uuid1),
            (MigrationDirection::Up, uuid2),
            (MigrationDirection::Down, uuid2)
        ]
    );
}

#[test]
fn duplicate_id_is_refused_at_registration() {
    let mut migrator = Migrator::new(DefaultTestAdapter::new());
    migrator.register(TestMigration::new(uuid(1), deps(&[uuid(9)]))).unwrap();
    let r = migrator.register(TestMigration::new(uuid(1), HashSet::new()));
    assert!(matches!(
        r,
        Err(MigratorError::Dependency(DependencyError::DuplicateId(id))) if id == uuid(1)
    ));
    assert_eq!(migrator.len(), 1);
}

#[test]
fn unknown_dependency_fails_up_and_down_not_register() {
    let mut migrator = Migrator::new(DefaultTestAdapter::new());
    assert!(migrator.register(TestMigration::new(uuid(1), deps(&[uuid(9)]))).is_ok());
    let r = migrator.up(None);
    assert!(matches!(
        r,
        Err(MigratorError::Dependency(DependencyError::UnknownId(id))) if id == uuid(9)
    ));
    let r = migrator.down(None);
    assert!(matches!(
        r,
        Err(MigratorError::Dependency(DependencyError::UnknownId(id))) if id == uuid(9)
    ));
    assert!(migrator.adapter().log.is_empty());
}

#[test]
fn declared_cycle_fails_with_cycle() {
    let mut migrator = Migrator::new(DefaultTestAdapter::new());
    migrator.register(TestMigration::new(uuid(1), deps(&[uuid(2)]))).unwrap();
    migrator.register(TestMigration::new(uuid(2), deps(&[uuid(1)]))).unwrap();
    let r = migrator.register_edges();
    assert!(matches!(
        r,
        Err(MigratorError::Dependency(DependencyError::Cycle { from, to }))
            if from == uuid(1) && to == uuid(2)
    ));
    let r = migrator.up(None);
    assert!(matches!(r, Err(MigratorError::Dependency(DependencyError::Cycle { .. }))));
}

/// m1 without dependencies, m2 and m3 on m1, m4 on m2 and m3.
fn diamond(adapter: DefaultTestAdapter) -> Migrator<Uuid, DefaultTestAdapter> {
    let mut migrator = Migrator::new(adapter);
    migrator
        .register_multiple(vec![
            TestMigration::new(uuid(1), HashSet::new()),
            TestMigration::new(uuid(2), deps(&[uuid(1)])),
            TestMigration::new(uuid(3), deps(&[uuid(1)])),
            TestMigration::new(uuid(4), deps(&[uuid(2), uuid(3)])),
        ])
        .unwrap();
    migrator
}

fn place(log: &[(MigrationDirection, Uuid)], id: Uuid) -> usize {
    log.iter().position(|(_, x)| *x == id).unwrap()
}

fn ups(ids: &[u128]) -> Vec<(MigrationDirection, Uuid)> {
    ids.iter().map(|n| (MigrationDirection::Up, uuid(*n))).collect()
}

fn downs(ids: &[u128]) -> Vec<(MigrationDirection, Uuid)> {
    ids.iter().map(|n| (MigrationDirection::Down, uuid(*n))).collect()
}

#[test]
fn up_applies_every_unit_once_after_its_dependencies() {
    let mut migrator = diamond(DefaultTestAdapter::new());
    migrator.up(None).unwrap();
    let log = migrator.adapter().log.clone();
    assert_eq!(log.len(), 4);
    assert!(log.iter().all(|(d, _)| *d == MigrationDirection::Up));
    for (dep, unit) in [(1, 2), (1, 3), (2, 4), (3, 4), (1, 4)] {
        assert!(place(&log, uuid(dep)) < place(&log, uuid(unit)));
    }
    assert_eq!(migrator.adapter().applied_migrations, deps(&[uuid(1), uuid(2), uuid(3), uuid(4)]));
    assert_eq!(migrator.adapter().listings, 1);
}

#[test]
fn down_reverts_every_unit_once_before_its_dependencies() {
    let mut migrator = diamond(DefaultTestAdapter::new());
    migrator.up(None).unwrap();
    let applied = migrator.adapter().log.clone();
    migrator.down(None).unwrap();
    let log: Vec<_> = migrator.adapter().log[4..].to_vec();
    assert_eq!(log.len(), 4);
    assert!(log.iter().all(|(d, _)| *d == MigrationDirection::Down));
    for (dep, unit) in [(1, 2), (1, 3), (2, 4), (3, 4), (1, 4)] {
        assert!(place(&log, uuid(unit)) < place(&log, uuid(dep)));
    }
    let reversed: Vec<Uuid> = applied.iter().rev().map(|(_, id)| *id).collect();
    let reverted: Vec<Uuid> = log.iter().map(|(_, id)| *id).collect();
    assert_eq!(reverted, reversed);
    assert!(migrator.adapter().applied_migrations.is_empty());
}

#[test]
fn second_up_applies_nothing() {
    let mut migrator = diamond(DefaultTestAdapter::new());
    migrator.up(Some(uuid(4))).unwrap();
    assert_eq!(migrator.adapter().log.len(), 4);
    migrator.up(Some(uuid(4))).unwrap();
    assert_eq!(migrator.adapter().log.len(), 4);
    migrator.up(None).unwrap();
    assert_eq!(migrator.adapter().log.len(), 4);
    assert_eq!(migrator.adapter().listings, 3);
}

#[test]
fn second_down_reverts_nothing() {
    let mut migrator = diamond(DefaultTestAdapter::new());
    migrator.up(None).unwrap();
    migrator.down(Some(uuid(1))).unwrap();
    assert_eq!(migrator.adapter().log.len(), 7);
    migrator.down(Some(uuid(1))).unwrap();
    assert_eq!(migrator.adapter().log.len(), 7);
    migrator.down(None).unwrap();
    assert_eq!(migrator.adapter().log.len(), 8);
    migrator.down(None).unwrap();
    assert_eq!(migrator.adapter().log.len(), 8);
}

#[test]
fn up_to_target_applies_its_dependencies_only() {
    let mut migrator = diamond(DefaultTestAdapter::new());
    migrator.up(Some(uuid(2))).unwrap();
    assert_eq!(migrator.adapter().log, ups(&[1, 2]));
    migrator.up(Some(uuid(3))).unwrap();
    assert_eq!(migrator.adapter().log, ups(&[1, 2, 3]));
    assert_eq!(migrator.adapter().applied_migrations, deps(&[uuid(1), uuid(2), uuid(3)]));
}

#[test]
fn up_skips_what_is_applied() {
    let mut adapter = DefaultTestAdapter::new();
    adapter.applied_migrations.insert(uuid(1));
    adapter.applied_migrations.insert(uuid(3));
    let mut migrator = diamond(adapter);
    migrator.up(None).unwrap();
    assert_eq!(migrator.adapter().log, ups(&[2, 4]));
}

#[test]
fn down_to_target_reverts_its_dependents_and_leaves_it() {
    let mut migrator = diamond(DefaultTestAdapter::new());
    migrator.up(None).unwrap();
    migrator.down(Some(uuid(2))).unwrap();
    assert_eq!(migrator.adapter().log[4..].to_vec(), downs(&[4]));
    assert_eq!(migrator.adapter().applied_migrations, deps(&[uuid(1), uuid(2), uuid(3)]));
    migrator.down(Some(uuid(1))).unwrap();
    let log = migrator.adapter().log[5..].to_vec();
    assert_eq!(log.len(), 2);
    assert!(log.contains(&(MigrationDirection::Down, uuid(2))));
    assert!(log.contains(&(MigrationDirection::Down, uuid(3))));
    assert_eq!(migrator.adapter().applied_migrations, deps(&[uuid(1)]));
}

#[test]
fn down_skips_what_is_not_applied() {
    let mut adapter = DefaultTestAdapter::new();
    adapter.applied_migrations.insert(uuid(1));
    adapter.applied_migrations.insert(uuid(2));
    let mut migrator = diamond(adapter);
    migrator.down(None).unwrap();
    assert_eq!(migrator.adapter().log, downs(&[2, 1]));
}

#[test]
fn unknown_target_fails_before_the_adapter_is_asked() {
    let mut migrator = diamond(DefaultTestAdapter::new());
    let r = migrator.up(Some(uuid(77)));
    assert!(matches!(
        r,
        Err(MigratorError::Dependency(DependencyError::UnknownId(id))) if id == uuid(77)
    ));
    let r = migrator.down(Some(uuid(78)));
    assert!(matches!(
        r,
        Err(MigratorError::Dependency(DependencyError::UnknownId(id))) if id == uuid(78)
    ));
    assert_eq!(migrator.adapter().listings, 0);
    assert!(migrator.adapter().log.is_empty());
}

#[test]
fn failed_listing_is_an_adapter_error() {
    let mut adapter = DefaultTestAdapter::new();
    adapter.fail_listing = true;
    let mut migrator = diamond(adapter);
    assert!(matches!(migrator.up(None), Err(MigratorError::Adapter(DefaultTestAdapterError))));
    assert!(matches!(migrator.down(None), Err(MigratorError::Adapter(DefaultTestAdapterError))));
    assert_eq!(migrator.adapter().listings, 2);
    assert!(migrator.adapter().log.is_empty());
}

#[test]
fn failed_apply_stops_the_run_and_keeps_what_was_applied() {
    let mut adapter = DefaultTestAdapter::new();
    adapter.fail_on = Some(uuid(2));
    let mut migrator = Migrator::new(adapter);
    migrator
        .register_multiple(vec![
            TestMigration::new(uuid(1), HashSet::new()),
            TestMigration::new(uuid(2), deps(&[uuid(1)])),
            TestMigration::new(uuid(3), deps(&[uuid(2)])),
        ])
        .unwrap();
    match migrator.up(None) {
        Err(MigratorError::Migration { id, description, direction, error }) => {
            assert_eq!(id, uuid(2));
            assert_eq!(description, "Test Migration");
            assert_eq!(direction, MigrationDirection::Up);
            assert_eq!(error, DefaultTestAdapterError);
        },
        other => panic!("unexpected outcome: {:?}", other),
    }
    assert_eq!(migrator.adapter().log, ups(&[1]));
    assert_eq!(migrator.adapter().applied_migrations, deps(&[uuid(1)]));
}

#[test]
fn failed_revert_stops_the_run_and_keeps_what_was_reverted() {
    let mut adapter = DefaultTestAdapter::new();
    adapter.applied_migrations = deps(&[uuid(1), uuid(2), uuid(3)]);
    adapter.fail_on = Some(uuid(2));
    let mut migrator = Migrator::new(adapter);
    migrator
        .register_multiple(vec![
            TestMigration::new(uuid(1), HashSet::new()),
            TestMigration::new(uuid(2), deps(&[uuid(1)])),
            TestMigration::new(uuid(3), deps(&[uuid(2)])),
        ])
        .unwrap();
    match migrator.down(None) {
        Err(MigratorError::Migration { id, description, direction, error }) => {
            assert_eq!(id, uuid(2));
            assert_eq!(description, "Test Migration");
            assert_eq!(direction, MigrationDirection::Down);
            assert_eq!(error, DefaultTestAdapterError);
        },
        other => panic!("unexpected outcome: {:?}", other),
    }
    assert_eq!(migrator.adapter().log, downs(&[3]));
    assert_eq!(migrator.adapter().applied_migrations, deps(&[uuid(1), uuid(2)]));
}

#[test]
fn register_multiple_stops_at_the_first_duplicate() {
    let mut migrator = Migrator::new(DefaultTestAdapter::new());
    let r = migrator.register_multiple(vec![
        TestMigration::new(uuid(1), HashSet::new()),
        TestMigration::new(uuid(2), HashSet::new()),
        TestMigration::new(uuid(1), HashSet::new()),
        TestMigration::new(uuid(3), HashSet::new()),
    ]);
    assert!(matches!(
        r,
        Err(MigratorError::Dependency(DependencyError::DuplicateId(id))) if id == uuid(1)
    ));
    assert_eq!(migrator.len(), 2);
    assert!(migrator.register(TestMigration::new(uuid(3), HashSet::new())).is_ok());
    assert_eq!(migrator.len(), 3);
    migrator.up(None).unwrap();
    assert_eq!(migrator.adapter().applied_migrations, deps(&[uuid(1), uuid(2), uuid(3)]));
}

#[test]
fn register_multiple_of_nothing_registers_nothing() {
    let mut migrator = Migrator::new(DefaultTestAdapter::new());
    assert!(migrator.register_multiple(Vec::new()).is_ok());
    assert_eq!(migrator.len(), 0);
    migrator.up(None).unwrap();
    migrator.down(None).unwrap();
    assert!(migrator.adapter().log.is_empty());
}

#[test]
fn edges_can_be_built_again() {
    let mut migrator = diamond(DefaultTestAdapter::new());
    assert!(migrator.register_edges().is_ok());
    assert!(migrator.register_edges().is_ok());
    migrator.register(TestMigration::new(uuid(5), deps(&[uuid(4)]))).unwrap();
    assert!(migrator.register_edges().is_ok());
    migrator.up(None).unwrap();
    let log = migrator.adapter().log.clone();
    assert_eq!(log.len(), 5);
    assert_eq!(place(&log, uuid(5)), 4);
}

#[test]
fn dependency_may_be_registered_after_its_dependent() {
    let mut migrator = Migrator::new(DefaultTestAdapter::new());
    migrator.register(TestMigration::new(uuid(2), deps(&[uuid(1)]))).unwrap();
    assert!(matches!(
        migrator.up(None),
        Err(MigratorError::Dependency(DependencyError::UnknownId(id))) if id == uuid(1)
    ));
    migrator.register(TestMigration::new(uuid(1), HashSet::new())).unwrap();
    migrator.up(None).unwrap();
    assert_eq!(migrator.adapter().log, ups(&[1, 2]));
}

#[test]
fn self_dependency_is_a_cycle() {
    let mut migrator = Migrator::new(DefaultTestAdapter::new());
    migrator.register(TestMigration::new(uuid(1), deps(&[uuid(1)]))).unwrap();
    assert!(matches!(
        migrator.up(None),
        Err(MigratorError::Dependency(DependencyError::Cycle { from, to }))
            if from == uuid(1) && to == uuid(1)
    ));
}

#[test]
fn long_cycle_is_found() {
    let mut migrator = Migrator::new(DefaultTestAdapter::new());
    migrator.register(TestMigration::new(uuid(1), deps(&[uuid(3)]))).unwrap();
    migrator.register(TestMigration::new(uuid(2), deps(&[uuid(1)]))).unwrap();
    migrator.register(TestMigration::new(uuid(3), deps(&[uuid(2)]))).unwrap();
    assert!(matches!(
        migrator.down(None),
        Err(MigratorError::Dependency(DependencyError::Cycle { from, to }))
            if from == uuid(2) && to == uuid(3)
    ));
    assert_eq!(migrator.adapter().listings, 0);
}

#[test]
fn induced_stream_of_a_target() {
    let mut migrator = diamond(DefaultTestAdapter::new());
    migrator.register_edges().unwrap();
    let mut up = migrator.induced_stream(Some(uuid(2)), Direction::Incoming).unwrap();
    up.sort();
    assert_eq!(up, vec![0, 1]);
    let mut down = migrator.induced_stream(Some(uuid(2)), Direction::Outgoing).unwrap();
    down.sort();
    assert_eq!(down, vec![1, 3]);
    let mut all = migrator.induced_stream(None, Direction::Incoming).unwrap();
    all.sort();
    assert_eq!(all, vec![0, 1, 2, 3]);
    let mut all = migrator.induced_stream(None, Direction::Outgoing).unwrap();
    all.sort();
    assert_eq!(all, vec![0, 1, 2, 3]);
    assert!(matches!(
        migrator.induced_stream(Some(uuid(9)), Direction::Incoming),
        Err(DependencyError::UnknownId(id)) if id == uuid(9)
    ));
}

#[test]
fn plan_filters_the_order_by_stream_and_applied() {
    let mut migrator = diamond(DefaultTestAdapter::new());
    migrator.register_edges().unwrap();
    let applied = deps(&[uuid(1), uuid(4)]);
    let up = migrator.plan(&vec![0, 1, 3], &applied, MigrationDirection::Up);
    assert_eq!(up, vec![1]);
    let down = migrator.plan(&vec![0, 1, 3], &applied, MigrationDirection::Down);
    assert_eq!(down, vec![3, 0]);
    let none = migrator.plan(&vec![], &applied, MigrationDirection::Up);
    assert_eq!(none, Vec::<usize>::new());
}

#[test]
fn direction_is_printed_as_up_and_down() {
    assert_eq!(MigrationDirection::Up.to_string(), "up");
    assert_eq!(MigrationDirection::Down.to_string(), "Down");
}

#[test]
fn test_migration_reports_what_it_was_made_with() {
    let m = TestMigration::new(uuid(5), deps(&[uuid(1), uuid(2)]));
    assert_eq!(m.id(), uuid(5));
    assert_eq!(m.dependencies(), deps(&[uuid(1), uuid(2)]));
    assert_eq!(m.description(), "Test Migration");
}

#[test]
fn boxed_migration_is_a_migration() {
    let boxed: Box<dyn Migration<Uuid>> = Box::new(TestMigration::new(uuid(5), deps(&[uuid(1)])));
    assert_eq!(boxed.id(), uuid(5));
    assert_eq!(boxed.dependencies(), deps(&[uuid(1)]));
    assert_eq!(boxed.description(), "Test Migration");
    let counted = Rc::new(TestMigration::new(uuid(6), HashSet::new()));
    assert_eq!(Migration::id(&counted), uuid(6));
    assert_eq!(Migration::dependencies(&counted), HashSet::new());
    let shared = Arc::new(TestMigration::new(uuid(7), HashSet::new()));
    assert_eq!(Migration::id(&shared), uuid(7));
    assert_eq!(Migration::description(&shared), "Test Migration");
}

/// A small generator of numbers that gives the same run every time.
struct Numbers(u64);

impl Numbers {
    fn next(&mut self, below: usize) -> usize {
        self.0 = self.0.wrapping_mul(6364136223846793005).wrapping_add(1442695040888963407);
        ((self.0 >> 33) as usize) % below
    }
}

/// Declares, for each of `count` migrations, dependencies on some of the
/// migrations before it, and says for each pair whether the first depends on
/// the second, directly or not.
fn declarations(numbers: &mut Numbers, count: usize) -> (Vec<Vec<usize>>, Vec<Vec<bool>>) {
    let mut direct: Vec<Vec<usize>> = Vec::new();
    let mut depends = vec![vec![false; count]; count];
    for unit in 0..count {
        let mut mine = Vec::new();
        for dep in 0..unit {
            if numbers.next(3) == 0 {
                mine.push(dep);
                depends[unit][dep] = true;
                for further in 0..count {
                    if depends[dep][further] {
                        depends[unit][further] = true;
                    }
                }
            }
        }
        direct.push(mine);
    }
    (direct, depends)
}

#[test]
fn runs_touch_what_the_target_asks_for_in_dependency_order() {
    for seed in 0..40 {
        let mut numbers = Numbers(seed);
        let count = 7;
        let (direct, depends) = declarations(&mut numbers, count);
        let mut adapter = DefaultTestAdapter::new();
        for unit in 0..count {
            if numbers.next(3) == 0 {
                adapter.applied_migrations.insert(uuid(unit as u128));
            }
        }
        let before = adapter.applied_migrations.clone();
        let mut migrator = Migrator::new(adapter);
        for unit in (0..count).rev() {
            let ids: Vec<Uuid> = direct[unit].iter().map(|d| uuid(*d as u128)).collect();
            migrator.register(TestMigration::new(uuid(unit as u128), deps(&ids))).unwrap();
        }
        let target = numbers.next(count);
        let up = numbers.next(2) == 0;
        let number_of = |id: &Uuid| id.as_u128() as usize;
        if up {
            migrator.up(Some(uuid(target as u128))).unwrap();
        } else {
            migrator.down(Some(uuid(target as u128))).unwrap();
        }
        let log: Vec<usize> = migrator.adapter().log.iter().map(|(_, id)| number_of(id)).collect();
        let expected: Vec<usize> = (0..count)
            .filter(|&u| {
                let listed = before.contains(&uuid(u as u128));
                if up {
                    (u == target || depends[target][u]) && !listed
                } else {
                    depends[u][target] && listed
                }
            })
            .collect();
        let mut touched = log.clone();
        touched.sort();
        assert_eq!(touched, expected);
        for (i, &first) in log.iter().enumerate() {
            for &second in &log[i + 1..] {
                if up {
                    assert!(!depends[first][second]);
                } else {
                    assert!(!depends[second][first]);
                }
            }
        }
    }
}
