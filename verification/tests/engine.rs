use std::cell::RefCell;

use schema_migrate::descriptor::get_migrations;
use schema_migrate::descriptor::MigrationDescriptor;
use schema_migrate::descriptor::MigrationKind;
use schema_migrate::registry::MigrationRegistry;
use schema_migrate::registry::ValidationError;
use schema_migrate::runner::run;
use schema_migrate::runner::RunResult;
use schema_migrate::store::StoreError;
use schema_migrate::store::VersionStore;

fn desc(version: u64, body: &str) -> MigrationDescriptor {
    MigrationDescriptor {
        version,
        description: format!("migration_{}", version),
        kind: MigrationKind::Up,
        body: body.to_string(),
    }
}

#[test]
fn fresh_store_applies_all_in_ascending_order() {
    // Descriptors supplied out of order; the registry sorts them.
    let reg = MigrationRegistry::build(vec![
        desc(30, "c"),
        desc(10, "a"),
        desc(20, "b"),
    ])
    .unwrap();
    let mut store = VersionStore::new();
    let r = run(&reg, &mut store, |_v: u64, _body: String| Ok(()));
    assert_eq!(r, RunResult::Applied(vec![10, 20, 30]));
    assert_eq!(store.applied_versions(), &vec![10, 20, 30]);
    assert_eq!(store.count(), 3);
}

#[test]
fn second_run_is_noop_and_writes_nothing() {
    let reg = MigrationRegistry::build(vec![desc(1, "a"), desc(2, "b")]).unwrap();
    let mut store = VersionStore::new();
    let calls = RefCell::new(0u32);
    let exec = |_v: u64, _body: String| {
        *calls.borrow_mut() += 1;
        Ok(())
    };
    let first = run(&reg, &mut store, exec);
    assert_eq!(first, RunResult::Applied(vec![1, 2]));
    assert_eq!(*calls.borrow(), 2);
    let rows_after_first = store.count();
    let second = run(&reg, &mut store, exec);
    assert_eq!(second, RunResult::NoOp);
    assert_eq!(*calls.borrow(), 2, "no body may run twice");
    assert_eq!(store.count(), rows_after_first, "no extra rows on the second run");
}

#[test]
fn failed_body_leaves_its_version_and_later_ones_unrecorded() {
    let reg =
        MigrationRegistry::build(vec![desc(1, "a"), desc(2, "b"), desc(3, "c")]).unwrap();
    let mut store = VersionStore::new();
    let effects = RefCell::new(Vec::<u64>::new());
    let r = run(&reg, &mut store, |v: u64, _body: String| {
        if v == 2 {
            Err("syntax error".to_string())
        } else {
            effects.borrow_mut().push(v);
            Ok(())
        }
    });
    assert_eq!(r, RunResult::Failed(2, "syntax error".to_string()));
    assert_eq!(store.applied_versions(), &vec![1]);
    assert!(!store.contains(2));
    assert!(!store.contains(3));
    // None of version 2's effects are observable, and 3 never ran.
    assert_eq!(*effects.borrow(), vec![1]);
}

#[test]
fn fixed_run_resumes_at_the_failed_version() {
    let reg =
        MigrationRegistry::build(vec![desc(1, "a"), desc(2, "b"), desc(3, "c")]).unwrap();
    let mut store = VersionStore::new();
    let executed = RefCell::new(Vec::<u64>::new());
    let broken = |v: u64, _body: String| {
        if v == 2 {
            Err("boom".to_string())
        } else {
            Ok(())
        }
    };
    assert_eq!(run(&reg, &mut store, broken), RunResult::Failed(2, "boom".to_string()));
    // The cause is fixed; the next run resumes exactly at version 2.
    let fixed = |v: u64, _body: String| {
        executed.borrow_mut().push(v);
        Ok(())
    };
    let r = run(&reg, &mut store, fixed);
    assert_eq!(r, RunResult::Applied(vec![2, 3]));
    assert_eq!(*executed.borrow(), vec![2, 3], "version 1 is not re-executed");
    assert_eq!(store.applied_versions(), &vec![1, 2, 3]);
}

#[test]
fn duplicate_version_fails_the_build() {
    let r = MigrationRegistry::build(vec![desc(3, "a"), desc(1, "b"), desc(3, "c")]);
    assert_eq!(r.err(), Some(ValidationError::DuplicateVersion(3)));
}

#[test]
fn zero_version_fails_the_build() {
    let r = MigrationRegistry::build(vec![desc(1, "a"), desc(0, "b")]);
    assert_eq!(r.err(), Some(ValidationError::InvalidVersion(0)));
}

#[test]
fn earlier_defect_wins() {
    // The invalid version stands before the duplicate, so it is reported.
    let r = MigrationRegistry::build(vec![desc(2, "a"), desc(0, "b"), desc(2, "c")]);
    assert_eq!(r.err(), Some(ValidationError::InvalidVersion(0)));
}

#[test]
fn example_scenario_two_migrations() {
    let reg = MigrationRegistry::build(vec![
        desc(1, "create table t(x)"),
        desc(2, "insert into t values(1)"),
    ])
    .unwrap();
    let mut store = VersionStore::new();
    // A toy database: a log of executed statements and a row count for t.
    let statements = RefCell::new(Vec::<String>::new());
    let rows_in_t = RefCell::new(0u32);
    let r = run(&reg, &mut store, |_v: u64, body: String| {
        if body.starts_with("insert into t") {
            *rows_in_t.borrow_mut() += 1;
        }
        statements.borrow_mut().push(body);
        Ok(())
    });
    assert_eq!(r, RunResult::Applied(vec![1, 2]));
    assert_eq!(store.applied_versions(), &vec![1, 2]);
    assert_eq!(
        *statements.borrow(),
        vec!["create table t(x)".to_string(), "insert into t values(1)".to_string()]
    );
    assert_eq!(*rows_in_t.borrow(), 1);
}

#[test]
fn empty_registry_is_a_noop() {
    let reg = MigrationRegistry::build(Vec::new()).unwrap();
    let mut store = VersionStore::new();
    assert_eq!(run(&reg, &mut store, |_v: u64, _body: String| Ok(())), RunResult::NoOp);
    assert_eq!(store.count(), 0);
}

#[test]
fn partially_applied_store_gets_only_the_pending_versions() {
    let reg =
        MigrationRegistry::build(vec![desc(1, "a"), desc(2, "b"), desc(4, "d")]).unwrap();
    let mut store = VersionStore::from_rows(vec![2]).unwrap();
    let r = run(&reg, &mut store, |_v: u64, _body: String| Ok(()));
    assert_eq!(r, RunResult::Applied(vec![1, 4]));
    assert_eq!(store.applied_versions(), &vec![2, 1, 4]);
}

#[test]
fn ordered_and_latest_reflect_the_sorted_registry() {
    let reg = MigrationRegistry::build(vec![desc(7, "c"), desc(2, "a"), desc(5, "b")]).unwrap();
    let versions: Vec<u64> = reg.ordered().iter().map(|d| d.version).collect();
    assert_eq!(versions, vec![2, 5, 7]);
    assert_eq!(reg.len(), 3);
    assert_eq!(reg.latest(), Some(7));
    let empty = MigrationRegistry::build(Vec::new()).unwrap();
    assert_eq!(empty.latest(), None);
    assert_eq!(empty.len(), 0);
}

#[test]
fn store_rejects_a_repeated_row() {
    assert_eq!(
        VersionStore::from_rows(vec![1, 2, 1]).err(),
        Some(StoreError::DuplicateVersion(1))
    );
    let mut store = VersionStore::from_rows(vec![1, 2]).unwrap();
    assert_eq!(store.record_applied(2), Err(StoreError::DuplicateVersion(2)));
    assert_eq!(store.applied_versions(), &vec![1, 2]);
    assert_eq!(store.record_applied(3), Ok(()));
    assert_eq!(store.applied_versions(), &vec![1, 2, 3]);
}

#[test]
fn shipped_migrations_are_the_initial_pair() {
    let migrations = get_migrations();
    assert_eq!(migrations.len(), 2);
    assert_eq!(migrations[0].version, 1);
    assert_eq!(migrations[0].description, "create_initial_tables");
    assert!(matches!(migrations[0].kind, MigrationKind::Up));
    assert_eq!(migrations[1].version, 2);
    assert_eq!(migrations[1].description, "create_initial_data");
    assert!(matches!(migrations[1].kind, MigrationKind::Up));
    let reg = MigrationRegistry::build(migrations).unwrap();
    assert_eq!(reg.latest(), Some(2));
}
