use entidb::{
    settle, CoreError, Migration, MigrationContext, MigrationManager, MigrationOperation,
    MigrationState, MigrationVersion,
};

struct TestMigration {
    version: MigrationVersion,
    name: String,
    should_fail: bool,
}

impl Migration for TestMigration {
    fn version(&self) -> MigrationVersion {
        self.version
    }

    fn name(&self) -> &str {
        &self.name
    }

    fn up(&self, ctx: &mut MigrationContext) -> Result<(), CoreError> {
        if self.should_fail {
            return Err(CoreError::migration_failed("intentional failure"));
        }
        ctx.custom("test operation");
        Ok(())
    }
}

fn make_migration(version: u64, name: &str) -> TestMigration {
    TestMigration {
        version,
        name: name.to_string(),
        should_fail: false,
    }
}

fn make_failing_migration(version: u64, name: &str) -> TestMigration {
    TestMigration {
        version,
        name: name.to_string(),
        should_fail: true,
    }
}

#[test]
fn register_and_list_migrations() {
    let mut manager = MigrationManager::new();

    manager.register(make_migration(1, "first")).unwrap();
    manager.register(make_migration(2, "second")).unwrap();

    let list = manager.list();
    assert_eq!(list.len(), 2);
    assert_eq!(list[0].version, 1);
    assert_eq!(list[0].name, "first");
    assert_eq!(list[1].version, 2);
    assert_eq!(list[1].name, "second");
}

#[test]
fn duplicate_version_rejected() {
    let mut manager = MigrationManager::new();

    manager.register(make_migration(1, "first")).unwrap();
    let result = manager.register(make_migration(1, "duplicate"));

    assert!(result.is_err());
}

#[test]
fn run_pending_migrations() {
    let mut manager = MigrationManager::new();
    let mut state = MigrationState::new();

    manager.register(make_migration(1, "first")).unwrap();
    manager.register(make_migration(2, "second")).unwrap();

    let result = manager.run_pending(&mut state).unwrap();

    assert_eq!(result.applied_count, 2);
    assert_eq!(result.failed_count, 0);
    assert_eq!(result.final_version, 2);
    assert_eq!(state.current_version, 2);
    assert!(state.is_applied(1));
    assert!(state.is_applied(2));
}

#[test]
fn pending_skips_applied() {
    let mut manager = MigrationManager::new();
    let mut state = MigrationState::new();

    manager.register(make_migration(1, "first")).unwrap();
    manager.register(make_migration(2, "second")).unwrap();

    manager.run_one(1, &mut state).unwrap();

    let pending = manager.pending(&state);
    assert_eq!(pending.len(), 1);
    assert_eq!(pending[0].version, 2);
}

#[test]
fn migration_failure_stops_execution() {
    let mut manager = MigrationManager::new();
    let mut state = MigrationState::new();

    manager.register(make_migration(1, "first")).unwrap();
    manager
        .register(make_failing_migration(2, "failing"))
        .unwrap();
    manager.register(make_migration(3, "third")).unwrap();

    let result = manager.run_pending(&mut state).unwrap();

    assert_eq!(result.applied_count, 1);
    assert_eq!(result.failed_count, 1);
    assert_eq!(result.migrations.len(), 2);
    assert!(state.is_applied(1));
    assert!(!state.is_applied(2));
    assert!(!state.is_applied(3));
}

#[test]
fn validate_sequential_versions() {
    let mut manager = MigrationManager::new();

    manager.register(make_migration(1, "first")).unwrap();
    manager.register(make_migration(2, "second")).unwrap();

    assert!(manager.validate().is_ok());
}

#[test]
fn validate_detects_gaps() {
    let mut manager = MigrationManager::new();

    manager.register(make_migration(1, "first")).unwrap();
    manager.register(make_migration(3, "third")).unwrap();

    assert!(manager.validate().is_err());
}

#[test]
fn migration_state_tracks_applied() {
    let mut state = MigrationState::new();

    assert!(!state.is_applied(1));

    state.record(1, "first", 1000);
    assert!(state.is_applied(1));
    assert_eq!(state.current_version, 1);

    state.record(2, "second", 2000);
    assert!(state.is_applied(2));
    assert_eq!(state.current_version, 2);
}

#[test]
fn migration_context_records_operations() {
    let mut ctx = MigrationContext::new(0);

    ctx.create_collection("users");
    ctx.create_index("users", "email_idx");
    ctx.custom("data transformation");

    assert_eq!(ctx.operations.len(), 3);
}

#[test]
fn empty_migration_manager() {
    let manager: MigrationManager<TestMigration> = MigrationManager::new();
    let state = MigrationState::new();

    assert!(manager.list().is_empty());
    assert!(manager.pending(&state).is_empty());
    assert!(manager.validate().is_ok());
}

#[test]
fn registration_keeps_version_order() {
    let mut manager = MigrationManager::new();
    manager.register(make_migration(3, "third")).unwrap();
    manager.register(make_migration(1, "first")).unwrap();
    manager.register(make_migration(2, "second")).unwrap();
    let versions: Vec<u64> = manager.list().iter().map(|m| m.version).collect();
    assert_eq!(versions, vec![1, 2, 3]);
    assert!(manager.validate().is_ok());
}

#[test]
fn duplicate_registration_message() {
    let mut manager = MigrationManager::new();
    manager.register(make_migration(7, "a")).unwrap();
    match manager.register(make_migration(7, "b")) {
        Err(CoreError::MigrationFailed(m)) => {
            assert_eq!(m, "migration version 7 already registered")
        }
        _ => panic!("expected a duplicate error"),
    }
    assert_eq!(manager.list().len(), 1);
    assert_eq!(manager.list()[0].name, "a");
}

#[test]
fn validate_reports_first_gap() {
    let mut manager = MigrationManager::new();
    manager.register(make_migration(1, "a")).unwrap();
    manager.register(make_migration(2, "b")).unwrap();
    manager.register(make_migration(4, "d")).unwrap();
    match manager.validate() {
        Err(CoreError::MigrationFailed(m)) => {
            assert_eq!(m, "migration version gap: expected 3, got 4")
        }
        _ => panic!("expected a gap error"),
    }
}

#[test]
fn run_one_errors() {
    let mut manager = MigrationManager::new();
    let mut state = MigrationState::new();
    manager.register(make_migration(1, "first")).unwrap();
    match manager.run_one(5, &mut state) {
        Err(CoreError::MigrationFailed(m)) => assert_eq!(m, "migration 5 not found"),
        _ => panic!("expected not found"),
    }
    let result = manager.run_one(1, &mut state).unwrap();
    assert!(result.success);
    assert_eq!(result.name, "first");
    match manager.run_one(1, &mut state) {
        Err(CoreError::MigrationFailed(m)) => assert_eq!(m, "migration 1 already applied"),
        _ => panic!("expected already applied"),
    }
    assert_eq!(state.applied.len(), 1);
}

#[test]
fn run_one_failure_leaves_state() {
    let mut manager = MigrationManager::new();
    let mut state = MigrationState::new();
    manager.register(make_failing_migration(1, "bad")).unwrap();
    let result = manager.run_one(1, &mut state).unwrap();
    assert!(!result.success);
    assert_eq!(
        result.error,
        Some("migration failed: intentional failure".to_string())
    );
    assert!(state.applied.is_empty());
    assert_eq!(state.current_version, 0);
}

#[test]
fn record_keeps_highest_version_and_ignores_repeats() {
    let mut state = MigrationState::new();
    state.record(5, "five", 10);
    state.record(3, "three", 20);
    assert_eq!(state.current_version, 5);
    state.record(5, "again", 30);
    assert_eq!(state.applied.len(), 2);
    assert_eq!(state.applied[0].name, "five");
    assert_eq!(state.applied[1].applied_at, 20);
}

#[test]
fn settle_records_only_success() {
    let mut state = MigrationState::new();
    let ok = settle(1, "one", Ok(()), &mut state, 42);
    assert!(ok.success);
    assert_eq!(state.applied[0].applied_at, 42);
    let failed = settle(2, "two", Err(CoreError::invalid_argument("x")), &mut state, 43);
    assert!(!failed.success);
    assert_eq!(failed.error, Some("invalid argument: x".to_string()));
    assert_eq!(state.applied.len(), 1);
}

#[test]
fn context_logs_each_kind() {
    let mut ctx = MigrationContext::new(4);
    ctx.drop_collection("old");
    ctx.drop_index("users", "idx");
    assert_eq!(ctx.current_version, 4);
    assert!(matches!(&ctx.operations[0], MigrationOperation::DropCollection { name } if name == "old"));
    assert!(matches!(&ctx.operations[1], MigrationOperation::DropIndex { collection, index_name } if collection == "users" && index_name == "idx"));
}
