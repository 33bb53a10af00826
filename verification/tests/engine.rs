//! End-to-end behaviour of the migration engine against the session model.

use aragog_cli::config::Config;
use aragog_cli::database::{CollectionState, DatabaseState, VersionedDatabase};
use aragog_cli::error::{LedgerError, MigrationError, SchemaError};
use aragog_cli::manager::MigrationManager;
use aragog_cli::migration::Migration;
use aragog_cli::operation::{IndexId, IndexKind, Operation};
use aragog_cli::{migrate, MigrationDirection};

fn fresh_db() -> VersionedDatabase {
    VersionedDatabase {
        state: DatabaseState::empty(),
        ledger: Vec::new(),
        ledger_collection: "AragogConfiguration".to_string(),
        clock: 7,
        op_log: Vec::new(),
    }
}

fn mig(version: u64, name: &str, up: Vec<Operation>, down: Vec<Operation>) -> Migration {
    Migration {
        version,
        name: name.as_bytes().to_vec(),
        up_operations: up,
        down_operations: down,
    }
}

fn create(name: &str) -> Operation {
    Operation::CreateCollection { name: name.as_bytes().to_vec() }
}

fn drop_coll(name: &str) -> Operation {
    Operation::DropCollection { name: name.as_bytes().to_vec() }
}

fn email_index(_collection: &str) -> (Vec<Vec<u8>>, IndexKind) {
    (vec![b"email".to_vec()], IndexKind::Hash)
}

fn scenario_manager() -> MigrationManager {
    let (fields, kind) = email_index("Users");
    let m1 = mig(1, "create_users", vec![create("Users")], vec![drop_coll("Users")]);
    let m2 = mig(
        2,
        "index_users_email",
        vec![Operation::CreateIndex {
            collection: b"Users".to_vec(),
            fields: fields.clone(),
            index_kind: kind,
        }],
        vec![Operation::DropIndex {
            collection: b"Users".to_vec(),
            index_id: IndexId { fields, kind },
        }],
    );
    let m3 = mig(3, "create_posts", vec![create("Posts")], vec![drop_coll("Posts")]);
    MigrationManager::from_migrations(vec![m3, m1, m2]).unwrap()
}

#[test]
fn up_from_empty_applies_everything_in_order() {
    let manager = scenario_manager();
    let mut db = fresh_db();
    let applied = manager.migrations_up(&mut db).unwrap();
    assert_eq!(applied, 3);
    assert!(db.is_applied(1));
    assert!(db.is_applied(2));
    assert!(db.is_applied(3));
    assert!(!db.is_applied(4));
    let (fields, kind) = email_index("Users");
    assert_eq!(
        db.op_log,
        vec![
            create("Users"),
            Operation::CreateIndex { collection: b"Users".to_vec(), fields, index_kind: kind },
            create("Posts"),
        ]
    );
}

#[test]
fn up_twice_performs_no_further_operation_calls() {
    let manager = scenario_manager();
    let mut db = fresh_db();
    manager.migrations_up(&mut db).unwrap();
    let log_before = db.op_log.clone();
    let ledger_before = db.ledger.len();
    let applied_again = manager.migrations_up(&mut db).unwrap();
    assert_eq!(applied_again, 0);
    assert_eq!(db.op_log, log_before);
    assert_eq!(db.ledger.len(), ledger_before);
}

#[test]
fn full_rollback_empties_ledger_and_restores_schema() {
    let manager = scenario_manager();
    let mut db = fresh_db();
    manager.migrations_up(&mut db).unwrap();
    let rolled = manager.migrations_down(3, &mut db).unwrap();
    assert_eq!(rolled, 3);
    assert!(db.ledger.is_empty());
    assert!(db.accessible_collections().is_empty());
}

#[test]
fn rollback_count_is_clamped_to_applied() {
    let manager = scenario_manager();
    let mut db = fresh_db();
    manager.migrations_up(&mut db).unwrap();
    let rolled = manager.migrations_down(100, &mut db).unwrap();
    assert_eq!(rolled, 3);
    assert!(db.ledger.is_empty());
    let rolled_again = manager.migrations_down(5, &mut db).unwrap();
    assert_eq!(rolled_again, 0);
}

#[test]
fn scenario_one_step_rollback_drops_only_the_index() {
    let manager = scenario_manager();
    let mut db = fresh_db();
    manager.migrations_up(&mut db).unwrap();
    let calls_before = db.op_log.len();
    let rolled = manager.migrations_down(1, &mut db).unwrap();
    assert_eq!(rolled, 1);
    assert!(db.is_applied(1));
    assert!(db.is_applied(2));
    assert!(!db.is_applied(3));
    assert_eq!(db.op_log.len(), calls_before + 1);
    assert_eq!(db.op_log[calls_before], drop_coll("Posts"));

    let rolled = manager.migrations_down(1, &mut db).unwrap();
    assert_eq!(rolled, 1);
    assert!(db.is_applied(1));
    assert!(!db.is_applied(2));
    let (fields, kind) = email_index("Users");
    assert_eq!(
        db.op_log[calls_before + 1],
        Operation::DropIndex {
            collection: b"Users".to_vec(),
            index_id: IndexId { fields, kind },
        }
    );
}

#[test]
fn duplicate_versions_are_refused() {
    let a = mig(5, "one", vec![create("A")], vec![drop_coll("A")]);
    let b = mig(5, "two", vec![create("B")], vec![drop_coll("B")]);
    match MigrationManager::from_migrations(vec![a, b]) {
        Err(aragog_cli::error::DiscoveryError::DuplicateVersion { version }) => {
            assert_eq!(version, 5);
        }
        other => panic!("expected a duplicate version error, got {:?}", other),
    }
}

#[test]
fn partial_failure_keeps_prefix_and_retry_resumes() {
    let m1 = mig(1, "a", vec![create("A")], vec![drop_coll("A")]);
    let m2 = mig(2, "a_again", vec![create("A")], vec![drop_coll("A")]);
    let m3 = mig(3, "c", vec![create("C")], vec![drop_coll("C")]);
    let manager = MigrationManager::from_migrations(vec![m1, m2, m3]).unwrap();
    let mut db = fresh_db();
    match manager.migrations_up(&mut db) {
        Err(MigrationError::Schema { error: SchemaError::AlreadyExists { name } }) => {
            assert_eq!(name, b"A".to_vec());
        }
        other => panic!("expected the second migration to fail, got {:?}", other),
    }
    assert!(db.is_applied(1));
    assert!(!db.is_applied(2));
    assert!(!db.is_applied(3));
    assert_eq!(db.op_log.len(), 2);

    // The operator clears the conflicting collection, then re-runs: the
    // first migration is not re-applied.
    db.drop_collection(&b"A".to_vec()).unwrap();
    let calls_before = db.op_log.len();
    let applied = manager.migrations_up(&mut db).unwrap();
    assert_eq!(applied, 2);
    assert!(db.is_applied(2));
    assert!(db.is_applied(3));
    assert_eq!(db.op_log.len(), calls_before + 2);
}

#[test]
fn execute_reports_typed_failures_and_logs_every_call() {
    let mut db = fresh_db();
    assert!(db.execute(&create("A")).is_ok());
    assert_eq!(
        db.execute(&create("A")),
        Err(SchemaError::AlreadyExists { name: b"A".to_vec() })
    );
    assert_eq!(
        db.execute(&drop_coll("B")),
        Err(SchemaError::NotFound { name: b"B".to_vec() })
    );
    assert_eq!(db.op_log.len(), 3);
}

#[test]
fn edge_collections_are_their_own_kind() {
    let mut db = fresh_db();
    db.execute(&Operation::CreateEdgeCollection { name: b"Knows".to_vec() }).unwrap();
    // A plain drop does not name the edge collection.
    assert_eq!(
        db.execute(&drop_coll("Knows")),
        Err(SchemaError::NotFound { name: b"Knows".to_vec() })
    );
    db.execute(&Operation::DropEdgeCollection { name: b"Knows".to_vec() }).unwrap();
    assert!(db.accessible_collections().is_empty());
}

#[test]
fn ledger_refuses_duplicate_and_missing_versions() {
    let mut db = fresh_db();
    assert!(db.record_applied(9, &b"nine".to_vec()).is_ok());
    assert_eq!(
        db.record_applied(9, &b"nine".to_vec()),
        Err(LedgerError::DuplicateVersion { version: 9 })
    );
    assert!(db.remove_applied(9).is_ok());
    assert_eq!(db.remove_applied(9), Err(LedgerError::MissingVersion { version: 9 }));
}

#[test]
fn ledger_entry_records_the_session_clock() {
    let mut db = fresh_db();
    db.record_applied(4, &b"four".to_vec()).unwrap();
    assert_eq!(db.ledger.len(), 1);
    assert_eq!(db.ledger[0].version, 4);
    assert_eq!(db.ledger[0].name, b"four".to_vec());
    assert_eq!(db.ledger[0].applied_at, 7);
}

#[test]
fn truncate_keeps_system_collections_and_the_ledger() {
    let mut db = fresh_db();
    db.state.collections.push(CollectionState {
        name: b"_system_thing".to_vec(),
        is_edge: false,
        is_system: true,
        indexes: Vec::new(),
    });
    db.execute(&create("UserData")).unwrap();
    db.record_applied(1, &b"one".to_vec()).unwrap();
    db.truncate();
    let infos = db.accessible_collections();
    assert_eq!(infos.len(), 1);
    assert_eq!(infos[0].name, b"_system_thing".to_vec());
    assert!(infos[0].is_system);
    assert_eq!(db.ledger.len(), 1);
}

#[test]
fn migrate_drives_both_directions() {
    let mut db = fresh_db();
    migrate(MigrationDirection::Up, &mut db, scenario_manager()).unwrap();
    assert_eq!(db.ledger.len(), 3);
    migrate(MigrationDirection::Down(2), &mut db, scenario_manager()).unwrap();
    assert_eq!(db.ledger.len(), 1);
    assert!(db.is_applied(1));
}

#[test]
fn init_opens_an_empty_session_under_the_configured_ledger_name() {
    let config = Config::assemble(
        Some("MigrationLedger".to_string()),
        Some("./schemas".to_string()),
        Some("http://localhost:8529".to_string()),
        Some("db".to_string()),
        Some("user".to_string()),
        Some("pwd".to_string()),
    )
    .unwrap();
    let db = VersionedDatabase::init(&config);
    assert_eq!(db.ledger_collection, "MigrationLedger".to_string());
    assert!(db.ledger.is_empty());
    assert!(db.op_log.is_empty());
    assert!(db.accessible_collections().is_empty());
}

#[test]
fn inverse_swaps_create_and_drop_and_is_an_involution() {
    let ops = vec![
        create("A"),
        drop_coll("A"),
        Operation::CreateEdgeCollection { name: b"E".to_vec() },
        Operation::DropEdgeCollection { name: b"E".to_vec() },
        Operation::CreateIndex {
            collection: b"C".to_vec(),
            fields: vec![b"x".to_vec(), b"y".to_vec()],
            index_kind: IndexKind::Persistent,
        },
        Operation::DropIndex {
            collection: b"C".to_vec(),
            index_id: IndexId {
                fields: vec![b"x".to_vec(), b"y".to_vec()],
                kind: IndexKind::Persistent,
            },
        },
    ];
    for op in &ops {
        assert_eq!(&op.inverse().inverse(), op);
    }
    assert_eq!(ops[0].inverse(), ops[1]);
    assert_eq!(ops[4].inverse(), ops[5]);
}

#[test]
fn a_failing_operation_leaves_its_migration_half_applied() {
    // Failure inside one migration's list is not compensated: the operations
    // before the failing one stay applied, the ones after are never tried.
    let m = mig(
        1,
        "half",
        vec![create("A"), create("A"), create("C")],
        vec![drop_coll("C"), drop_coll("A")],
    );
    let mut db = fresh_db();
    match m.apply_up(&mut db) {
        Err(MigrationError::Schema { error: SchemaError::AlreadyExists { name } }) => {
            assert_eq!(name, b"A".to_vec());
        }
        other => panic!("expected the duplicate create to fail, got {:?}", other),
    }
    let names: Vec<Vec<u8>> = db.accessible_collections().into_iter().map(|c| c.name).collect();
    assert_eq!(names, vec![b"A".to_vec()]);
    assert_eq!(db.op_log.len(), 2);
}

#[test]
fn apply_executes_one_operation_through_the_session() {
    let mut db = fresh_db();
    create("A").apply(&mut db).unwrap();
    assert_eq!(
        create("A").apply(&mut db),
        Err(SchemaError::AlreadyExists { name: b"A".to_vec() })
    );
    assert_eq!(db.op_log.len(), 2);
}

#[test]
fn unreachable_error_kinds_still_carry_their_data() {
    let lost = SchemaError::ConnectionLost;
    let store = SchemaError::StoreError { message: b"boom".to_vec() };
    assert_ne!(lost, store);
    let wrapped = MigrationError::Ledger { error: LedgerError::MissingVersion { version: 2 } };
    assert_eq!(
        wrapped,
        MigrationError::Ledger { error: LedgerError::MissingVersion { version: 2 } }
    );
}
