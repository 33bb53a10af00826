//! The migration definition format: rendering, loading, discovery.

use aragog_cli::codec::{parse, render};
use aragog_cli::error::{DiscoveryError, ParseError};
use aragog_cli::manager::MigrationManager;
use aragog_cli::migration::Migration;
use aragog_cli::operation::{IndexId, IndexKind, Operation};

fn sample() -> Migration {
    Migration {
        version: 20210519,
        name: b"create_users".to_vec(),
        up_operations: vec![
            Operation::CreateCollection { name: b"Users".to_vec() },
            Operation::CreateIndex {
                collection: b"Users".to_vec(),
                fields: vec![b"email".to_vec(), b"login".to_vec()],
                index_kind: IndexKind::Persistent,
            },
        ],
        down_operations: vec![
            Operation::DropIndex {
                collection: b"Users".to_vec(),
                index_id: IndexId {
                    fields: vec![b"email".to_vec(), b"login".to_vec()],
                    kind: IndexKind::Persistent,
                },
            },
            Operation::DropCollection { name: b"Users".to_vec() },
        ],
    }
}

#[test]
fn render_writes_the_documented_form() {
    let text = render(&sample());
    let expected = b"20210519\n\
                     create_users\n\
                     2\n\
                     1 Users\n\
                     5 Users 2 email login\n\
                     2\n\
                     6 Users 2 email login\n\
                     2 Users\n";
    assert_eq!(text, expected.to_vec());
}

#[test]
fn parse_reads_back_what_render_wrote() {
    let m = sample();
    let parsed = parse(&render(&m)).unwrap();
    assert_eq!(parsed.version, m.version);
    assert_eq!(parsed.name, m.name);
    assert_eq!(parsed.up_operations, m.up_operations);
    assert_eq!(parsed.down_operations, m.down_operations);
}

#[test]
fn parse_round_trips_every_operation_kind() {
    let m = Migration {
        version: 0,
        name: b"all-kinds.v1".to_vec(),
        up_operations: vec![
            Operation::CreateCollection { name: b"A".to_vec() },
            Operation::DropCollection { name: b"A".to_vec() },
            Operation::CreateEdgeCollection { name: b"E".to_vec() },
            Operation::DropEdgeCollection { name: b"E".to_vec() },
            Operation::CreateIndex {
                collection: b"A".to_vec(),
                fields: vec![b"f".to_vec()],
                index_kind: IndexKind::Ttl,
            },
            Operation::DropIndex {
                collection: b"A".to_vec(),
                index_id: IndexId { fields: vec![b"f".to_vec()], kind: IndexKind::Ttl },
            },
        ],
        down_operations: vec![],
    };
    let parsed = Migration::load(&render(&m)).unwrap();
    assert_eq!(parsed.up_operations, m.up_operations);
    assert!(parsed.down_operations.is_empty());
}

#[test]
fn parse_rejects_malformed_versions() {
    assert_eq!(parse(b"x\nname\n0\n0\n"), Err(ParseError::MalformedVersion));
    assert_eq!(parse(b"007\nname\n0\n0\n"), Err(ParseError::MalformedVersion));
    assert_eq!(parse(b""), Err(ParseError::MalformedVersion));
}

#[test]
fn parse_rejects_malformed_names() {
    assert_eq!(parse(b"1\n\n0\n0\n"), Err(ParseError::MalformedName));
    assert_eq!(parse(b"1\nbad name\n0\n0\n"), Err(ParseError::MalformedName));
}

#[test]
fn parse_rejects_malformed_counts() {
    assert_eq!(parse(b"1\nname\nx\n0\n"), Err(ParseError::MalformedCount));
    assert_eq!(parse(b"1\nname\n0\n"), Err(ParseError::MalformedCount));
}

#[test]
fn parse_rejects_unknown_operation_kinds() {
    assert_eq!(parse(b"1\nname\n1\n9 Users\n0\n"), Err(ParseError::UnknownOperationKind));
    assert_eq!(parse(b"1\nname\n1\n5 Users 7 f\n0\n"), Err(ParseError::UnknownOperationKind));
}

#[test]
fn parse_rejects_malformed_operations() {
    assert_eq!(parse(b"1\nname\n1\n1\n0\n"), Err(ParseError::MalformedOperation));
    assert_eq!(parse(b"1\nname\n1\n1 \n0\n"), Err(ParseError::MalformedOperation));
    assert_eq!(parse(b"1\nname\n2\n1 Users\n0\n"), Err(ParseError::MalformedOperation));
}

#[test]
fn parse_rejects_trailing_content() {
    assert_eq!(parse(b"1\nname\n0\n0\nextra\n"), Err(ParseError::TrailingContent));
}

#[test]
fn discovery_loads_sorts_and_reports() {
    let m1 = Migration {
        version: 2,
        name: b"later".to_vec(),
        up_operations: vec![Operation::CreateCollection { name: b"B".to_vec() }],
        down_operations: vec![Operation::DropCollection { name: b"B".to_vec() }],
    };
    let m2 = Migration {
        version: 1,
        name: b"earlier".to_vec(),
        up_operations: vec![Operation::CreateCollection { name: b"A".to_vec() }],
        down_operations: vec![Operation::DropCollection { name: b"A".to_vec() }],
    };
    let defs = vec![render(&m1), render(&m2)];
    let manager = MigrationManager::new(&defs).unwrap();
    assert_eq!(manager.migrations.len(), 2);
    assert_eq!(manager.migrations[0].version, 1);
    assert_eq!(manager.migrations[1].version, 2);

    let defs = vec![render(&m1), b"broken".to_vec(), b"1\nbad name\n0\n0\n".to_vec()];
    match MigrationManager::new(&defs) {
        Err(DiscoveryError::Malformed { failures }) => {
            assert_eq!(
                failures,
                vec![(1, ParseError::MalformedVersion), (2, ParseError::MalformedName)]
            );
        }
        other => panic!("expected malformed definitions to be reported, got {:?}", other),
    }

    let defs = vec![render(&m1), render(&m1)];
    match MigrationManager::new(&defs) {
        Err(DiscoveryError::DuplicateVersion { version }) => assert_eq!(version, 2),
        other => panic!("expected a duplicate version, got {:?}", other),
    }
}
