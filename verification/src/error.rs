//! The error taxonomy of the engine.
//!
//! Discovery, parsing, schema execution and ledger bookkeeping each fail with
//! their own kind, so a caller can tell a broken migration file from a broken
//! schema state from broken ledger bookkeeping.

use vstd::prelude::*;

verus! {

/// Failure of a single schema operation against the store.
#[derive(Clone, Debug, PartialEq, Eq)]
pub enum SchemaError {
    /// A create operation found its target already present. For an index,
    /// `name` is the owning collection.
    AlreadyExists { name: Vec<u8> },
    /// A drop operation found its target absent. For an index, `name` is the
    /// owning collection.
    NotFound { name: Vec<u8> },
    /// The session to the store was lost mid-run.
    ConnectionLost,
    /// Any other store-side failure, with the store's message.
    StoreError { message: Vec<u8> },
}

/// Mathematical value of a [`SchemaError`].
pub enum SchemaErrorModel {
    AlreadyExists { name: Seq<u8> },
    NotFound { name: Seq<u8> },
    ConnectionLost,
    StoreError { message: Seq<u8> },
}

impl View for SchemaError {
    type V = SchemaErrorModel;

    open spec fn view(&self) -> SchemaErrorModel {
        match self {
            SchemaError::AlreadyExists { name } => SchemaErrorModel::AlreadyExists { name: name@ },
            SchemaError::NotFound { name } => SchemaErrorModel::NotFound { name: name@ },
            SchemaError::ConnectionLost => SchemaErrorModel::ConnectionLost,
            SchemaError::StoreError { message } => SchemaErrorModel::StoreError {
                message: message@,
            },
        }
    }
}

/// Failure of a ledger update. Both variants are defensive: under the
/// manager's own discipline neither can be reached, but the ledger checks
/// rather than assumes.
#[derive(Clone, Copy, Debug, PartialEq, Eq, Structural)]
pub enum LedgerError {
    /// `record_applied` found an entry for the version already present.
    DuplicateVersion { version: u64 },
    /// `remove_applied` found no entry for the version.
    MissingVersion { version: u64 },
}

/// Failure to parse a single migration definition.
#[derive(Clone, Copy, Debug, PartialEq, Eq, Structural)]
pub enum ParseError {
    /// The version line is not a canonical decimal `u64`.
    MalformedVersion,
    /// The migration name is empty or holds a byte outside the label set.
    MalformedName,
    /// An operation-count line is not a canonical decimal number.
    MalformedCount,
    /// An operation line carries an unknown operation or index kind tag.
    UnknownOperationKind,
    /// An operation line has the wrong shape for its kind.
    MalformedOperation,
    /// Bytes remain after the last announced operation line.
    TrailingContent,
}

/// Failure of migration discovery, before any database contact.
#[derive(Debug)]
pub enum DiscoveryError {
    /// The definitions that did not parse, each with its position in the
    /// input order. Every malformed definition is reported, none skipped.
    Malformed { failures: Vec<(usize, ParseError)> },
    /// Two migration definitions share this version.
    DuplicateVersion { version: u64 },
}

/// Failure of a migration run: either a schema operation failed, or a ledger
/// update did.
#[derive(Clone, Debug, PartialEq, Eq)]
pub enum MigrationError {
    Schema { error: SchemaError },
    Ledger { error: LedgerError },
}

/// Mathematical value of a [`MigrationError`].
pub enum MigrationErrorModel {
    Schema { error: SchemaErrorModel },
    Ledger { error: LedgerError },
}

impl View for MigrationError {
    type V = MigrationErrorModel;

    open spec fn view(&self) -> MigrationErrorModel {
        match self {
            MigrationError::Schema { error } => MigrationErrorModel::Schema { error: error@ },
            MigrationError::Ledger { error } => MigrationErrorModel::Ledger { error: *error },
        }
    }
}

/// Failure to assemble a configuration: a required value was given neither
/// explicitly nor by the environment.
#[derive(Clone, Debug, PartialEq, Eq)]
pub enum ConfigError {
    Missing { item: String },
}

} // verus!
