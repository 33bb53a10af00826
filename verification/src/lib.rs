//! A schema-migration engine for a document database.
//!
//! The library tracks which schema-changing operations have been applied to a
//! database, applies pending migrations in ascending version order, and can
//! reverse the most recently applied ones. Schema state and the persisted
//! ledger are modelled as plain in-memory values, so every decision the engine
//! makes — ordering, idempotence, ledger consistency under partial failure —
//! is stated in contracts and proved. The surrounding process (command-line
//! handling, the live database driver) stays outside the library and drives it
//! with plain values.

#![verifier::loop_isolation(false)]

pub mod codec;
pub mod config;
pub mod database;
pub mod error;
pub mod laws;
pub mod manager;
pub mod migration;
pub mod operation;
pub mod store;

use vstd::prelude::*;
use crate::database::{DbModel, VersionedDatabase};
use crate::error::{MigrationError, SchemaErrorModel};
use crate::manager::{run_down, run_up, MigrationManager};
use crate::migration::MigrationModel;

verus! {

/// The direction a migration run takes: apply every pending migration, or
/// roll back the given number of most recently applied ones.
#[derive(Debug)]
pub enum MigrationDirection {
    Up,
    Down(usize),
}

/// The model run a direction stands for.
pub open spec fn directed_run(
    direction: MigrationDirection,
    db: DbModel,
    migs: Seq<MigrationModel>,
) -> (DbModel, Result<int, SchemaErrorModel>) {
    match direction {
        MigrationDirection::Up => run_up(db, migs),
        MigrationDirection::Down(count) => run_down(db, migs, count as int),
    }
}

/// Whether a unit run result stands for the model run result.
pub open spec fn directed_res_matches(
    r: Result<(), MigrationError>,
    m: Result<int, SchemaErrorModel>,
) -> bool {
    match r {
        Ok(_) => m is Ok,
        Err(MigrationError::Schema { error }) => m matches Err(me) && error@ == me,
        Err(MigrationError::Ledger { error }) => false,
    }
}

/// Drives the manager in the given direction against the session: all
/// pending migrations up, or the requested number of applied ones down.
pub fn migrate(
    direction: MigrationDirection,
    db: &mut VersionedDatabase,
    manager: MigrationManager,
) -> (r: Result<(), MigrationError>)
    requires
        old(db).wf(),
        manager.wf(),
    ensures
        final(db).wf(),
        final(db)@ == directed_run(direction, old(db)@, manager.migs()).0,
        directed_res_matches(r, directed_run(direction, old(db)@, manager.migs()).1),
{
    match direction {
        MigrationDirection::Up => {
            match manager.migrations_up(db) {
                Ok(_) => Ok(()),
                Err(e) => Err(e),
            }
        },
        MigrationDirection::Down(count) => {
            match manager.migrations_down(count, db) {
                Ok(_) => Ok(()),
                Err(e) => Err(e),
            }
        },
    }
}

} // verus!
