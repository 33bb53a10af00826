//! A migration: a named, versioned bundle of forward and reverse operations.
//!
//! The forward list is applied in listed order; the reverse list is authored
//! independently (reverse order with inverse operations is the convention)
//! and applied in listed order too. Both runs stop at the first failing
//! operation and compensate nothing within the bundle: a half-applied bundle
//! is left as the store shows it, for the operator to inspect.

use vstd::prelude::*;
use crate::database::{run_ops, ops_of, VersionedDatabase};
use crate::error::{MigrationError, SchemaErrorModel};
use crate::operation::{OpModel, Operation};

verus! {

/// An ordered, named, versioned unit of reversible schema change.
#[derive(Debug, PartialEq, Eq)]
pub struct Migration {
    pub version: u64,
    pub name: Vec<u8>,
    pub up_operations: Vec<Operation>,
    pub down_operations: Vec<Operation>,
}

/// Mathematical value of a [`Migration`].
pub struct MigrationModel {
    pub version: u64,
    pub name: Seq<u8>,
    pub up: Seq<OpModel>,
    pub down: Seq<OpModel>,
}

impl View for Migration {
    type V = MigrationModel;

    open spec fn view(&self) -> MigrationModel {
        MigrationModel {
            version: self.version,
            name: self.name@,
            up: ops_of(self.up_operations@),
            down: ops_of(self.down_operations@),
        }
    }
}

/// Whether an executable migration result stands for the model result of an
/// operation run. A ledger failure never stands for one: operation runs do
/// not touch the ledger.
pub open spec fn mig_res_matches(
    r: Result<(), MigrationError>,
    m: Result<(), SchemaErrorModel>,
) -> bool {
    match r {
        Ok(_) => m is Ok,
        Err(MigrationError::Schema { error }) => m matches Err(me) && error@ == me,
        Err(MigrationError::Ledger { error }) => false,
    }
}

impl Migration {
    /// Executes the forward operations strictly in listed order, stopping at
    /// the first failure. The session afterwards is exactly the model run of
    /// the forward list.
    pub fn apply_up(&self, db: &mut VersionedDatabase) -> (r: Result<(), MigrationError>)
        requires
            old(db).wf(),
        ensures
            final(db).wf(),
            final(db)@ == run_ops(old(db)@, self@.up).0,
            mig_res_matches(r, run_ops(old(db)@, self@.up).1),
    {
        apply_list(&self.up_operations, db)
    }

    /// Executes the reverse operations strictly in listed order, stopping at
    /// the first failure. The session afterwards is exactly the model run of
    /// the reverse list.
    pub fn apply_down(&self, db: &mut VersionedDatabase) -> (r: Result<(), MigrationError>)
        requires
            old(db).wf(),
        ensures
            final(db).wf(),
            final(db)@ == run_ops(old(db)@, self@.down).0,
            mig_res_matches(r, run_ops(old(db)@, self@.down).1),
    {
        apply_list(&self.down_operations, db)
    }
}

/// Executes a list of operations in listed order, stopping at the first
/// failure.
fn apply_list(ops: &Vec<Operation>, db: &mut VersionedDatabase) -> (r: Result<(), MigrationError>)
    requires
        old(db).wf(),
    ensures
        final(db).wf(),
        final(db)@ == run_ops(old(db)@, ops_of(ops@)).0,
        mig_res_matches(r, run_ops(old(db)@, ops_of(ops@)).1),
{
    let ghost all = ops_of(ops@);
    proof {
        assert(all.skip(0) =~= all);
    }
    let mut i: usize = 0;
    while i < ops.len()
        invariant
            db.wf(),
            i <= all.len(),
            run_ops(old(db)@, all) == run_ops(db@, all.skip(i as int)),
        decreases all.len() - i,
    {
        proof {
            assert(all.skip(i as int)[0] == all[i as int]);
            assert(all.skip(i as int).drop_first() =~= all.skip(i as int + 1));
        }
        match db.execute(&ops[i]) {
            Ok(_) => {},
            Err(e) => {
                return Err(MigrationError::Schema { error: e });
            },
        }
        i = i + 1;
    }
    proof {
        assert(all.skip(all.len() as int) =~= Seq::<OpModel>::empty());
    }
    Ok(())
}

} // verus!
