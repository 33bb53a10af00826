//! The engine's laws, proved of the model runs.
//!
//! Each proof function here states a guarantee of the runs defined in
//! [`crate::manager`], for every session and every migration list its
//! `requires` admits. Since the executable runs are proved to equal the model
//! runs exactly, each law holds of the executable engine too.

use vstd::prelude::*;
use crate::database::{lemma_run_ops_frame, run_ops, step_result, DbModel};
use crate::error::SchemaErrorModel;
use crate::manager::{add_count, run_down, run_up, unique_mig_versions};
use crate::migration::MigrationModel;
use crate::operation::OpModel;
use crate::store::{inverse_exact, lemma_op_roundtrip, op_apply, op_enabled, CollectionModel};

verus! {

/// The forward operations of a migration list, concatenated in list order.
pub open spec fn concat_ups(migs: Seq<MigrationModel>) -> Seq<crate::operation::OpModel>
    decreases migs.len(),
{
    if migs.len() == 0 {
        Seq::empty()
    } else {
        migs[0].up + concat_ups(migs.drop_first())
    }
}

/// How many migrations of the list the ledger records as applied.
pub open spec fn applied_count(
    ledger: Map<u64, crate::database::LedgerEntryModel>,
    migs: Seq<MigrationModel>,
) -> int
    decreases migs.len(),
{
    if migs.len() == 0 {
        0
    } else {
        applied_count(ledger, migs.drop_last()) + if ledger.contains_key(migs.last().version) {
            1int
        } else {
            0int
        }
    }
}

/// The applied count lies between zero and the list's length.
pub proof fn lemma_applied_count_bounds(
    ledger: Map<u64, crate::database::LedgerEntryModel>,
    migs: Seq<MigrationModel>,
)
    ensures
        0 <= applied_count(ledger, migs) <= migs.len(),
    decreases migs.len(),
{
    if migs.len() > 0 {
        lemma_applied_count_bounds(ledger, migs.drop_last());
    }
}

/// Two ledgers that agree on the migrations' versions yield the same applied
/// count.
pub proof fn lemma_applied_count_agree(
    l1: Map<u64, crate::database::LedgerEntryModel>,
    l2: Map<u64, crate::database::LedgerEntryModel>,
    migs: Seq<MigrationModel>,
)
    requires
        forall|i: int|
            0 <= i < migs.len() ==> l1.contains_key(#[trigger] migs[i].version) == l2.contains_key(
                migs[i].version,
            ),
    ensures
        applied_count(l1, migs) == applied_count(l2, migs),
    decreases migs.len(),
{
    if migs.len() > 0 {
        assert(forall|i: int|
            0 <= i < migs.drop_last().len() ==> #[trigger] migs.drop_last()[i] == migs[i]);
        lemma_applied_count_agree(l1, l2, migs.drop_last());
        assert(migs[migs.len() - 1] == migs.last());
    }
}

/// A forward run never forgets an applied version: whatever the ledger
/// records before the run it still records after it.
pub proof fn lemma_run_up_ledger_grows(db: DbModel, migs: Seq<MigrationModel>)
    ensures
        forall|v: u64|
            db.ledger.contains_key(v) ==> #[trigger] run_up(db, migs).0.ledger.contains_key(v),
    decreases migs.len(),
{
    if migs.len() > 0 {
        let m = migs[0];
        if db.ledger.contains_key(m.version) {
            lemma_run_up_ledger_grows(db, migs.drop_first());
            assert forall|v: u64| db.ledger.contains_key(v) implies #[trigger] run_up(
                db,
                migs,
            ).0.ledger.contains_key(v) by {
                assert(run_up(db, migs.drop_first()).0.ledger.contains_key(v));
                assert(run_up(db, migs).0 == run_up(db, migs.drop_first()).0);
            }
        } else {
            let ops_res = run_ops(db, m.up);
            lemma_run_ops_frame(db, m.up);
            match ops_res.1 {
                Ok(u) => {
                    let db2 = ops_res.0.record(m.version, m.name);
                    lemma_run_up_ledger_grows(db2, migs.drop_first());
                    assert forall|v: u64| db.ledger.contains_key(v) implies #[trigger] run_up(
                        db,
                        migs,
                    ).0.ledger.contains_key(v) by {
                        assert(db2.ledger.contains_key(v));
                        assert(run_up(db2, migs.drop_first()).0.ledger.contains_key(v));
                        assert(run_up(db, migs).0 == run_up(db2, migs.drop_first()).0);
                    }
                },
                Err(e) => {
                    assert(run_up(db, migs).0.ledger == db.ledger);
                },
            }
        }
    }
}

/// Idempotence of the forward run: once a forward run has succeeded, running
/// it again against the same session changes nothing — no operation call is
/// made, and the count of newly applied migrations is zero.
pub proof fn lemma_up_idempotent(db: DbModel, migs: Seq<MigrationModel>)
    requires
        run_up(db, migs).1 is Ok,
    ensures
        run_up(run_up(db, migs).0, migs) == (run_up(db, migs).0, Ok::<int, SchemaErrorModel>(0)),
    decreases migs.len(),
{
    if migs.len() > 0 {
        let m = migs[0];
        let rest = migs.drop_first();
        if db.ledger.contains_key(m.version) {
            lemma_up_idempotent(db, rest);
            lemma_run_up_ledger_grows(db, rest);
        } else {
            let ops_res = run_ops(db, m.up);
            match ops_res.1 {
                Ok(u) => {
                    let db2 = ops_res.0.record(m.version, m.name);
                    let rec = run_up(db2, rest);
                    lemma_up_idempotent(db2, rest);
                    lemma_run_up_ledger_grows(db2, rest);
                    assert(rec.0.ledger.contains_key(m.version));
                },
                Err(e) => {},
            }
        }
    }
}

/// A successful forward run against a ledger that holds exactly the first
/// `k` of the migrations' versions applies exactly the remaining ones, in
/// list order — under the manager's ordering invariant, strictly ascending
/// version order: the count is the number of pending migrations, the
/// operation log grows by exactly their forward operations concatenated in
/// list order, and afterwards the ledger records every migration of the list
/// and nothing new beyond them. With `k == 0` and an empty ledger this is the run from
/// scratch; with `k > 0` it is the resumed run after an earlier partial
/// failure, which re-applies nothing.
pub proof fn lemma_up_applies_pending(db: DbModel, migs: Seq<MigrationModel>, k: int)
    requires
        unique_mig_versions(migs),
        0 <= k <= migs.len(),
        forall|i: int|
            0 <= i < migs.len() ==> (db.ledger.contains_key(#[trigger] migs[i].version) <==> i
                < k),
        run_up(db, migs).1 is Ok,
    ensures
        run_up(db, migs).1 == Ok::<int, SchemaErrorModel>(migs.len() - k),
        run_up(db, migs).0.op_log == db.op_log + concat_ups(migs.skip(k)),
        forall|v: u64|
            #[trigger] run_up(db, migs).0.ledger.contains_key(v) <==> (db.ledger.contains_key(v)
                || exists|i: int| 0 <= i < migs.len() && migs[i].version == v),
    decreases migs.len(),
{
    if migs.len() == 0 {
        assert(db.op_log + concat_ups(migs.skip(k)) =~= db.op_log);
    } else {
        let m = migs[0];
        let rest = migs.drop_first();
        assert(forall|i: int| 0 <= i < rest.len() ==> #[trigger] rest[i] == migs[i + 1]);
        if db.ledger.contains_key(m.version) {
            assert(0 < k);
            lemma_up_applies_pending(db, rest, k - 1);
            assert(rest.skip(k - 1) =~= migs.skip(k));
            assert forall|v: u64| #[trigger] run_up(db, migs).0.ledger.contains_key(v) <==> (
            db.ledger.contains_key(v) || exists|i: int|
                0 <= i < migs.len() && migs[i].version == v) by {
                if exists|i: int| 0 <= i < migs.len() && migs[i].version == v {
                    let i = choose|i: int| 0 <= i < migs.len() && migs[i].version == v;
                    if i == 0 {
                        assert(db.ledger.contains_key(v));
                    } else {
                        assert(rest[i - 1].version == v);
                    }
                }
                if exists|i: int| 0 <= i < rest.len() && rest[i].version == v {
                    let i = choose|i: int| 0 <= i < rest.len() && rest[i].version == v;
                    assert(migs[i + 1].version == v);
                }
            }
        } else {
            assert(k == 0) by {
                if k > 0 {
                    assert(db.ledger.contains_key(migs[0].version));
                }
            }
            let ops_res = run_ops(db, m.up);
            lemma_run_ops_frame(db, m.up);
            match ops_res.1 {
                Ok(u) => {
                    let db2 = ops_res.0.record(m.version, m.name);
                    assert forall|i: int|
                        0 <= i < rest.len() implies (db2.ledger.contains_key(
                        #[trigger] rest[i].version,
                    ) <==> i < 0) by {
                        assert(rest[i] == migs[i + 1]);
                        assert(migs[i + 1].version != m.version);
                    }
                    lemma_up_applies_pending(db2, rest, 0);
                    assert(rest.skip(0) =~= rest);
                    assert(run_up(db2, rest).0.op_log == db2.op_log + concat_ups(rest));
                    assert(db2.op_log == db.op_log + m.up);
                    assert(db.op_log + concat_ups(migs.skip(0)) =~= (db.op_log + m.up)
                        + concat_ups(rest)) by {
                        assert(migs.skip(0) =~= migs);
                        assert(concat_ups(migs) == m.up + concat_ups(rest));
                        assert(db.op_log + (m.up + concat_ups(rest)) =~= (db.op_log + m.up)
                            + concat_ups(rest));
                    }
                    assert forall|v: u64| #[trigger] run_up(db, migs).0.ledger.contains_key(v)
                        <==> (db.ledger.contains_key(v) || exists|i: int|
                        0 <= i < migs.len() && migs[i].version == v) by {
                        if run_up(db, migs).0.ledger.contains_key(v) {
                            if !db.ledger.contains_key(v) {
                                if v == m.version {
                                    assert(migs[0].version == v);
                                } else {
                                    assert(db2.ledger.contains_key(v) ==> v == m.version
                                        || db.ledger.contains_key(v));
                                    let i = choose|i: int|
                                        0 <= i < rest.len() && rest[i].version == v;
                                    assert(migs[i + 1].version == v);
                                }
                            }
                        }
                        if exists|i: int| 0 <= i < migs.len() && migs[i].version == v {
                            let i = choose|i: int| 0 <= i < migs.len() && migs[i].version == v;
                            if i == 0 {
                                assert(db2.ledger.contains_key(v));
                            } else {
                                assert(rest[i - 1].version == v);
                            }
                        }
                        if db.ledger.contains_key(v) {
                            assert(db2.ledger.contains_key(v));
                        }
                    }
                },
                Err(e) => {},
            }
        }
    }
}

/// Containment of a partial failure: when a forward run over fresh
/// migrations fails, the ledger afterwards records the old entries plus the
/// versions of exactly the migrations before the failing one — a prefix of
/// the list — and nothing else.
pub proof fn lemma_up_partial_prefix(db: DbModel, migs: Seq<MigrationModel>) -> (k: int)
    requires
        unique_mig_versions(migs),
        forall|i: int| 0 <= i < migs.len() ==> !db.ledger.contains_key(#[trigger] migs[i].version),
        run_up(db, migs).1 is Err,
    ensures
        0 <= k < migs.len(),
        forall|v: u64|
            #[trigger] run_up(db, migs).0.ledger.contains_key(v) <==> (db.ledger.contains_key(v)
                || exists|i: int| 0 <= i < k && migs[i].version == v),
    decreases migs.len(),
{
    let m = migs[0];
    let rest = migs.drop_first();
    assert(forall|i: int| 0 <= i < rest.len() ==> #[trigger] rest[i] == migs[i + 1]);
    assert(!db.ledger.contains_key(m.version));
    let ops_res = run_ops(db, m.up);
    lemma_run_ops_frame(db, m.up);
    match ops_res.1 {
        Ok(u) => {
            let db2 = ops_res.0.record(m.version, m.name);
            assert forall|i: int| 0 <= i < rest.len() implies !db2.ledger.contains_key(
                #[trigger] rest[i].version,
            ) by {
                assert(rest[i] == migs[i + 1]);
                assert(migs[i + 1].version != m.version);
            }
            let k0 = lemma_up_partial_prefix(db2, rest);
            let k = k0 + 1;
            assert forall|v: u64| #[trigger] run_up(db, migs).0.ledger.contains_key(v) <==> (
            db.ledger.contains_key(v) || exists|i: int| 0 <= i < k && migs[i].version == v) by {
                if run_up(db, migs).0.ledger.contains_key(v) {
                    if !db.ledger.contains_key(v) && v != m.version {
                        let i = choose|i: int| 0 <= i < k0 && rest[i].version == v;
                        assert(migs[i + 1].version == v);
                    } else if v == m.version {
                        assert(migs[0].version == v);
                    }
                }
                if exists|i: int| 0 <= i < k && migs[i].version == v {
                    let i = choose|i: int| 0 <= i < k && migs[i].version == v;
                    if i == 0 {
                        assert(db2.ledger.contains_key(v));
                        assert(run_up(db2, rest).0.ledger.contains_key(v));
                    } else {
                        assert(rest[i - 1].version == v);
                    }
                }
                if db.ledger.contains_key(v) {
                    assert(db2.ledger.contains_key(v));
                    assert(run_up(db2, rest).0.ledger.contains_key(v));
                }
            }
            assert(0 <= k < migs.len());
            k
        },
        Err(e) => {
            let k: int = 0;
            assert(run_up(db, migs).0.ledger == db.ledger);
            assert forall|v: u64| #[trigger] run_up(db, migs).0.ledger.contains_key(v) <==> (
            db.ledger.contains_key(v) || exists|i: int|
                0 <= i < k && #[trigger] migs[i].version == v) by {
                assert(!(exists|i: int| 0 <= i < k && #[trigger] migs[i].version == v));
            }
            assert(0 <= k < migs.len());
            k
        },
    }
}

/// Clamping of the rollback count: any requested count at least as large as
/// the number of applied migrations behaves exactly like requesting that
/// number — over-requesting rolls back everything applied, no more, and
/// never fails on that account; and a successful run reports exactly the
/// applied number.
pub proof fn lemma_down_clamps(db: DbModel, migs: Seq<MigrationModel>, count: int)
    requires
        unique_mig_versions(migs),
        count >= applied_count(db.ledger, migs),
    ensures
        run_down(db, migs, count) == run_down(db, migs, applied_count(db.ledger, migs)),
        run_down(db, migs, count).1 matches Ok(n) ==> n == applied_count(db.ledger, migs),
    decreases migs.len(),
{
    lemma_applied_count_bounds(db.ledger, migs);
    if migs.len() > 0 {
        let m = migs.last();
        let front = migs.drop_last();
        assert(forall|i: int| 0 <= i < front.len() ==> #[trigger] front[i] == migs[i]);
        let a = applied_count(db.ledger, migs);
        let afront = applied_count(db.ledger, front);
        lemma_applied_count_bounds(db.ledger, front);
        if !db.ledger.contains_key(m.version) {
            assert(a == afront);
            if count <= 0 {
                assert(a == 0);
                lemma_down_clamps(db, front, 0);
            } else {
                lemma_down_clamps(db, front, count);
                if a > 0 {
                    lemma_down_clamps(db, front, a);
                } else {
                    lemma_down_clamps(db, front, 0);
                }
            }
        } else {
            assert(a == afront + 1);
            assert(count >= 1);
            let ops_res = run_ops(db, m.down);
            lemma_run_ops_frame(db, m.down);
            match ops_res.1 {
                Ok(u) => {
                    let db2 = ops_res.0.erase(m.version);
                    assert forall|i: int|
                        0 <= i < front.len() implies db2.ledger.contains_key(
                        #[trigger] front[i].version,
                    ) == db.ledger.contains_key(front[i].version) by {
                        assert(front[i] == migs[i]);
                        assert(migs[i].version != m.version);
                    }
                    lemma_applied_count_agree(db2.ledger, db.ledger, front);
                    lemma_down_clamps(db2, front, count - 1);
                    lemma_down_clamps(db2, front, a - 1);
                },
                Err(e) => {},
            }
        }
    }
}

/// The inverses of the operations, in reverse order: the conventional
/// hand-authored reverse list.
pub open spec fn rev_inv(ops: Seq<OpModel>) -> Seq<OpModel> {
    Seq::new(ops.len(), |i: int| ops[ops.len() - 1 - i].inverse())
}

/// Every operation of the list is enabled in turn.
pub open spec fn ops_runnable(store: Map<Seq<u8>, CollectionModel>, ops: Seq<OpModel>) -> bool
    decreases ops.len(),
{
    ops.len() == 0 || (op_enabled(store, ops[0]) && ops_runnable(
        op_apply(store, ops[0]),
        ops.drop_first(),
    ))
}

/// The store after the whole list ran. Meaningful when `ops_runnable` holds.
pub open spec fn run_store(store: Map<Seq<u8>, CollectionModel>, ops: Seq<OpModel>) -> Map<
    Seq<u8>,
    CollectionModel,
>
    decreases ops.len(),
{
    if ops.len() == 0 {
        store
    } else {
        run_store(op_apply(store, ops[0]), ops.drop_first())
    }
}

/// Every operation of the list is enabled in turn and exactly reversible at
/// its point.
pub open spec fn ops_invertible(store: Map<Seq<u8>, CollectionModel>, ops: Seq<OpModel>) -> bool
    decreases ops.len(),
{
    ops.len() == 0 || (op_enabled(store, ops[0]) && inverse_exact(store, ops[0])
        && ops_invertible(op_apply(store, ops[0]), ops.drop_first()))
}

/// Running a concatenation is running the first part, then the second.
pub proof fn lemma_run_store_concat(
    store: Map<Seq<u8>, CollectionModel>,
    a: Seq<OpModel>,
    b: Seq<OpModel>,
)
    ensures
        ops_runnable(store, a + b) == (ops_runnable(store, a) && ops_runnable(
            run_store(store, a),
            b,
        )),
        ops_runnable(store, a + b) ==> run_store(store, a + b) == run_store(
            run_store(store, a),
            b,
        ),
    decreases a.len(),
{
    if a.len() == 0 {
        assert(a + b =~= b);
    } else {
        assert((a + b)[0] == a[0]);
        assert((a + b).drop_first() =~= a.drop_first() + b);
        lemma_run_store_concat(op_apply(store, a[0]), a.drop_first(), b);
    }
}

/// An exactly reversible run, followed by the reversed inverses, is enabled
/// throughout and restores the store.
pub proof fn lemma_ops_roundtrip_seq(store: Map<Seq<u8>, CollectionModel>, ops: Seq<OpModel>)
    requires
        ops_invertible(store, ops),
    ensures
        ops_runnable(store, ops),
        ops_runnable(run_store(store, ops), rev_inv(ops)),
        run_store(run_store(store, ops), rev_inv(ops)) == store,
    decreases ops.len(),
{
    if ops.len() == 0 {
        assert(rev_inv(ops) =~= Seq::<OpModel>::empty());
    } else {
        let o = ops[0];
        let store1 = op_apply(store, o);
        lemma_ops_roundtrip_seq(store1, ops.drop_first());
        assert(ops_runnable(store, ops));
        let s_end = run_store(store, ops);
        assert(s_end == run_store(store1, ops.drop_first()));
        let back_rest = rev_inv(ops.drop_first());
        assert(rev_inv(ops) =~= back_rest + seq![o.inverse()]) by {
            assert forall|i: int| 0 <= i < ops.len() implies rev_inv(ops)[i] == (back_rest
                + seq![o.inverse()])[i] by {
                if i < ops.len() - 1 {
                    assert(rev_inv(ops)[i] == ops[ops.len() - 1 - i].inverse());
                    assert(back_rest[i] == ops.drop_first()[ops.drop_first().len() - 1
                        - i].inverse());
                    assert(ops.drop_first()[ops.drop_first().len() - 1 - i] == ops[ops.len() - 1
                        - i]);
                }
            }
        }
        lemma_op_roundtrip(store, o);
        let single = seq![o.inverse()];
        assert(single[0] == o.inverse());
        assert(single.drop_first() =~= Seq::<OpModel>::empty());
        assert(op_enabled(store1, o.inverse()));
        assert(ops_runnable(op_apply(store1, o.inverse()), single.drop_first()) == ops_runnable(
            op_apply(store1, o.inverse()),
            Seq::<OpModel>::empty(),
        ));
        assert(ops_runnable(op_apply(store1, o.inverse()), Seq::<OpModel>::empty()));
        assert(ops_runnable(store1, single));
        assert(run_store(op_apply(store1, o.inverse()), single.drop_first()) == run_store(
            op_apply(store1, o.inverse()),
            Seq::<OpModel>::empty(),
        ));
        assert(run_store(store1, single) == op_apply(store1, o.inverse()));
        lemma_run_store_concat(s_end, back_rest, single);
        assert(run_store(s_end, rev_inv(ops)) == run_store(run_store(s_end, back_rest), single));
        assert(run_store(s_end, back_rest) == store1);
        assert(op_apply(store1, o.inverse()) == store);
    }
}

/// A runnable operation list runs without failure, and the session's store
/// ends where the model run says.
pub proof fn lemma_run_ops_runnable(db: DbModel, ops: Seq<OpModel>)
    requires
        ops_runnable(db.store, ops),
    ensures
        run_ops(db, ops).1 is Ok,
        run_ops(db, ops).0.store == run_store(db.store, ops),
    decreases ops.len(),
{
    if ops.len() > 0 {
        let step = step_result(db, ops[0]);
        lemma_run_ops_runnable(step.0, ops.drop_first());
    }
}

/// Each migration's forward operations are exactly reversible in turn, from
/// the store state its predecessors leave behind.
pub open spec fn migs_invertible(
    store: Map<Seq<u8>, CollectionModel>,
    migs: Seq<MigrationModel>,
) -> bool
    decreases migs.len(),
{
    migs.len() == 0 || (ops_invertible(store, migs[0].up) && migs_invertible(
        run_store(store, migs[0].up),
        migs.drop_first(),
    ))
}

/// A rollback over a concatenated list handles the later migrations first,
/// then the earlier ones with the remaining count.
pub proof fn lemma_run_down_split(db: DbModel, a: Seq<MigrationModel>, b: Seq<MigrationModel>, count: int)
    ensures
        ({
            let r1 = run_down(db, b, count);
            match r1.1 {
                Ok(k) => run_down(db, a + b, count) == add_count(
                    run_down(r1.0, a, count - k),
                    k,
                ),
                Err(e) => run_down(db, a + b, count) == r1,
            }
        }),
    decreases b.len(),
{
    if b.len() == 0 {
        assert(a + b =~= a);
        let r = run_down(db, a, count);
        assert(add_count(r, 0) == r) by {
            match r.1 {
                Ok(n) => {},
                Err(e) => {},
            }
        }
    } else if count <= 0 {
        assert(run_down(db, a + b, count) == (db, Ok::<int, SchemaErrorModel>(0)));
        assert(run_down(db, a, count) == (db, Ok::<int, SchemaErrorModel>(0)));
    } else {
        let m = b.last();
        assert((a + b).last() == m);
        assert((a + b).drop_last() =~= a + b.drop_last());
        if !db.ledger.contains_key(m.version) {
            lemma_run_down_split(db, a, b.drop_last(), count);
        } else {
            let ops_res = run_ops(db, m.down);
            match ops_res.1 {
                Ok(u) => {
                    let db2 = ops_res.0.erase(m.version);
                    lemma_run_down_split(db2, a, b.drop_last(), count - 1);
                    let r1rest = run_down(db2, b.drop_last(), count - 1);
                    match r1rest.1 {
                        Ok(k) => {
                            let r2 = run_down(r1rest.0, a, count - 1 - k);
                            match r2.1 {
                                Ok(n) => {},
                                Err(e) => {},
                            }
                        },
                        Err(e) => {},
                    }
                },
                Err(e) => {},
            }
        }
    }
}

/// The rollback inverse law: a migration set whose reverse lists are the
/// reversed inverses of their forward lists, fully applied from a ledger
/// that knows none of it and a store where each step is exactly reversible,
/// and then fully rolled back, leaves the ledger as it was and restores the
/// store exactly.
pub proof fn lemma_rollback_restores(db: DbModel, migs: Seq<MigrationModel>)
    requires
        unique_mig_versions(migs),
        forall|i: int| 0 <= i < migs.len() ==> !db.ledger.contains_key(#[trigger] migs[i].version),
        forall|i: int| 0 <= i < migs.len() ==> (#[trigger] migs[i].down) == rev_inv(migs[i].up),
        migs_invertible(db.store, migs),
    ensures
        run_up(db, migs).1 is Ok,
        ({
            let down = run_down(run_up(db, migs).0, migs, migs.len() as int);
            &&& down.1 == Ok::<int, SchemaErrorModel>(migs.len() as int)
            &&& down.0.store == db.store
            &&& down.0.ledger == db.ledger
        }),
    decreases migs.len(),
{
    if migs.len() == 0 {
    } else {
        let m = migs[0];
        let rest = migs.drop_first();
        assert(forall|i: int| 0 <= i < rest.len() ==> #[trigger] rest[i] == migs[i + 1]);
        assert(!db.ledger.contains_key(m.version));
        assert(ops_invertible(db.store, m.up));
        lemma_ops_roundtrip_seq(db.store, m.up);
        lemma_run_ops_runnable(db, m.up);
        let ops_res = run_ops(db, m.up);
        lemma_run_ops_frame(db, m.up);
        let s1 = run_store(db.store, m.up);
        let db2 = ops_res.0.record(m.version, m.name);
        assert(db2.store == s1);
        assert forall|i: int| 0 <= i < rest.len() implies !db2.ledger.contains_key(
            #[trigger] rest[i].version,
        ) by {
            assert(rest[i] == migs[i + 1]);
            assert(migs[i + 1].version != m.version);
        }
        lemma_rollback_restores(db2, rest);
        let upr = run_up(db2, rest);
        assert(run_up(db, migs) == add_count(upr, 1));
        let up_final = upr.0;
        assert(run_up(db, migs).0 == up_final);

        // The rollback handles the later migrations first, restoring the
        // store to what this migration's run left and the ledger to what was
        // recorded for it, then reverses this migration itself.
        lemma_applied_count_bounds(up_final.ledger, rest);
        lemma_run_up_ledger_grows(db2, rest);
        assert(up_final.ledger.contains_key(m.version));
        let downr = run_down(up_final, rest, rest.len() as int);
        assert(downr.1 == Ok::<int, SchemaErrorModel>(rest.len() as int));
        assert(downr.0.store == db2.store && downr.0.ledger == db2.ledger);
        lemma_down_clamps(up_final, rest, migs.len() as int);
        assert(applied_count(up_final.ledger, rest) <= rest.len());
        assert(run_down(up_final, rest, migs.len() as int) == downr) by {
            assert(migs.len() as int >= applied_count(up_final.ledger, rest));
            assert(rest.len() as int >= applied_count(up_final.ledger, rest));
            lemma_down_clamps(up_final, rest, rest.len() as int);
            assert(downr.1 matches Ok(n) ==> n == applied_count(up_final.ledger, rest));
            assert(applied_count(up_final.ledger, rest) == rest.len());
        }
        assert(migs =~= seq![m] + rest);
        lemma_run_down_split(up_final, seq![m], rest, migs.len() as int);
        assert(run_down(up_final, migs, migs.len() as int) == add_count(
            run_down(downr.0, seq![m], 1),
            rest.len() as int,
        ));

        // Reversing this migration from the restored store: its reverse list
        // is the reversed inverses of its forward list, so it runs cleanly
        // and lands on the original store; erasing its record restores the
        // original ledger.
        let dbr = downr.0;
        assert(dbr.ledger.contains_key(m.version));
        assert(seq![m].last() == m);
        assert(dbr.store == s1);
        assert(m.down == rev_inv(m.up));
        lemma_run_ops_runnable(dbr, m.down);
        assert(run_ops(dbr, m.down).0.store == run_store(s1, rev_inv(m.up)));
        assert(run_store(s1, rev_inv(m.up)) == db.store);
        lemma_run_ops_frame(dbr, m.down);
        let db3 = run_ops(dbr, m.down).0.erase(m.version);
        assert(db3.ledger =~= db.ledger) by {
            assert(dbr.ledger == db2.ledger);
            assert(db2.ledger == db.ledger.insert(
                m.version,
                crate::database::LedgerEntryModel {
                    version: m.version,
                    name: m.name,
                    applied_at: db.clock,
                },
            ));
        }
        assert(seq![m].drop_last() =~= Seq::<MigrationModel>::empty());
        assert(run_down(dbr, seq![m], 1) == add_count(
            run_down(db3, seq![m].drop_last(), 0),
            1,
        ));
        assert(run_down(db3, seq![m].drop_last(), 0) == (db3, Ok::<int, SchemaErrorModel>(0)));
    }
}

} // verus!
