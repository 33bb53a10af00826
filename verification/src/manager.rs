//! The migration manager: ordering, the pending/applied delta, and the runs.
//!
//! A manager holds the discovered migrations sorted strictly ascending by
//! version. Driving it forward applies every pending migration in ascending
//! order, recording each in the ledger as it succeeds; driving it back rolls
//! back the most recently applied ones in descending order, erasing each
//! record as its reversal succeeds. Both runs stop at the first failure and
//! leave the ledger reflecting exactly what succeeded. The spec functions
//! [`run_up`] and [`run_down`] are the mathematical meaning of the two runs;
//! the executable functions are proved to implement them exactly.

use vstd::prelude::*;
use vstd::seq_lib::group_to_multiset_ensures;
use vstd::multiset::Multiset;
use crate::database::{run_ops, lemma_run_ops_frame, DbModel, VersionedDatabase};
use crate::error::{DiscoveryError, MigrationError, SchemaErrorModel};
use crate::codec::{is_definition, spec_render, wf_source};
use crate::error::ParseError;
use crate::migration::{Migration, MigrationModel};

verus! {

/// The mathematical values of a list of migrations.
pub open spec fn migs_of(s: Seq<Migration>) -> Seq<MigrationModel> {
    s.map_values(|m: Migration| m@)
}

/// Versions strictly ascend along the list.
pub open spec fn sorted_strict(s: Seq<Migration>) -> bool {
    forall|i: int, j: int| 0 <= i < j < s.len() ==> s[i].version < s[j].version
}

/// No two migrations of the list share a version.
pub open spec fn unique_mig_versions(s: Seq<MigrationModel>) -> bool {
    forall|i: int, j: int| 0 <= i < j < s.len() ==> s[i].version != s[j].version
}

/// A count added onto the result of a run, when the run succeeded.
pub open spec fn add_count(
    t: (DbModel, Result<int, SchemaErrorModel>),
    k: int,
) -> (DbModel, Result<int, SchemaErrorModel>) {
    match t.1 {
        Ok(n) => (t.0, Ok::<int, SchemaErrorModel>(n + k)),
        Err(e) => t,
    }
}

/// The forward run: each migration in listed (ascending) order is skipped
/// when its version is already in the ledger, and otherwise has its forward
/// operations run and, on success, its version recorded. The first failure
/// stops the run; the count is how many migrations were newly applied.
pub open spec fn run_up(db: DbModel, migs: Seq<MigrationModel>) -> (DbModel, Result<
    int,
    SchemaErrorModel,
>)
    decreases migs.len(),
{
    if migs.len() == 0 {
        (db, Ok::<int, SchemaErrorModel>(0))
    } else {
        let m = migs[0];
        if db.ledger.contains_key(m.version) {
            run_up(db, migs.drop_first())
        } else {
            let ops_res = run_ops(db, m.up);
            match ops_res.1 {
                Ok(u) => add_count(
                    run_up(ops_res.0.record(m.version, m.name), migs.drop_first()),
                    1,
                ),
                Err(e) => (ops_res.0, Err::<int, SchemaErrorModel>(e)),
            }
        }
    }
}

/// The rollback run: each migration in reverse listed (descending) order is
/// skipped when its version is not in the ledger, and otherwise — while the
/// requested count is not yet reached — has its reverse operations run and,
/// on success, its record erased. The first failure stops the run; the count
/// is how many migrations were actually rolled back.
pub open spec fn run_down(db: DbModel, migs: Seq<MigrationModel>, count: int) -> (DbModel, Result<
    int,
    SchemaErrorModel,
>)
    decreases migs.len(),
{
    if migs.len() == 0 || count <= 0 {
        (db, Ok::<int, SchemaErrorModel>(0))
    } else {
        let m = migs.last();
        if !db.ledger.contains_key(m.version) {
            run_down(db, migs.drop_last(), count)
        } else {
            let ops_res = run_ops(db, m.down);
            match ops_res.1 {
                Ok(u) => add_count(
                    run_down(ops_res.0.erase(m.version), migs.drop_last(), count - 1),
                    1,
                ),
                Err(e) => (ops_res.0, Err::<int, SchemaErrorModel>(e)),
            }
        }
    }
}

/// Whether an executable run result stands for the model run result. A
/// ledger failure never stands for one: the runs skip applied or missing
/// versions before touching the ledger.
pub open spec fn run_res_matches(
    r: Result<usize, MigrationError>,
    m: Result<int, SchemaErrorModel>,
) -> bool {
    match r {
        Ok(n) => m == Ok::<int, SchemaErrorModel>(n as int),
        Err(MigrationError::Schema { error }) => m matches Err(me) && error@ == me,
        Err(MigrationError::Ledger { error }) => false,
    }
}

/// The orchestrator: the discovered migrations, sorted strictly ascending by
/// version, immutable once constructed.
#[derive(Debug)]
pub struct MigrationManager {
    pub migrations: Vec<Migration>,
}

impl MigrationManager {
    /// Versions strictly ascend along the held migrations.
    pub open spec fn wf(self) -> bool {
        sorted_strict(self.migrations@)
    }

    /// The mathematical values of the held migrations.
    pub open spec fn migs(self) -> Seq<MigrationModel> {
        migs_of(self.migrations@)
    }

    /// Orders a set of loaded migrations by version, refusing a duplicate
    /// version rather than silently picking one. On success the manager
    /// holds exactly the given migrations, sorted strictly ascending.
    pub fn from_migrations(list: Vec<Migration>) -> (r: Result<MigrationManager, DiscoveryError>)
        ensures
            r is Ok <==> unique_mig_versions(migs_of(list@)),
            r matches Ok(mgr) ==> mgr.wf() && mgr.migs().to_multiset() == migs_of(
                list@,
            ).to_multiset(),
            r matches Err(e) ==> e matches DiscoveryError::DuplicateVersion { version } && (
            exists|i: int, j: int|
                0 <= i < j < list@.len() && #[trigger] list@[i].version == #[trigger] list@[
                    j
                ].version && list@[i].version == version),
    {
        broadcast use group_to_multiset_ensures;

        let ghost orig = migs_of(list@);
        let mut rest = list;
        let mut sorted: Vec<Migration> = Vec::new();
        proof {
            assert(migs_of(sorted@).to_multiset().add(migs_of(rest@).to_multiset()) =~= orig
                .to_multiset());
        }
        while rest.len() > 0
            invariant
                sorted_strict(sorted@),
                migs_of(sorted@).to_multiset().add(migs_of(rest@).to_multiset())
                    == orig.to_multiset(),
            decreases rest@.len(),
        {
            let ghost restpre = rest@;
            let m = rest.pop().unwrap();
            proof {
                assert(migs_of(rest@) =~= migs_of(restpre).drop_last());
                assert(migs_of(restpre).drop_last() =~= migs_of(restpre).remove(
                    migs_of(restpre).len() - 1,
                ));
                assert(migs_of(restpre)[migs_of(restpre).len() - 1] == m@);
                assert(migs_of(restpre).to_multiset() =~= migs_of(rest@).to_multiset().insert(
                    m@,
                ));
            }
            let mut k: usize = 0;
            while k < sorted.len() && sorted[k].version < m.version
                invariant
                    k <= sorted@.len(),
                    forall|j: int| 0 <= j < k ==> sorted@[j].version < m.version,
                decreases sorted@.len() - k,
            {
                k = k + 1;
            }
            if k < sorted.len() && sorted[k].version == m.version {
                proof {
                    let x = migs_of(sorted@)[k as int];
                    assert(migs_of(sorted@).contains(x));
                    assert(migs_of(sorted@).to_multiset().count(x) > 0);
                    assert(migs_of(rest@).to_multiset().insert(m@).count(m@) > 0);
                    assert(orig.to_multiset().count(x) > 0);
                    assert(orig.contains(x));
                    assert(orig.to_multiset().count(m@) > 0);
                    assert(orig.contains(m@));
                    if x == m@ {
                        assert(orig.to_multiset().count(x) >= 2);
                        let i = choose|i: int| 0 <= i < orig.len() && orig[i] == x;
                        assert(orig.remove(i).to_multiset() =~= orig.to_multiset().remove(x));
                        assert(orig.remove(i).to_multiset().count(x) > 0);
                        assert(orig.remove(i).contains(x));
                        let j0 = choose|j0: int|
                            0 <= j0 < orig.remove(i).len() && orig.remove(i)[j0] == x;
                        let j: int = if j0 < i {
                            j0
                        } else {
                            j0 + 1
                        };
                        assert(orig[j] == x);
                        assert(i != j);
                        assert(list@[i].version == list@[j].version && list@[i].version
                            == m.version) by {
                            assert(orig[i].version == x.version && orig[j].version == x.version);
                        }
                    } else {
                        let i = choose|i: int| 0 <= i < orig.len() && orig[i] == x;
                        let j = choose|j: int| 0 <= j < orig.len() && orig[j] == m@;
                        assert(i != j);
                        assert(list@[i].version == x.version && list@[j].version == m@.version);
                    }
                }
                return Err(DiscoveryError::DuplicateVersion { version: m.version });
            }
            let ghost sortedpre = sorted@;
            let ghost kk = k as int;
            sorted.insert(k, m);
            proof {
                sortedpre.insert_ensures(kk, m);
                assert(migs_of(sorted@) =~= migs_of(sortedpre).insert(kk, m@));
                assert(migs_of(sorted@).to_multiset() =~= migs_of(sortedpre).to_multiset().insert(
                    m@,
                ));
                assert forall|a: int, b: int|
                    0 <= a < b < sorted@.len() implies sorted@[a].version
                    < sorted@[b].version by {
                    if a < kk && b == kk {
                        assert(sorted@[a] == sortedpre[a]);
                    } else if a == kk && b > kk {
                        assert(sorted@[b] == sortedpre[b - 1]);
                        assert(sortedpre[b - 1].version >= m.version);
                        assert(sortedpre[b - 1].version != m.version);
                    } else if a < kk && b > kk {
                        assert(sorted@[a] == sortedpre[a] && sorted@[b] == sortedpre[b - 1]);
                    } else if a > kk && b > kk {
                        assert(sorted@[a] == sortedpre[a - 1] && sorted@[b] == sortedpre[b - 1]);
                    }
                }
                assert(migs_of(sorted@).to_multiset().add(migs_of(rest@).to_multiset()) =~= orig
                    .to_multiset());
            }
        }
        let mgr = MigrationManager { migrations: sorted };
        proof {
            assert(migs_of(rest@).to_multiset() =~= Multiset::<MigrationModel>::empty());
            assert(mgr.migs().to_multiset() =~= orig.to_multiset());
            assert forall|i: int, j: int|
                0 <= i < j < orig.len() implies orig[i].version != orig[j].version by {
                if orig[i] == orig[j] {
                    let x = orig[i];
                    assert(orig.remove(i).to_multiset() =~= orig.to_multiset().remove(x));
                    assert(orig.remove(i)[j - 1] == x);
                    assert(orig.remove(i).to_multiset().count(x) > 0);
                    assert(orig.to_multiset().count(x) >= 2);
                    assert(mgr.migs().to_multiset().count(x) >= 2);
                    assert(mgr.migs().contains(x));
                    let a = choose|a: int| 0 <= a < mgr.migs().len() && mgr.migs()[a] == x;
                    assert(mgr.migs().remove(a).to_multiset() =~= mgr.migs().to_multiset().remove(
                        x,
                    ));
                    assert(mgr.migs().remove(a).to_multiset().count(x) > 0);
                    assert(mgr.migs().remove(a).contains(x));
                    let b0 = choose|b0: int|
                        0 <= b0 < mgr.migs().remove(a).len() && mgr.migs().remove(a)[b0] == x;
                    let b: int = if b0 < a {
                        b0
                    } else {
                        b0 + 1
                    };
                    assert(mgr.migs()[b] == x);
                    assert(a != b);
                    assert(mgr.migrations@[a].version == mgr.migrations@[b].version);
                } else {
                    assert(mgr.migs().to_multiset().count(orig[i]) > 0);
                    assert(mgr.migs().to_multiset().count(orig[j]) > 0);
                    assert(mgr.migs().contains(orig[i]));
                    assert(mgr.migs().contains(orig[j]));
                    let a = choose|a: int| 0 <= a < mgr.migs().len() && mgr.migs()[a] == orig[i];
                    let b = choose|b: int| 0 <= b < mgr.migs().len() && mgr.migs()[b] == orig[j];
                    assert(a != b);
                    assert(mgr.migrations@[a].version == orig[i].version);
                    assert(mgr.migrations@[b].version == orig[j].version);
                }
            }
        }
        Ok(mgr)
    }

    /// No two definitions of the list are written forms of migrations that
    /// share a version.
    pub open spec fn distinct_versions(defs: Seq<Vec<u8>>) -> bool {
        forall|i: int, j: int, m1: MigrationModel, m2: MigrationModel|
            #![trigger defs[i], defs[j], spec_render(m1), spec_render(m2)]
            0 <= i < j < defs.len() && defs[i]@ == spec_render(m1) && defs[j]@ == spec_render(m2)
                ==> m1.version != m2.version
    }

    /// Whether the `i`-th definition is the written form of a migration with
    /// version `v`.
    pub open spec fn renders_version(defs: Seq<Vec<u8>>, i: int, v: u64) -> bool {
        exists|m: MigrationModel| defs[i]@ == #[trigger] spec_render(m) && m.version == v
    }

    /// What a malformed-discovery report promises: at least one definition
    /// failed, every reported index names a definition that is the written
    /// form of no migration, and every such definition is reported.
    pub open spec fn reported(failures: Seq<(usize, ParseError)>, defs: Seq<Vec<u8>>) -> bool {
        &&& failures.len() > 0
        &&& forall|k: int|
            0 <= k < failures.len() ==> (#[trigger] failures[k]).0 < defs.len() && !is_definition(
                defs[failures[k].0 as int]@,
            )
        &&& forall|i: int|
            0 <= i < defs.len() && !is_definition(#[trigger] defs[i]@) ==> exists|k: int|
                0 <= k < failures.len() && (#[trigger] failures[k]).0 == i
    }

    /// Whether some definition of the list is the written form of `m`.
    pub open spec fn defined_in(defs: Seq<Vec<u8>>, m: MigrationModel) -> bool {
        exists|i: int| 0 <= i < defs.len() && (#[trigger] defs[i])@ == spec_render(m)
    }

    /// Whether some held migration has the written form `d`.
    pub open spec fn held_in(migs: Seq<MigrationModel>, d: Seq<u8>) -> bool {
        exists|j: int| 0 <= j < migs.len() && d == spec_render(#[trigger] migs[j])
    }

    /// What a successful discovery promises: a well-formed manager holding
    /// as many migrations as there are definitions, each held migration
    /// rendering back to one of the definitions and each definition loaded
    /// into some held migration.
    pub open spec fn discovered(mgr: MigrationManager, defs: Seq<Vec<u8>>) -> bool {
        &&& mgr.wf()
        &&& mgr.migs().len() == defs.len()
        &&& forall|j: int|
            0 <= j < mgr.migs().len() ==> Self::defined_in(defs, #[trigger] mgr.migs()[j])
        &&& forall|i: int| 0 <= i < defs.len() ==> Self::held_in(mgr.migs(), (#[trigger] defs[i])@)
    }

    /// Loads every migration definition, fails when any is malformed —
    /// reporting all malformed ones, skipping none — or when two share a
    /// version, and sorts the loaded set ascending by version. Touches no
    /// database. On success each held migration renders back to one of the
    /// given definitions, and each definition is held.
    #[verifier::rlimit(100)]
    pub fn new(definitions: &Vec<Vec<u8>>) -> (r: Result<MigrationManager, DiscoveryError>)
        ensures
            r matches Ok(mgr) ==> Self::discovered(mgr, definitions@),
            (forall|i: int|
                0 <= i < definitions@.len() ==> is_definition(#[trigger] definitions@[i]@))
                && Self::distinct_versions(definitions@) ==> r is Ok,
            r matches Err(DiscoveryError::DuplicateVersion { version }) ==> exists|i: int, j: int|
                #![trigger Self::renders_version(definitions@, i, version), Self::renders_version(definitions@, j, version)]
                0 <= i < j < definitions@.len() && Self::renders_version(definitions@, i, version)
                    && Self::renders_version(definitions@, j, version),
            r matches Err(DiscoveryError::Malformed { failures }) ==> Self::reported(
                failures@,
                definitions@,
            ),
    {
        broadcast use group_to_multiset_ensures;

        let mut migrations: Vec<Migration> = Vec::new();
        let mut failures: Vec<(usize, ParseError)> = Vec::new();
        let mut i: usize = 0;
        while i < definitions.len()
            invariant
                i <= definitions@.len(),
                failures@.len() == 0 ==> migrations@.len() == i && (forall|j: int|
                    0 <= j < i ==> #[trigger] definitions@[j]@ == spec_render(
                        migs_of(migrations@)[j],
                    ) && wf_source(migs_of(migrations@)[j])),
                forall|k: int|
                    0 <= k < failures@.len() ==> (#[trigger] failures@[k]).0 < i && !is_definition(
                        definitions@[failures@[k].0 as int]@,
                    ),
                forall|j: int|
                    0 <= j < i && !is_definition(#[trigger] definitions@[j]@) ==> exists|k: int|
                        0 <= k < failures@.len() && (#[trigger] failures@[k]).0 == j,
            decreases definitions@.len() - i,
        {
            match Migration::load(&definitions[i]) {
                Ok(m) => {
                    let ghost migspre = migrations@;
                    migrations.push(m);
                    proof {
                        assert(forall|j: int|
                            0 <= j < migspre.len() ==> migs_of(migrations@)[j] == #[trigger]
                            migs_of(migspre)[j]);
                        assert(migs_of(migrations@)[migspre.len() as int] == m@);
                        assert(wf_source(m@) && definitions@[i as int]@ == spec_render(m@));
                        assert(is_definition(definitions@[i as int]@));
                    }
                },
                Err(e) => {
                    let ghost failpre = failures@;
                    failures.push((i, e));
                    proof {
                        assert(!is_definition(definitions@[i as int]@));
                        assert(forall|k: int|
                            0 <= k < failpre.len() ==> #[trigger] failures@[k] == failpre[k]);
                        assert(failures@[failpre.len() as int].0 == i as int);
                        assert forall|j: int|
                            0 <= j < i + 1 && !is_definition(
                                #[trigger] definitions@[j]@,
                            ) implies exists|k: int|
                            0 <= k < failures@.len() && (#[trigger] failures@[k]).0 == j by {
                            if j < i {
                                let k = choose|k: int|
                                    0 <= k < failpre.len() && (#[trigger] failpre[k]).0 == j;
                                assert(failures@[k].0 == j);
                            } else {
                                assert(failures@[failpre.len() as int].0 == j);
                            }
                        }
                    }
                },
            }
            i = i + 1;
        }
        if failures.len() > 0 {
            proof {
                if (forall|j: int|
                    0 <= j < definitions@.len() ==> is_definition(#[trigger] definitions@[j]@)) {
                    assert(is_definition(definitions@[failures@[0].0 as int]@));
                }
                assert(Self::reported(failures@, definitions@));
            }
            return Err(DiscoveryError::Malformed { failures });
        }
        let ghost loaded = migs_of(migrations@);
        let ghost premigs = migrations@;
        proof {
            assert(loaded.len() == definitions@.len());
            assert(forall|j: int|
                0 <= j < loaded.len() ==> (#[trigger] definitions@[j])@ == spec_render(
                    loaded[j],
                ));
        }
        match Self::from_migrations(migrations) {
            Ok(mgr) => {
                proof {
                    assert(mgr.migs().to_multiset().len() == loaded.to_multiset().len());
                    assert(mgr.migs().len() == mgr.migs().to_multiset().len());
                    assert(loaded.len() == loaded.to_multiset().len());
                    assert(mgr.migs().len() == definitions@.len());
                    assert forall|j: int| 0 <= j < mgr.migs().len() implies Self::defined_in(
                        definitions@,
                        #[trigger] mgr.migs()[j],
                    ) by {
                        assert(mgr.migs().contains(mgr.migs()[j]));
                        assert(mgr.migs().to_multiset().count(mgr.migs()[j]) > 0);
                        assert(loaded.to_multiset().count(mgr.migs()[j]) > 0);
                        assert(loaded.contains(mgr.migs()[j]));
                        let i = choose|i: int| 0 <= i < loaded.len() && loaded[i] == mgr.migs()[j];
                        assert(definitions@[i]@ == spec_render(loaded[i]));
                        assert(definitions@[i]@ == spec_render(mgr.migs()[j]));
                    }
                    assert forall|i: int| 0 <= i < definitions@.len() implies Self::held_in(
                        mgr.migs(),
                        (#[trigger] definitions@[i])@,
                    ) by {
                        assert(loaded.contains(loaded[i]));
                        assert(loaded.to_multiset().count(loaded[i]) > 0);
                        assert(mgr.migs().to_multiset().count(loaded[i]) > 0);
                        assert(mgr.migs().contains(loaded[i]));
                        let j = choose|j: int|
                            0 <= j < mgr.migs().len() && mgr.migs()[j] == loaded[i];
                        assert(definitions@[i]@ == spec_render(loaded[i]));
                        assert(definitions@[i]@ == spec_render(mgr.migs()[j]));
                    }
                    assert(Self::discovered(mgr, definitions@));
                }
                Ok(mgr)
            },
            Err(e) => {
                proof {
                    match e {
                        DiscoveryError::DuplicateVersion { version } => {
                            let (wi, wj): (int, int) = choose|wi: int, wj: int|
                                0 <= wi < wj < premigs.len() && premigs[wi].version == premigs[
                                    wj
                                ].version && premigs[wi].version == version;
                            assert(loaded[wi] == premigs[wi]@ && loaded[wj] == premigs[wj]@);
                            assert(loaded[wi].version == version && loaded[wj].version
                                == version);
                            assert(definitions@[wi]@ == spec_render(loaded[wi]));
                            assert(definitions@[wj]@ == spec_render(loaded[wj]));
                            assert(Self::renders_version(definitions@, wi, version));
                            assert(Self::renders_version(definitions@, wj, version));
                            if Self::distinct_versions(definitions@) {
                                assert(loaded[wi].version != loaded[wj].version);
                            }
                        },
                        DiscoveryError::Malformed { .. } => {
                            assert(false);
                        },
                    }
                }
                Err(e)
            },
        }
    }

    /// Applies every pending migration in ascending version order: an
    /// already applied version is skipped, a pending one has its forward
    /// operations run and is recorded on success; the first failure stops
    /// the run with the ledger reflecting exactly what succeeded. Returns
    /// how many migrations were newly applied.
    #[verifier::rlimit(60)]
    pub fn migrations_up(&self, db: &mut VersionedDatabase) -> (r: Result<usize, MigrationError>)
        requires
            old(db).wf(),
            self.wf(),
        ensures
            final(db).wf(),
            final(db)@ == run_up(old(db)@, self.migs()).0,
            run_res_matches(r, run_up(old(db)@, self.migs()).1),
    {
        let ghost all = self.migs();
        proof {
            assert(all.skip(0) =~= all);
        }
        let mut applied: usize = 0;
        let mut i: usize = 0;
        while i < self.migrations.len()
            invariant
                db.wf(),
                i <= all.len(),
                applied <= i,
                add_count(run_up(db@, all.skip(i as int)), applied as int) == run_up(
                    old(db)@,
                    all,
                ),
            decreases all.len() - i,
        {
            let m = &self.migrations[i];
            proof {
                assert(all.skip(i as int)[0] == all[i as int]);
                assert(all[i as int] == m@);
                assert(all.skip(i as int).drop_first() =~= all.skip(i as int + 1));
            }
            if !db.is_applied(m.version) {
                let ghost dbpre = db@;
                match m.apply_up(db) {
                    Ok(_) => {},
                    Err(e) => {
                        return Err(e);
                    },
                }
                proof {
                    lemma_run_ops_frame(dbpre, m@.up);
                }
                match db.record_applied(m.version, &m.name) {
                    Ok(_) => {},
                    Err(e) => {
                        proof {
                            assert(false);
                        }
                        return Err(MigrationError::Ledger { error: e });
                    },
                }
                applied = applied + 1;
            }
            i = i + 1;
        }
        proof {
            assert(all.skip(all.len() as int) =~= Seq::<MigrationModel>::empty());
        }
        Ok(applied)
    }

    /// Rolls back the `count` most recently applied migrations in descending
    /// version order — all of them when fewer than `count` are applied,
    /// without error. Each target has its reverse operations run and its
    /// record erased on success; the first failure stops the run with the
    /// ledger reflecting exactly what was reversed. Returns how many
    /// migrations were actually rolled back.
    pub fn migrations_down(&self, count: usize, db: &mut VersionedDatabase) -> (r: Result<
        usize,
        MigrationError,
    >)
        requires
            old(db).wf(),
            self.wf(),
        ensures
            final(db).wf(),
            final(db)@ == run_down(old(db)@, self.migs(), count as int).0,
            run_res_matches(r, run_down(old(db)@, self.migs(), count as int).1),
    {
        let ghost all = self.migs();
        let mut rolled: usize = 0;
        let mut i: usize = self.migrations.len();
        proof {
            assert(all.take(i as int) =~= all);
        }
        while i > 0 && rolled < count
            invariant
                db.wf(),
                i <= all.len(),
                rolled <= count,
                add_count(run_down(db@, all.take(i as int), count - rolled), rolled as int)
                    == run_down(old(db)@, all, count as int),
            decreases i,
        {
            i = i - 1;
            let m = &self.migrations[i];
            proof {
                assert(all.take(i as int + 1).last() == all[i as int]);
                assert(all[i as int] == m@);
                assert(all.take(i as int + 1).drop_last() =~= all.take(i as int));
            }
            if db.is_applied(m.version) {
                let ghost dbpre = db@;
                match m.apply_down(db) {
                    Ok(_) => {},
                    Err(e) => {
                        return Err(e);
                    },
                }
                proof {
                    lemma_run_ops_frame(dbpre, m@.down);
                }
                match db.remove_applied(m.version) {
                    Ok(_) => {},
                    Err(e) => {
                        proof {
                            assert(false);
                        }
                        return Err(MigrationError::Ledger { error: e });
                    },
                }
                rolled = rolled + 1;
            }
        }
        proof {
            if i == 0 {
                assert(all.take(0) =~= Seq::<MigrationModel>::empty());
            }
        }
        Ok(rolled)
    }
}

} // verus!
