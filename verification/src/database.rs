//! The versioned database session: schema state plus the persisted ledger.
//!
//! [`DatabaseState`] holds the schema objects as plain values; its
//! mathematical value is the store map of [`crate::store`]. On top of it,
//! [`VersionedDatabase`] adds the ledger — the record of which migration
//! versions have been applied — and a log of every operation it was asked to
//! execute. The whole session is a plain value, so every run of the engine is
//! a mathematical function of it; the live database driver outside the
//! library mirrors the session's decisions onto the network.

use vstd::prelude::*;
use crate::config::Config;
use crate::error::{LedgerError, SchemaError, SchemaErrorModel};
use crate::operation::{clone_name, clone_names, clone_op, index_ids_eq, names_eq, IndexId,
    OpModel, Operation};
use crate::store::{op_apply, op_enabled, op_error, CollectionModel};

verus! {

/// One collection as the session sees it.
pub struct CollectionState {
    pub name: Vec<u8>,
    pub is_edge: bool,
    pub is_system: bool,
    pub indexes: Vec<IndexId>,
}

impl View for CollectionState {
    type V = CollectionModel;

    open spec fn view(&self) -> CollectionModel {
        CollectionModel {
            is_edge: self.is_edge,
            is_system: self.is_system,
            indexes: self.indexes@.map_values(|x: IndexId| x@).to_set(),
        }
    }
}

impl CollectionState {
    /// The index models, in storage order.
    pub open spec fn index_seq(self) -> Seq<crate::operation::IndexModel> {
        self.indexes@.map_values(|x: IndexId| x@)
    }

    /// No two stored indexes share an identity.
    pub open spec fn wf(self) -> bool {
        forall|i: int, j: int|
            0 <= i < j < self.indexes@.len() ==> self.index_seq()[i] != self.index_seq()[j]
    }
}

/// The schema objects of the database, as plain values.
pub struct DatabaseState {
    pub collections: Vec<CollectionState>,
}

/// Whether some element of `s` is named `n`.
pub open spec fn has_name(s: Seq<CollectionState>, n: Seq<u8>) -> bool {
    exists|i: int| 0 <= i < s.len() && s[i].name@ == n
}

/// No two elements of `s` share a name.
pub open spec fn unique_names(s: Seq<CollectionState>) -> bool {
    forall|i: int, j: int| 0 <= i < j < s.len() ==> s[i].name@ != s[j].name@
}

/// The store map a list of collections stands for.
pub open spec fn store_of(s: Seq<CollectionState>) -> Map<Seq<u8>, CollectionModel>
    decreases s.len(),
{
    if s.len() == 0 {
        Map::empty()
    } else {
        store_of(s.drop_last()).insert(s.last().name@, s.last()@)
    }
}

/// The store map has exactly the names of the list as keys, and under each
/// name the collection that bears it.
pub proof fn lemma_store_of_elems(s: Seq<CollectionState>)
    requires
        unique_names(s),
    ensures
        forall|n: Seq<u8>| #[trigger] store_of(s).contains_key(n) <==> has_name(s, n),
        forall|i: int|
            0 <= i < s.len() ==> store_of(s).contains_key(#[trigger] s[i].name@) && store_of(s)[
                s[i].name@
            ] == s[i]@,
    decreases s.len(),
{
    if s.len() > 0 {
        let front = s.drop_last();
        lemma_store_of_elems(front);
        assert forall|n: Seq<u8>| #[trigger] store_of(s).contains_key(n) implies has_name(
            s,
            n,
        ) by {
            if n == s.last().name@ {
                assert(s[s.len() - 1].name@ == n);
            } else {
                assert(store_of(front).contains_key(n));
                assert(has_name(front, n));
                let i = choose|i: int| 0 <= i < front.len() && front[i].name@ == n;
                assert(front[i] == s[i]);
                assert(s[i].name@ == n);
            }
        }
        assert forall|n: Seq<u8>| has_name(s, n) implies store_of(s).contains_key(n) by {
            let i = choose|i: int| 0 <= i < s.len() && s[i].name@ == n;
            if i < s.len() - 1 {
                assert(front[i].name@ == n);
                assert(has_name(front, n));
            }
        }
        assert forall|i: int| 0 <= i < s.len() implies store_of(s).contains_key(
            #[trigger] s[i].name@,
        ) && store_of(s)[s[i].name@] == s[i]@ by {
            if i < s.len() - 1 {
                assert(front[i] == s[i]);
                assert(s[i].name@ != s.last().name@);
            }
        }
    }
}

/// Appending a collection with a fresh name inserts it into the store map.
pub proof fn lemma_store_push(s: Seq<CollectionState>, c: CollectionState)
    requires
        unique_names(s),
        !has_name(s, c.name@),
    ensures
        unique_names(s.push(c)),
        store_of(s.push(c)) == store_of(s).insert(c.name@, c@),
{
    let t = s.push(c);
    assert forall|i: int, j: int| 0 <= i < j < t.len() implies t[i].name@ != t[j].name@ by {
        if j == t.len() - 1 {
            assert(t[i] == s[i]);
            if s[i].name@ == c.name@ {
                assert(has_name(s, c.name@));
            }
        } else {
            assert(t[i] == s[i] && t[j] == s[j]);
        }
    }
    assert(t.drop_last() =~= s);
}

/// Replacing the collection at `i` by one of the same name updates the store
/// map at that name.
pub proof fn lemma_store_update(s: Seq<CollectionState>, i: int, c: CollectionState)
    requires
        unique_names(s),
        0 <= i < s.len(),
        c.name@ == s[i].name@,
    ensures
        unique_names(s.update(i, c)),
        store_of(s.update(i, c)) == store_of(s).insert(c.name@, c@),
{
    let t = s.update(i, c);
    assert forall|a: int, b: int| 0 <= a < b < t.len() implies t[a].name@ != t[b].name@ by {
        assert(t[a].name@ == s[a].name@ && t[b].name@ == s[b].name@);
    }
    lemma_store_of_elems(s);
    lemma_store_of_elems(t);
    let rhs = store_of(s).insert(c.name@, c@);
    assert forall|n: Seq<u8>|
        #[trigger] store_of(t).contains_key(n) == rhs.contains_key(n) by {
        if store_of(t).contains_key(n) {
            let j = choose|j: int| 0 <= j < t.len() && t[j].name@ == n;
            assert(s[j].name@ == n);
        }
        if rhs.contains_key(n) {
            if n == c.name@ {
                assert(t[i].name@ == n);
            } else {
                let j = choose|j: int| 0 <= j < s.len() && s[j].name@ == n;
                assert(t[j].name@ == n);
            }
        }
    }
    assert forall|n: Seq<u8>| #[trigger] store_of(t).contains_key(n) implies store_of(t)[n]
        == rhs[n] by {
        if n == c.name@ {
            assert(store_of(t)[t[i].name@] == t[i]@);
        } else {
            let j = choose|j: int| 0 <= j < t.len() && t[j].name@ == n;
            assert(j != i);
            assert(t[j] == s[j]);
            assert(store_of(t)[t[j].name@] == t[j]@);
            assert(store_of(s)[s[j].name@] == s[j]@);
        }
    }
    assert(store_of(t) =~= rhs);
}

/// Removing the collection at `i` removes its name from the store map.
pub proof fn lemma_store_remove(s: Seq<CollectionState>, i: int)
    requires
        unique_names(s),
        0 <= i < s.len(),
    ensures
        unique_names(s.remove(i)),
        store_of(s.remove(i)) == store_of(s).remove(s[i].name@),
{
    let t = s.remove(i);
    assert forall|a: int, b: int| 0 <= a < b < t.len() implies t[a].name@ != t[b].name@ by {
        let sa: int = if a < i { a } else { a + 1 };
        let sb: int = if b < i { b } else { b + 1 };
        assert(t[a] == s[sa] && t[b] == s[sb]);
    }
    lemma_store_of_elems(s);
    lemma_store_of_elems(t);
    let rhs = store_of(s).remove(s[i].name@);
    assert forall|n: Seq<u8>|
        #[trigger] store_of(t).contains_key(n) == rhs.contains_key(n) by {
        if store_of(t).contains_key(n) {
            let j = choose|j: int| 0 <= j < t.len() && t[j].name@ == n;
            let sj: int = if j < i { j } else { j + 1 };
            assert(s[sj].name@ == n);
            assert(n != s[i].name@);
        }
        if rhs.contains_key(n) {
            let j = choose|j: int| 0 <= j < s.len() && s[j].name@ == n;
            assert(j != i);
            let tj: int = if j < i { j } else { j - 1 };
            assert(t[tj] == s[j]);
            assert(t[tj].name@ == n);
        }
    }
    assert forall|n: Seq<u8>| #[trigger] store_of(t).contains_key(n) implies store_of(t)[n]
        == rhs[n] by {
        let j = choose|j: int| 0 <= j < t.len() && t[j].name@ == n;
        let sj: int = if j < i { j } else { j + 1 };
        assert(t[j] == s[sj]);
        assert(store_of(t)[t[j].name@] == t[j]@);
        assert(store_of(s)[s[sj].name@] == s[sj]@);
        assert(n != s[i].name@);
    }
    assert(store_of(t) =~= rhs);
}

impl DatabaseState {
    /// The store map this state stands for.
    pub open spec fn store(self) -> Map<Seq<u8>, CollectionModel> {
        store_of(self.collections@)
    }

    /// Collection names are unique and each collection is well formed.
    pub open spec fn wf(self) -> bool {
        &&& unique_names(self.collections@)
        &&& forall|i: int| 0 <= i < self.collections@.len() ==> (#[trigger] self.collections@[i]).wf()
    }

    /// A state with no collections at all.
    pub fn empty() -> (r: DatabaseState)
        ensures
            r.wf(),
            r.store() == Map::<Seq<u8>, CollectionModel>::empty(),
            r.collections@.len() == 0,
    {
        DatabaseState { collections: Vec::new() }
    }

    /// Finds the position of the collection named `name`, if any.
    fn position_of(&self, name: &Vec<u8>) -> (r: Option<usize>)
        requires
            self.wf(),
        ensures
            match r {
                Some(i) => i < self.collections@.len() && self.collections@[i as int].name@
                    == name@ && self.store().contains_key(name@) && self.store()[name@]
                    == self.collections@[i as int]@,
                None => !self.store().contains_key(name@),
            },
    {
        proof {
            lemma_store_of_elems(self.collections@);
        }
        let mut i: usize = 0;
        while i < self.collections.len()
            invariant
                self.wf(),
                i <= self.collections@.len(),
                forall|j: int| 0 <= j < i ==> self.collections@[j].name@ != name@,
            decreases self.collections@.len() - i,
        {
            if names_eq(&self.collections[i].name, name) {
                return Some(i);
            }
            i = i + 1;
        }
        proof {
            assert(!has_name(self.collections@, name@));
        }
        None
    }
}

/// Whether a set of index models holds no element twice, listed as `s`.
pub open spec fn unique_indexes(s: Seq<crate::operation::IndexModel>) -> bool {
    forall|a: int, b: int| 0 <= a < b < s.len() ==> s[a] != s[b]
}

/// Appending an index model inserts it into the set of indexes.
pub proof fn lemma_index_set_push(s: Seq<crate::operation::IndexModel>, x: crate::operation::IndexModel)
    ensures
        s.push(x).to_set() == s.to_set().insert(x),
{
    assert forall|y: crate::operation::IndexModel|
        #[trigger] s.push(x).to_set().contains(y) == s.to_set().insert(x).contains(y) by {
        if s.push(x).contains(y) {
            let i = choose|i: int| 0 <= i < s.push(x).len() && s.push(x)[i] == y;
            if i < s.len() {
                assert(s[i] == y);
            }
        }
        if s.contains(y) {
            let i = choose|i: int| 0 <= i < s.len() && s[i] == y;
            assert(s.push(x)[i] == y);
        }
        if y == x {
            assert(s.push(x)[s.len() as int] == y);
        }
    }
    assert(s.push(x).to_set() =~= s.to_set().insert(x));
}

/// Removing the index model at `j` removes it from the set of indexes.
pub proof fn lemma_index_set_remove(s: Seq<crate::operation::IndexModel>, j: int)
    requires
        0 <= j < s.len(),
        unique_indexes(s),
    ensures
        s.remove(j).to_set() == s.to_set().remove(s[j]),
{
    let t = s.remove(j);
    assert forall|y: crate::operation::IndexModel|
        #[trigger] t.to_set().contains(y) == s.to_set().remove(s[j]).contains(y) by {
        if t.contains(y) {
            let i = choose|i: int| 0 <= i < t.len() && t[i] == y;
            let si: int = if i < j { i } else { i + 1 };
            assert(s[si] == y);
            assert(y != s[j]);
        }
        if s.contains(y) && y != s[j] {
            let i = choose|i: int| 0 <= i < s.len() && s[i] == y;
            let ti: int = if i < j { i } else { i - 1 };
            assert(t[ti] == y);
        }
    }
    assert(t.to_set() =~= s.to_set().remove(s[j]));
}

/// How a single schema operation relates the store before to the store after
/// and to the returned result: an enabled operation succeeds and applies, a
/// blocked one changes nothing and reports its error.
pub open spec fn op_outcome_matches(
    pre: Map<Seq<u8>, CollectionModel>,
    post: Map<Seq<u8>, CollectionModel>,
    m: OpModel,
    r: Result<(), SchemaError>,
) -> bool {
    if op_enabled(pre, m) {
        r is Ok && post == op_apply(pre, m)
    } else {
        post == pre && (r matches Err(e) && e@ == op_error(pre, m))
    }
}

impl CollectionState {
    /// The position of the index named by `id`, if this collection holds it.
    fn index_position(&self, id: &IndexId) -> (r: Option<usize>)
        requires
            self.wf(),
        ensures
            match r {
                Some(j) => j < self.indexes@.len() && self.index_seq()[j as int] == id@
                    && self@.indexes.contains(id@),
                None => !self@.indexes.contains(id@),
            },
    {
        let mut k: usize = 0;
        while k < self.indexes.len()
            invariant
                k <= self.indexes@.len(),
                forall|j: int| 0 <= j < k ==> self.index_seq()[j] != id@,
            decreases self.indexes@.len() - k,
        {
            if index_ids_eq(&self.indexes[k], id) {
                proof {
                    assert(self.index_seq()[k as int] == id@);
                }
                return Some(k);
            }
            k = k + 1;
        }
        proof {
            if self@.indexes.contains(id@) {
                let j = choose|j: int|
                    0 <= j < self.index_seq().len() && self.index_seq()[j] == id@;
                assert(self.index_seq()[j] != id@);
            }
        }
        None
    }

    /// Whether this collection already holds the index named by `id`.
    fn has_index(&self, id: &IndexId) -> (r: bool)
        ensures
            r == self@.indexes.contains(id@),
    {
        let mut k: usize = 0;
        while k < self.indexes.len()
            invariant
                k <= self.indexes@.len(),
                forall|j: int| 0 <= j < k ==> self.index_seq()[j] != id@,
            decreases self.indexes@.len() - k,
        {
            if index_ids_eq(&self.indexes[k], id) {
                proof {
                    assert(self.index_seq()[k as int] == id@);
                }
                return true;
            }
            k = k + 1;
        }
        proof {
            if self@.indexes.contains(id@) {
                let j = choose|j: int|
                    0 <= j < self.index_seq().len() && self.index_seq()[j] == id@;
                assert(self.index_seq()[j] != id@);
            }
        }
        false
    }
}

impl DatabaseState {
    /// Removes the collection at position `i`.
    fn remove_at(&mut self, i: usize)
        requires
            old(self).wf(),
            i < old(self).collections@.len(),
        ensures
            final(self).wf(),
            final(self).collections@ == old(self).collections@.remove(i as int),
            final(self).store() == old(self).store().remove(
                old(self).collections@[i as int].name@,
            ),
    {
        proof {
            lemma_store_remove(old(self).collections@, i as int);
        }
        let _ = self.collections.remove(i);
    }

    /// The position of some non-system collection, if one exists.
    fn find_non_system(&self) -> (r: Option<usize>)
        ensures
            match r {
                Some(k) => k < self.collections@.len()
                    && !self.collections@[k as int].is_system,
                None => forall|j: int|
                    0 <= j < self.collections@.len() ==> (
                    #[trigger] self.collections@[j]).is_system,
            },
    {
        let mut i: usize = 0;
        while i < self.collections.len()
            invariant
                i <= self.collections@.len(),
                forall|j: int| 0 <= j < i ==> (#[trigger] self.collections@[j]).is_system,
            decreases self.collections@.len() - i,
        {
            if !self.collections[i].is_system {
                return Some(i);
            }
            i = i + 1;
        }
        None
    }

    /// Creates a collection of the given kind: enabled exactly when no
    /// collection bears the name yet.
    fn create_coll(&mut self, name: &Vec<u8>, is_edge: bool) -> (r: Result<(), SchemaError>)
        requires
            old(self).wf(),
        ensures
            final(self).wf(),
            ({
                let m = if is_edge {
                    OpModel::CreateEdgeCollection { name: name@ }
                } else {
                    OpModel::CreateCollection { name: name@ }
                };
                op_outcome_matches(old(self).store(), final(self).store(), m, r)
            }),
    {
        match self.position_of(name) {
            Some(_) => Err(SchemaError::AlreadyExists { name: clone_name(name) }),
            None => {
                let c = CollectionState {
                    name: clone_name(name),
                    is_edge,
                    is_system: false,
                    indexes: Vec::new(),
                };
                proof {
                    lemma_store_of_elems(self.collections@);
                    lemma_store_push(self.collections@, c);
                    assert(c@.indexes =~= Set::<crate::operation::IndexModel>::empty());
                    assert(c@ == CollectionModel::fresh(is_edge));
                }
                self.collections.push(c);
                Ok(())
            },
        }
    }

    /// Drops the collection of the given kind: enabled exactly when a
    /// collection of that kind bears the name.
    fn drop_coll(&mut self, name: &Vec<u8>, want_edge: bool) -> (r: Result<(), SchemaError>)
        requires
            old(self).wf(),
        ensures
            final(self).wf(),
            ({
                let m = if want_edge {
                    OpModel::DropEdgeCollection { name: name@ }
                } else {
                    OpModel::DropCollection { name: name@ }
                };
                op_outcome_matches(old(self).store(), final(self).store(), m, r)
            }),
    {
        match self.position_of(name) {
            None => Err(SchemaError::NotFound { name: clone_name(name) }),
            Some(i) => {
                if self.collections[i].is_edge != want_edge {
                    return Err(SchemaError::NotFound { name: clone_name(name) });
                }
                self.remove_at(i);
                Ok(())
            },
        }
    }

    /// Creates an index: enabled exactly when the collection exists and does
    /// not hold the identity yet.
    fn create_index(&mut self, collection: &Vec<u8>, id: IndexId) -> (r: Result<(), SchemaError>)
        requires
            old(self).wf(),
        ensures
            final(self).wf(),
            op_outcome_matches(
                old(self).store(),
                final(self).store(),
                OpModel::CreateIndex { collection: collection@, index: id@ },
                r,
            ),
    {
        match self.position_of(collection) {
            None => Err(SchemaError::NotFound { name: clone_name(collection) }),
            Some(i) => {
                if self.collections[i].has_index(&id) {
                    return Err(SchemaError::AlreadyExists { name: clone_name(collection) });
                }
                let ghost pre = self.collections@;
                let ghost idm = id@;
                let mut c = self.collections.remove(i);
                let ghost cpre = c;
                c.indexes.push(id);
                proof {
                    assert(c.index_seq() =~= cpre.index_seq().push(idm));
                    lemma_index_set_push(cpre.index_seq(), idm);
                    assert(c@.indexes == cpre@.indexes.insert(idm));
                    assert forall|a: int, b: int|
                        0 <= a < b < c.index_seq().len() implies c.index_seq()[a]
                        != c.index_seq()[b] by {
                        if b == c.index_seq().len() - 1 {
                            if cpre.index_seq()[a] == idm {
                                assert(cpre@.indexes.contains(idm));
                            }
                        }
                    }
                }
                self.collections.insert(i, c);
                proof {
                    assert(self.collections@ =~= pre.update(i as int, c));
                    lemma_store_update(pre, i as int, c);
                    assert forall|k: int|
                        0 <= k < self.collections@.len() implies (
                        #[trigger] self.collections@[k]).wf() by {
                        if k != i {
                            assert(self.collections@[k] == pre[k]);
                        }
                    }
                }
                Ok(())
            },
        }
    }

    /// Drops an index: enabled exactly when the collection exists and holds
    /// the identity.
    fn drop_index(&mut self, collection: &Vec<u8>, id: &IndexId) -> (r: Result<(), SchemaError>)
        requires
            old(self).wf(),
        ensures
            final(self).wf(),
            op_outcome_matches(
                old(self).store(),
                final(self).store(),
                OpModel::DropIndex { collection: collection@, index: id@ },
                r,
            ),
    {
        match self.position_of(collection) {
            None => Err(SchemaError::NotFound { name: clone_name(collection) }),
            Some(i) => {
                let ghost pre = self.collections@;
                let ghost idm = id@;
                match self.collections[i].index_position(id) {
                    None => Err(SchemaError::NotFound { name: clone_name(collection) }),
                    Some(j) => {
                        let mut c = self.collections.remove(i);
                        let ghost cpre = c;
                        let _ = c.indexes.remove(j);
                        proof {
                            assert(c.index_seq() =~= cpre.index_seq().remove(j as int));
                            lemma_index_set_remove(cpre.index_seq(), j as int);
                            assert(c@.indexes == cpre@.indexes.remove(idm));
                            assert forall|a: int, b: int|
                                0 <= a < b < c.index_seq().len() implies c.index_seq()[a]
                                != c.index_seq()[b] by {
                                let sa: int = if a < j { a } else { a + 1 };
                                let sb: int = if b < j { b } else { b + 1 };
                                assert(c.index_seq()[a] == cpre.index_seq()[sa]);
                                assert(c.index_seq()[b] == cpre.index_seq()[sb]);
                            }
                        }
                        self.collections.insert(i, c);
                        proof {
                            assert(self.collections@ =~= pre.update(i as int, c));
                            lemma_store_update(pre, i as int, c);
                            assert forall|k: int|
                                0 <= k < self.collections@.len() implies (
                            #[trigger] self.collections@[k]).wf() by {
                                if k != i {
                                    assert(self.collections@[k] == pre[k]);
                                }
                            }
                        }
                        Ok(())
                    },
                }
            },
        }
    }
}

/// One persisted ledger record: an applied migration.
pub struct LedgerEntry {
    pub version: u64,
    pub name: Vec<u8>,
    pub applied_at: u64,
}

/// Mathematical value of a [`LedgerEntry`].
pub struct LedgerEntryModel {
    pub version: u64,
    pub name: Seq<u8>,
    pub applied_at: u64,
}

impl View for LedgerEntry {
    type V = LedgerEntryModel;

    open spec fn view(&self) -> LedgerEntryModel {
        LedgerEntryModel { version: self.version, name: self.name@, applied_at: self.applied_at }
    }
}

/// Whether some entry of `s` records `v`.
pub open spec fn has_version(s: Seq<LedgerEntry>, v: u64) -> bool {
    exists|i: int| 0 <= i < s.len() && s[i].version == v
}

/// No two entries of `s` record the same version.
pub open spec fn unique_versions(s: Seq<LedgerEntry>) -> bool {
    forall|i: int, j: int| 0 <= i < j < s.len() ==> s[i].version != s[j].version
}

/// The ledger map a list of entries stands for: each applied version to its
/// record.
pub open spec fn ledger_of(s: Seq<LedgerEntry>) -> Map<u64, LedgerEntryModel>
    decreases s.len(),
{
    if s.len() == 0 {
        Map::empty()
    } else {
        ledger_of(s.drop_last()).insert(s.last().version, s.last()@)
    }
}

/// The ledger map has exactly the versions of the list as keys, and under
/// each version the entry that records it.
pub proof fn lemma_ledger_of_elems(s: Seq<LedgerEntry>)
    requires
        unique_versions(s),
    ensures
        forall|v: u64| #[trigger] ledger_of(s).contains_key(v) <==> has_version(s, v),
        forall|i: int|
            0 <= i < s.len() ==> ledger_of(s).contains_key(#[trigger] s[i].version) && ledger_of(
                s,
            )[s[i].version] == s[i]@,
    decreases s.len(),
{
    if s.len() > 0 {
        let front = s.drop_last();
        lemma_ledger_of_elems(front);
        assert forall|v: u64| #[trigger] ledger_of(s).contains_key(v) implies has_version(
            s,
            v,
        ) by {
            if v == s.last().version {
                assert(s[s.len() - 1].version == v);
            } else {
                assert(ledger_of(front).contains_key(v));
                let i = choose|i: int| 0 <= i < front.len() && front[i].version == v;
                assert(front[i] == s[i]);
                assert(s[i].version == v);
            }
        }
        assert forall|v: u64| has_version(s, v) implies ledger_of(s).contains_key(v) by {
            let i = choose|i: int| 0 <= i < s.len() && s[i].version == v;
            if i < s.len() - 1 {
                assert(front[i].version == v);
                assert(has_version(front, v));
            }
        }
        assert forall|i: int| 0 <= i < s.len() implies ledger_of(s).contains_key(
            #[trigger] s[i].version,
        ) && ledger_of(s)[s[i].version] == s[i]@ by {
            if i < s.len() - 1 {
                assert(front[i] == s[i]);
                assert(s[i].version != s.last().version);
            }
        }
    }
}

/// Appending an entry with a fresh version inserts it into the ledger map.
pub proof fn lemma_ledger_push(s: Seq<LedgerEntry>, e: LedgerEntry)
    requires
        unique_versions(s),
        !has_version(s, e.version),
    ensures
        unique_versions(s.push(e)),
        ledger_of(s.push(e)) == ledger_of(s).insert(e.version, e@),
{
    let t = s.push(e);
    assert forall|i: int, j: int| 0 <= i < j < t.len() implies t[i].version != t[j].version by {
        if j == t.len() - 1 {
            assert(t[i] == s[i]);
            if s[i].version == e.version {
                assert(has_version(s, e.version));
            }
        } else {
            assert(t[i] == s[i] && t[j] == s[j]);
        }
    }
    assert(t.drop_last() =~= s);
}

/// Removing the entry at `i` removes its version from the ledger map.
pub proof fn lemma_ledger_remove(s: Seq<LedgerEntry>, i: int)
    requires
        unique_versions(s),
        0 <= i < s.len(),
    ensures
        unique_versions(s.remove(i)),
        ledger_of(s.remove(i)) == ledger_of(s).remove(s[i].version),
{
    let t = s.remove(i);
    assert forall|a: int, b: int| 0 <= a < b < t.len() implies t[a].version != t[b].version by {
        let sa: int = if a < i { a } else { a + 1 };
        let sb: int = if b < i { b } else { b + 1 };
        assert(t[a] == s[sa] && t[b] == s[sb]);
    }
    lemma_ledger_of_elems(s);
    lemma_ledger_of_elems(t);
    let rhs = ledger_of(s).remove(s[i].version);
    assert forall|v: u64| #[trigger] ledger_of(t).contains_key(v) == rhs.contains_key(v) by {
        if ledger_of(t).contains_key(v) {
            let j = choose|j: int| 0 <= j < t.len() && t[j].version == v;
            let sj: int = if j < i { j } else { j + 1 };
            assert(t[j] == s[sj]);
            assert(s[sj].version == v);
            assert(v != s[i].version);
        }
        if rhs.contains_key(v) {
            let j = choose|j: int| 0 <= j < s.len() && s[j].version == v;
            assert(j != i);
            let tj: int = if j < i { j } else { j - 1 };
            assert(t[tj] == s[j]);
            assert(t[tj].version == v);
        }
    }
    assert forall|v: u64| #[trigger] ledger_of(t).contains_key(v) implies ledger_of(t)[v]
        == rhs[v] by {
        let j = choose|j: int| 0 <= j < t.len() && t[j].version == v;
        let sj: int = if j < i { j } else { j + 1 };
        assert(t[j] == s[sj]);
        assert(ledger_of(t)[t[j].version] == t[j]@);
        assert(ledger_of(s)[s[sj].version] == s[sj]@);
        assert(v != s[i].version);
    }
    assert(ledger_of(t) =~= rhs);
}

/// The mathematical values of a list of operations.
pub open spec fn ops_of(s: Seq<Operation>) -> Seq<OpModel> {
    s.map_values(|o: Operation| o@)
}

/// Mathematical value of a whole [`VersionedDatabase`] session.
pub struct DbModel {
    pub store: Map<Seq<u8>, CollectionModel>,
    pub ledger: Map<u64, LedgerEntryModel>,
    pub op_log: Seq<OpModel>,
    pub clock: u64,
    pub ledger_collection: Seq<char>,
}

impl DbModel {
    /// The same session with another store.
    pub open spec fn with_store(self, store: Map<Seq<u8>, CollectionModel>) -> DbModel {
        DbModel {
            store,
            ledger: self.ledger,
            op_log: self.op_log,
            clock: self.clock,
            ledger_collection: self.ledger_collection,
        }
    }

    /// The same session with another ledger.
    pub open spec fn with_ledger(self, ledger: Map<u64, LedgerEntryModel>) -> DbModel {
        DbModel {
            store: self.store,
            ledger,
            op_log: self.op_log,
            clock: self.clock,
            ledger_collection: self.ledger_collection,
        }
    }

    /// The same session after one more operation call was logged.
    pub open spec fn log(self, op: OpModel) -> DbModel {
        DbModel {
            store: self.store,
            ledger: self.ledger,
            op_log: self.op_log.push(op),
            clock: self.clock,
            ledger_collection: self.ledger_collection,
        }
    }

    /// The same session with `version` recorded as applied.
    pub open spec fn record(self, version: u64, name: Seq<u8>) -> DbModel {
        self.with_ledger(
            self.ledger.insert(
                version,
                LedgerEntryModel { version, name, applied_at: self.clock },
            ),
        )
    }

    /// The same session with `version` no longer recorded as applied.
    pub open spec fn erase(self, version: u64) -> DbModel {
        self.with_ledger(self.ledger.remove(version))
    }
}

/// One operation call against a session: the call is logged, and the store
/// moves exactly when the operation is enabled.
pub open spec fn step_result(db: DbModel, op: OpModel) -> (DbModel, Result<(), SchemaErrorModel>) {
    if op_enabled(db.store, op) {
        (db.log(op).with_store(op_apply(db.store, op)), Ok(()))
    } else {
        (db.log(op), Err(op_error(db.store, op)))
    }
}

/// Whether an executable schema result stands for the model result.
pub open spec fn schema_res_matches(
    r: Result<(), SchemaError>,
    m: Result<(), SchemaErrorModel>,
) -> bool {
    match r {
        Ok(_) => m is Ok,
        Err(e) => m matches Err(me) && e@ == me,
    }
}

/// A whole operation list run in listed order, stopping at the first
/// failure. Every attempted call is logged, the failing one included.
pub open spec fn run_ops(db: DbModel, ops: Seq<OpModel>) -> (DbModel, Result<
    (),
    SchemaErrorModel,
>)
    decreases ops.len(),
{
    if ops.len() == 0 {
        (db, Ok::<(), SchemaErrorModel>(()))
    } else {
        let step = step_result(db, ops[0]);
        if step.1 is Ok {
            run_ops(step.0, ops.drop_first())
        } else {
            step
        }
    }
}

/// The operation calls a run of `ops` makes: all of them when every one
/// succeeds, else the successful prefix and the first failing call.
pub open spec fn attempted_ops(db: DbModel, ops: Seq<OpModel>) -> Seq<OpModel>
    decreases ops.len(),
{
    if ops.len() == 0 {
        Seq::empty()
    } else {
        let step = step_result(db, ops[0]);
        if step.1 is Ok {
            seq![ops[0]] + attempted_ops(step.0, ops.drop_first())
        } else {
            seq![ops[0]]
        }
    }
}

/// A run of operations touches only the store and the operation log: the
/// ledger, the clock and the ledger collection name stay; the log grows by
/// exactly the attempted calls; and a fully successful run attempts every
/// operation.
pub proof fn lemma_run_ops_frame(db: DbModel, ops: Seq<OpModel>)
    ensures
        run_ops(db, ops).0.ledger == db.ledger,
        run_ops(db, ops).0.clock == db.clock,
        run_ops(db, ops).0.ledger_collection == db.ledger_collection,
        run_ops(db, ops).0.op_log == db.op_log + attempted_ops(db, ops),
        run_ops(db, ops).1 is Ok ==> attempted_ops(db, ops) == ops,
    decreases ops.len(),
{
    if ops.len() == 0 {
        assert(db.op_log + attempted_ops(db, ops) =~= db.op_log);
    } else {
        let step = step_result(db, ops[0]);
        if step.1 is Ok {
            lemma_run_ops_frame(step.0, ops.drop_first());
            assert(step.0.op_log =~= db.op_log + seq![ops[0]]);
            assert(db.op_log + (seq![ops[0]] + attempted_ops(step.0, ops.drop_first())) =~= (
            db.op_log + seq![ops[0]]) + attempted_ops(step.0, ops.drop_first()));
            if run_ops(db, ops).1 is Ok {
                assert(seq![ops[0]] + ops.drop_first() =~= ops);
            }
        } else {
            assert(run_ops(db, ops).0.op_log =~= db.op_log + seq![ops[0]]);
        }
    }
}

/// Two sessions with the same store run the same operations the same way:
/// the stores move together, the result is the same, and so are the
/// attempted calls.
pub proof fn lemma_run_ops_agree(a: DbModel, b: DbModel, ops: Seq<OpModel>)
    requires
        a.store == b.store,
    ensures
        run_ops(a, ops).0.store == run_ops(b, ops).0.store,
        run_ops(a, ops).1 == run_ops(b, ops).1,
        attempted_ops(a, ops) == attempted_ops(b, ops),
    decreases ops.len(),
{
    if ops.len() > 0 {
        let sa = step_result(a, ops[0]);
        let sb = step_result(b, ops[0]);
        if sa.1 is Ok {
            lemma_run_ops_agree(sa.0, sb.0, ops.drop_first());
        }
    }
}

/// The system collections of a store: what truncation keeps.
pub open spec fn system_part(
    store: Map<Seq<u8>, CollectionModel>,
) -> Map<Seq<u8>, CollectionModel> {
    Map::new(|n: Seq<u8>| store.contains_key(n) && store[n].is_system, |n: Seq<u8>| store[n])
}

/// Administrative description of one collection.
pub struct CollectionInfo {
    pub name: Vec<u8>,
    pub is_system: bool,
    pub is_edge: bool,
}

/// The session the engine drives: schema state, the persisted ledger, and
/// the log of every operation call.
pub struct VersionedDatabase {
    pub state: DatabaseState,
    pub ledger: Vec<LedgerEntry>,
    pub ledger_collection: String,
    pub clock: u64,
    pub op_log: Vec<Operation>,
}

impl View for VersionedDatabase {
    type V = DbModel;

    open spec fn view(&self) -> DbModel {
        DbModel {
            store: self.state.store(),
            ledger: ledger_of(self.ledger@),
            op_log: ops_of(self.op_log@),
            clock: self.clock,
            ledger_collection: self.ledger_collection@,
        }
    }
}

impl VersionedDatabase {
    /// Collection names and ledger versions are unique.
    pub open spec fn wf(self) -> bool {
        self.state.wf() && unique_versions(self.ledger@)
    }

    /// Opens a fresh session under the configured ledger collection name:
    /// nothing applied, nothing logged. The ledger collection itself is the
    /// session's own bookkeeping and is held apart from the user schema.
    pub fn init(config: &Config) -> (db: VersionedDatabase)
        ensures
            db.wf(),
            db@.store == Map::<Seq<u8>, CollectionModel>::empty(),
            db@.ledger == Map::<u64, LedgerEntryModel>::empty(),
            db@.op_log == Seq::<OpModel>::empty(),
            db@.clock == 0,
            db@.ledger_collection == config.schema_collection_name@,
    {
        let db = VersionedDatabase {
            state: DatabaseState::empty(),
            ledger: Vec::new(),
            ledger_collection: config.schema_collection_name.clone(),
            clock: 0,
            op_log: Vec::new(),
        };
        proof {
            assert(db@.op_log =~= Seq::<OpModel>::empty());
        }
        db
    }

    /// Whether `version` is recorded as applied.
    pub fn is_applied(&self, version: u64) -> (r: bool)
        requires
            self.wf(),
        ensures
            r == self@.ledger.contains_key(version),
    {
        proof {
            lemma_ledger_of_elems(self.ledger@);
        }
        let mut i: usize = 0;
        while i < self.ledger.len()
            invariant
                i <= self.ledger@.len(),
                forall|j: int| 0 <= j < i ==> self.ledger@[j].version != version,
            decreases self.ledger@.len() - i,
        {
            if self.ledger[i].version == version {
                return true;
            }
            i = i + 1;
        }
        proof {
            if self@.ledger.contains_key(version) {
                assert(has_version(self.ledger@, version));
            }
        }
        false
    }

    /// Records `version` as applied, stamped with the session clock. Refused
    /// if an entry for the version already exists: the ledger checks this
    /// rather than assuming the caller's discipline.
    pub fn record_applied(&mut self, version: u64, name: &Vec<u8>) -> (r: Result<(), LedgerError>)
        requires
            old(self).wf(),
        ensures
            final(self).wf(),
            !old(self)@.ledger.contains_key(version) ==> r is Ok && final(self)@ == old(
                self,
            )@.record(version, name@),
            old(self)@.ledger.contains_key(version) ==> r == Err::<(), LedgerError>(
                LedgerError::DuplicateVersion { version },
            ) && final(self)@ == old(self)@,
    {
        if self.is_applied(version) {
            return Err(LedgerError::DuplicateVersion { version });
        }
        let e = LedgerEntry { version, name: clone_name(name), applied_at: self.clock };
        proof {
            lemma_ledger_of_elems(self.ledger@);
            if has_version(self.ledger@, version) {
                assert(self@.ledger.contains_key(version));
            }
            lemma_ledger_push(self.ledger@, e);
        }
        self.ledger.push(e);
        Ok(())
    }

    /// Removes the record for `version`. Refused if no entry for the version
    /// exists.
    pub fn remove_applied(&mut self, version: u64) -> (r: Result<(), LedgerError>)
        requires
            old(self).wf(),
        ensures
            final(self).wf(),
            old(self)@.ledger.contains_key(version) ==> r is Ok && final(self)@ == old(
                self,
            )@.erase(version),
            !old(self)@.ledger.contains_key(version) ==> r == Err::<(), LedgerError>(
                LedgerError::MissingVersion { version },
            ) && final(self)@ == old(self)@,
    {
        proof {
            lemma_ledger_of_elems(self.ledger@);
        }
        let mut found: Option<usize> = None;
        let mut i: usize = 0;
        while i < self.ledger.len()
            invariant
                i <= self.ledger@.len(),
                match found {
                    Some(k) => k < self.ledger@.len() && self.ledger@[k as int].version
                        == version,
                    None => forall|j: int| 0 <= j < i ==> self.ledger@[j].version != version,
                },
            decreases self.ledger@.len() - i,
        {
            if self.ledger[i].version == version {
                found = Some(i);
                break;
            }
            i = i + 1;
        }
        match found {
            Some(k) => {
                proof {
                    lemma_ledger_remove(self.ledger@, k as int);
                }
                let _ = self.ledger.remove(k);
                Ok(())
            },
            None => {
                proof {
                    if self@.ledger.contains_key(version) {
                        assert(has_version(self.ledger@, version));
                    }
                }
                Err(LedgerError::MissingVersion { version })
            },
        }
    }

    /// Executes one schema operation through the session: the call is always
    /// logged; the store moves exactly when the operation is enabled, and a
    /// blocked operation reports why.
    pub fn execute(&mut self, op: &Operation) -> (r: Result<(), SchemaError>)
        requires
            old(self).wf(),
        ensures
            final(self).wf(),
            final(self)@ == step_result(old(self)@, op@).0,
            schema_res_matches(r, step_result(old(self)@, op@).1),
    {
        let ghost pre = self@;
        self.op_log.push(clone_op(op));
        proof {
            assert(ops_of(self.op_log@) =~= pre.op_log.push(op@));
        }
        match op {
            Operation::CreateCollection { name } => self.state.create_coll(name, false),
            Operation::CreateEdgeCollection { name } => self.state.create_coll(name, true),
            Operation::DropCollection { name } => self.state.drop_coll(name, false),
            Operation::DropEdgeCollection { name } => self.state.drop_coll(name, true),
            Operation::CreateIndex { collection, fields, index_kind } => self.state.create_index(
                collection,
                IndexId { fields: clone_names(fields), kind: *index_kind },
            ),
            Operation::DropIndex { collection, index_id } => self.state.drop_index(
                collection,
                index_id,
            ),
        }
    }

    /// Lists the collections the session can see, in storage order.
    pub fn accessible_collections(&self) -> (r: Vec<CollectionInfo>)
        ensures
            r@.len() == self.state.collections@.len(),
            forall|i: int|
                0 <= i < r@.len() ==> (#[trigger] r@[i]).name@ == self.state.collections@[i].name@
                    && r@[i].is_system == self.state.collections@[i].is_system && r@[i].is_edge
                    == self.state.collections@[i].is_edge,
    {
        let mut r: Vec<CollectionInfo> = Vec::new();
        let mut i: usize = 0;
        while i < self.state.collections.len()
            invariant
                i <= self.state.collections@.len(),
                r@.len() == i,
                forall|j: int|
                    0 <= j < i ==> (#[trigger] r@[j]).name@ == self.state.collections@[j].name@
                        && r@[j].is_system == self.state.collections@[j].is_system && r@[j].is_edge
                        == self.state.collections@[j].is_edge,
            decreases self.state.collections@.len() - i,
        {
            let c = &self.state.collections[i];
            r.push(
                CollectionInfo {
                    name: clone_name(&c.name),
                    is_system: c.is_system,
                    is_edge: c.is_edge,
                },
            );
            i = i + 1;
        }
        r
    }

    /// Administrative passthrough: drops the named collection of either
    /// kind, touching neither the ledger nor the operation log.
    pub fn drop_collection(&mut self, name: &Vec<u8>) -> (r: Result<(), SchemaError>)
        requires
            old(self).wf(),
        ensures
            final(self).wf(),
            old(self)@.store.contains_key(name@) ==> r is Ok && final(self)@ == old(
                self,
            )@.with_store(old(self)@.store.remove(name@)),
            !old(self)@.store.contains_key(name@) ==> (r matches Err(e) && e@
                == SchemaErrorModel::NotFound { name: name@ }) && final(self)@ == old(self)@,
    {
        match self.state.position_of(name) {
            None => Err(SchemaError::NotFound { name: clone_name(name) }),
            Some(i) => {
                self.state.remove_at(i);
                Ok(())
            },
        }
    }

    /// Drops every non-system collection, bypassing the ledger entirely:
    /// maintenance, not migration, so nothing is logged or recorded.
    pub fn truncate(&mut self)
        requires
            old(self).wf(),
        ensures
            final(self).wf(),
            final(self)@ == old(self)@.with_store(system_part(old(self)@.store)),
    {
        let mut idx = self.state.find_non_system();
        while idx.is_some()
            invariant
                self.wf(),
                self.ledger@ == old(self).ledger@,
                self.op_log@ == old(self).op_log@,
                self.clock == old(self).clock,
                self.ledger_collection == old(self).ledger_collection,
                system_part(self.state.store()) == system_part(old(self)@.store),
                match idx {
                    Some(k) => k < self.state.collections@.len()
                        && !self.state.collections@[k as int].is_system,
                    None => forall|j: int|
                        0 <= j < self.state.collections@.len() ==> (
                        #[trigger] self.state.collections@[j]).is_system,
                },
            decreases self.state.collections@.len(),
        {
            let k = idx.unwrap();
            let ghost prestore = self.state.store();
            let ghost klen = self.state.collections@.len();
            proof {
                lemma_store_of_elems(self.state.collections@);
                assert(prestore[self.state.collections@[k as int].name@]
                    == self.state.collections@[k as int]@);
            }
            self.state.remove_at(k);
            proof {
                assert(system_part(self.state.store()) =~= system_part(prestore));
            }
            idx = self.state.find_non_system();
        }
        proof {
            lemma_store_of_elems(self.state.collections@);
            assert forall|n: Seq<u8>| #[trigger] self.state.store().contains_key(n) implies
                self.state.store()[n].is_system by {
                let i = choose|i: int|
                    0 <= i < self.state.collections@.len() && self.state.collections@[i].name@
                        == n;
                assert(self.state.store()[self.state.collections@[i].name@]
                    == self.state.collections@[i]@);
            }
            assert(self.state.store() =~= system_part(self.state.store()));
        }
    }
}

impl Operation {
    /// Executes this operation against the live session: enabled when its
    /// target allows it, reporting the typed failure otherwise, and always
    /// logged.
    pub fn apply(&self, db: &mut VersionedDatabase) -> (r: Result<(), SchemaError>)
        requires
            old(db).wf(),
        ensures
            final(db).wf(),
            final(db)@ == step_result(old(db)@, self@).0,
            schema_res_matches(r, step_result(old(db)@, self@).1),
    {
        db.execute(self)
    }
}

} // verus!
