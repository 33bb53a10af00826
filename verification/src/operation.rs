//! Reversible schema primitives.
//!
//! An [`Operation`] is a single schema change against the database: creating
//! or dropping a (document or edge) collection, or creating or dropping an
//! index. Every operation has exactly one structural inverse, computed by
//! [`Operation::inverse`]. The meaning of an operation is given by the spec
//! functions [`op_enabled`], [`op_apply`] and [`op_error`] over a
//! mathematical store model: a map from collection names to collection
//! contents. Names are byte strings (ASCII labels).

use vstd::prelude::*;

verus! {

/// The kind of index an operation creates or drops.
#[derive(Clone, Copy, Debug, PartialEq, Eq, Structural)]
pub enum IndexKind {
    Hash,
    Persistent,
    Skiplist,
    Ttl,
    Geo,
    Fulltext,
}

/// What identifies an index within its collection: the ordered list of the
/// fields it covers and its kind. Creating the same definition twice is a
/// conflict, and dropping a definition names exactly one index.
#[derive(Clone, Debug, PartialEq, Eq)]
pub struct IndexId {
    pub fields: Vec<Vec<u8>>,
    pub kind: IndexKind,
}

/// Mathematical value of an [`IndexId`].
pub struct IndexModel {
    pub fields: Seq<Seq<u8>>,
    pub kind: IndexKind,
}

/// The mathematical value of a list of names.
pub open spec fn names_view(s: Seq<Vec<u8>>) -> Seq<Seq<u8>> {
    s.map_values(|f: Vec<u8>| f@)
}

impl View for IndexId {
    type V = IndexModel;

    open spec fn view(&self) -> IndexModel {
        IndexModel { fields: names_view(self.fields@), kind: self.kind }
    }
}

/// A single reversible schema primitive.
#[derive(Clone, Debug, PartialEq, Eq)]
pub enum Operation {
    CreateCollection { name: Vec<u8> },
    DropCollection { name: Vec<u8> },
    CreateEdgeCollection { name: Vec<u8> },
    DropEdgeCollection { name: Vec<u8> },
    CreateIndex { collection: Vec<u8>, fields: Vec<Vec<u8>>, index_kind: IndexKind },
    DropIndex { collection: Vec<u8>, index_id: IndexId },
}

/// Mathematical value of an [`Operation`].
pub enum OpModel {
    CreateCollection { name: Seq<u8> },
    DropCollection { name: Seq<u8> },
    CreateEdgeCollection { name: Seq<u8> },
    DropEdgeCollection { name: Seq<u8> },
    CreateIndex { collection: Seq<u8>, index: IndexModel },
    DropIndex { collection: Seq<u8>, index: IndexModel },
}

impl View for Operation {
    type V = OpModel;

    open spec fn view(&self) -> OpModel {
        match self {
            Operation::CreateCollection { name } => OpModel::CreateCollection { name: name@ },
            Operation::DropCollection { name } => OpModel::DropCollection { name: name@ },
            Operation::CreateEdgeCollection { name } => OpModel::CreateEdgeCollection {
                name: name@,
            },
            Operation::DropEdgeCollection { name } => OpModel::DropEdgeCollection { name: name@ },
            Operation::CreateIndex { collection, fields, index_kind } => OpModel::CreateIndex {
                collection: collection@,
                index: IndexModel { fields: names_view(fields@), kind: *index_kind },
            },
            Operation::DropIndex { collection, index_id } => OpModel::DropIndex {
                collection: collection@,
                index: index_id@,
            },
        }
    }
}

impl OpModel {
    /// The structural inverse: create and drop variants swap, carrying the
    /// same payload. The mapping is total and is its own inverse.
    pub open spec fn inverse(self) -> OpModel {
        match self {
            OpModel::CreateCollection { name } => OpModel::DropCollection { name },
            OpModel::DropCollection { name } => OpModel::CreateCollection { name },
            OpModel::CreateEdgeCollection { name } => OpModel::DropEdgeCollection { name },
            OpModel::DropEdgeCollection { name } => OpModel::CreateEdgeCollection { name },
            OpModel::CreateIndex { collection, index } => OpModel::DropIndex { collection, index },
            OpModel::DropIndex { collection, index } => OpModel::CreateIndex { collection, index },
        }
    }
}

/// Inverting an operation twice yields the operation itself.
pub proof fn lemma_inverse_involution(op: OpModel)
    ensures
        op.inverse().inverse() == op,
{
}

/// Clones a list of field names, preserving its mathematical value.
pub(crate) fn clone_names(v: &Vec<Vec<u8>>) -> (r: Vec<Vec<u8>>)
    ensures
        names_view(r@) == names_view(v@),
{
    let mut r: Vec<Vec<u8>> = Vec::new();
    let mut i: usize = 0;
    while i < v.len()
        invariant
            i <= v.len(),
            r.len() == i,
            forall|j: int| 0 <= j < i ==> r@[j]@ == v@[j]@,
        decreases v.len() - i,
    {
        let mut field: Vec<u8> = Vec::new();
        let mut k: usize = 0;
        while k < v[i].len()
            invariant
                i < v.len(),
                k <= v@[i as int].len(),
                field@ == v@[i as int]@.take(k as int),
            decreases v[i as int].len() - k,
        {
            field.push(v[i][k]);
            proof {
                assert(field@ =~= v@[i as int]@.take(k + 1));
            }
            k = k + 1;
        }
        proof {
            assert(field@ =~= v@[i as int]@);
        }
        r.push(field);
        i = i + 1;
    }
    proof {
        assert(names_view(r@) =~= names_view(v@));
    }
    r
}

impl Operation {
    /// Returns the structurally inverse operation without touching any
    /// database state.
    pub fn inverse(&self) -> (r: Operation)
        ensures
            r@ == self@.inverse(),
    {
        match self {
            Operation::CreateCollection { name } => Operation::DropCollection {
                name: clone_name(name),
            },
            Operation::DropCollection { name } => Operation::CreateCollection {
                name: clone_name(name),
            },
            Operation::CreateEdgeCollection { name } => Operation::DropEdgeCollection {
                name: clone_name(name),
            },
            Operation::DropEdgeCollection { name } => Operation::CreateEdgeCollection {
                name: clone_name(name),
            },
            Operation::CreateIndex { collection, fields, index_kind } => Operation::DropIndex {
                collection: clone_name(collection),
                index_id: IndexId { fields: clone_names(fields), kind: *index_kind },
            },
            Operation::DropIndex { collection, index_id } => Operation::CreateIndex {
                collection: clone_name(collection),
                fields: clone_names(&index_id.fields),
                index_kind: index_id.kind,
            },
        }
    }
}

/// Clones one operation, preserving its mathematical value.
pub(crate) fn clone_op(op: &Operation) -> (r: Operation)
    ensures
        r@ == op@,
{
    match op {
        Operation::CreateCollection { name } => Operation::CreateCollection {
            name: clone_name(name),
        },
        Operation::DropCollection { name } => Operation::DropCollection { name: clone_name(name) },
        Operation::CreateEdgeCollection { name } => Operation::CreateEdgeCollection {
            name: clone_name(name),
        },
        Operation::DropEdgeCollection { name } => Operation::DropEdgeCollection {
            name: clone_name(name),
        },
        Operation::CreateIndex { collection, fields, index_kind } => Operation::CreateIndex {
            collection: clone_name(collection),
            fields: clone_names(fields),
            index_kind: *index_kind,
        },
        Operation::DropIndex { collection, index_id } => Operation::DropIndex {
            collection: clone_name(collection),
            index_id: IndexId { fields: clone_names(&index_id.fields), kind: index_id.kind },
        },
    }
}

/// Whether two names hold the same bytes.
pub(crate) fn names_eq(a: &Vec<u8>, b: &Vec<u8>) -> (r: bool)
    ensures
        r == (a@ == b@),
{
    if a.len() != b.len() {
        return false;
    }
    let mut i: usize = 0;
    while i < a.len()
        invariant
            i <= a.len(),
            a.len() == b.len(),
            forall|j: int| 0 <= j < i ==> a@[j] == b@[j],
        decreases a.len() - i,
    {
        if a[i] != b[i] {
            return false;
        }
        i = i + 1;
    }
    proof {
        assert(a@ =~= b@);
    }
    true
}

/// Whether two index identities name the same index.
pub(crate) fn index_ids_eq(a: &IndexId, b: &IndexId) -> (r: bool)
    ensures
        r == (a@ == b@),
{
    if a.kind != b.kind {
        return false;
    }
    if a.fields.len() != b.fields.len() {
        proof {
            assert(a@.fields.len() != b@.fields.len());
        }
        return false;
    }
    let mut i: usize = 0;
    while i < a.fields.len()
        invariant
            i <= a.fields.len(),
            a.fields.len() == b.fields.len(),
            a.kind == b.kind,
            forall|j: int| 0 <= j < i ==> a@.fields[j] == b@.fields[j],
        decreases a.fields.len() - i,
    {
        if !names_eq(&a.fields[i], &b.fields[i]) {
            proof {
                assert(a@.fields[i as int] != b@.fields[i as int]);
            }
            return false;
        }
        proof {
            assert(a@.fields[i as int] == b@.fields[i as int]);
        }
        i = i + 1;
    }
    proof {
        assert(a@.fields =~= b@.fields);
    }
    true
}

/// Clones a single name, preserving its mathematical value.
pub(crate) fn clone_name(v: &Vec<u8>) -> (r: Vec<u8>)
    ensures
        r@ == v@,
{
    let mut r: Vec<u8> = Vec::new();
    let mut i: usize = 0;
    while i < v.len()
        invariant
            i <= v.len(),
            r@ == v@.take(i as int),
        decreases v.len() - i,
    {
        r.push(v[i]);
        proof {
            assert(r@ =~= v@.take(i + 1));
        }
        i = i + 1;
    }
    proof {
        assert(r@ =~= v@);
    }
    r
}

} // verus!
