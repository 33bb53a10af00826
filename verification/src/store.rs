//! The mathematical model of the schema store.
//!
//! A store is a map from collection names to collection contents; a
//! collection holds its kind (document or edge), whether it is a system
//! collection, and the set of its indexes. The spec functions here give each
//! [`OpModel`] its meaning: when it is enabled, what it does to the store,
//! and which error it raises when it is not.

use vstd::prelude::*;
use crate::error::SchemaErrorModel;
use crate::operation::{IndexModel, OpModel};

verus! {

/// Mathematical contents of one collection.
pub struct CollectionModel {
    pub is_edge: bool,
    pub is_system: bool,
    pub indexes: Set<IndexModel>,
}

impl CollectionModel {
    /// A freshly created user collection: no indexes, not a system one.
    pub open spec fn fresh(is_edge: bool) -> CollectionModel {
        CollectionModel { is_edge, is_system: false, indexes: Set::empty() }
    }
}

/// Whether `op` can succeed against `store`. A create is enabled when its
/// target is absent, a drop when its target is present; dropping a collection
/// requires the named collection to be of the dropped kind.
pub open spec fn op_enabled(store: Map<Seq<u8>, CollectionModel>, op: OpModel) -> bool {
    match op {
        OpModel::CreateCollection { name } => !store.contains_key(name),
        OpModel::DropCollection { name } => store.contains_key(name) && !store[name].is_edge,
        OpModel::CreateEdgeCollection { name } => !store.contains_key(name),
        OpModel::DropEdgeCollection { name } => store.contains_key(name) && store[name].is_edge,
        OpModel::CreateIndex { collection, index } => store.contains_key(collection)
            && !store[collection].indexes.contains(index),
        OpModel::DropIndex { collection, index } => store.contains_key(collection)
            && store[collection].indexes.contains(index),
    }
}

/// The store after `op` succeeds. Meaningful only when `op_enabled` holds.
/// Dropping a collection drops its indexes with it, as the store itself
/// would.
pub open spec fn op_apply(
    store: Map<Seq<u8>, CollectionModel>,
    op: OpModel,
) -> Map<Seq<u8>, CollectionModel> {
    match op {
        OpModel::CreateCollection { name } => store.insert(name, CollectionModel::fresh(false)),
        OpModel::DropCollection { name } => store.remove(name),
        OpModel::CreateEdgeCollection { name } => store.insert(name, CollectionModel::fresh(true)),
        OpModel::DropEdgeCollection { name } => store.remove(name),
        OpModel::CreateIndex { collection, index } => store.insert(
            collection,
            CollectionModel {
                is_edge: store[collection].is_edge,
                is_system: store[collection].is_system,
                indexes: store[collection].indexes.insert(index),
            },
        ),
        OpModel::DropIndex { collection, index } => store.insert(
            collection,
            CollectionModel {
                is_edge: store[collection].is_edge,
                is_system: store[collection].is_system,
                indexes: store[collection].indexes.remove(index),
            },
        ),
    }
}

/// The error `op` raises against `store`. Meaningful only when `op_enabled`
/// does not hold: a blocked create reports its target as already existing, a
/// blocked drop or a missing owning collection reports its target as not
/// found. For index operations the reported name is the owning collection.
pub open spec fn op_error(store: Map<Seq<u8>, CollectionModel>, op: OpModel) -> SchemaErrorModel {
    match op {
        OpModel::CreateCollection { name } => SchemaErrorModel::AlreadyExists { name },
        OpModel::DropCollection { name } => SchemaErrorModel::NotFound { name },
        OpModel::CreateEdgeCollection { name } => SchemaErrorModel::AlreadyExists { name },
        OpModel::DropEdgeCollection { name } => SchemaErrorModel::NotFound { name },
        OpModel::CreateIndex { collection, index } => if !store.contains_key(collection) {
            SchemaErrorModel::NotFound { name: collection }
        } else {
            SchemaErrorModel::AlreadyExists { name: collection }
        },
        OpModel::DropIndex { collection, index } => SchemaErrorModel::NotFound { name: collection },
    }
}

/// Whether the structural inverse of `op`, run right after `op`, restores
/// `store` exactly. Creating anything, and dropping an index, is always
/// exactly reversible; dropping a collection is exactly reversible only when
/// the collection was a fresh one of the dropped kind, since re-creating it
/// cannot bring back indexes the drop cascaded away.
pub open spec fn inverse_exact(store: Map<Seq<u8>, CollectionModel>, op: OpModel) -> bool {
    match op {
        OpModel::DropCollection { name } => store.contains_key(name) && store[name]
            == CollectionModel::fresh(false),
        OpModel::DropEdgeCollection { name } => store.contains_key(name) && store[name]
            == CollectionModel::fresh(true),
        _ => true,
    }
}

/// After an enabled operation, its inverse is enabled; and where the inverse
/// is exact, running it restores the store.
pub proof fn lemma_op_roundtrip(store: Map<Seq<u8>, CollectionModel>, op: OpModel)
    requires
        op_enabled(store, op),
    ensures
        op_enabled(op_apply(store, op), op.inverse()),
        inverse_exact(store, op) ==> op_apply(op_apply(store, op), op.inverse()) == store,
{
    match op {
        OpModel::CreateCollection { name } => {
            assert(inverse_exact(store, op) ==> op_apply(op_apply(store, op), op.inverse())
                =~= store);
        },
        OpModel::DropCollection { name } => {
            assert(inverse_exact(store, op) ==> op_apply(op_apply(store, op), op.inverse())
                =~= store);
        },
        OpModel::CreateEdgeCollection { name } => {
            assert(inverse_exact(store, op) ==> op_apply(op_apply(store, op), op.inverse())
                =~= store);
        },
        OpModel::DropEdgeCollection { name } => {
            assert(inverse_exact(store, op) ==> op_apply(op_apply(store, op), op.inverse())
                =~= store);
        },
        OpModel::CreateIndex { collection, index } => {
            let restored = op_apply(op_apply(store, op), op.inverse());
            assert(restored[collection].indexes =~= store[collection].indexes);
            assert(restored[collection] == store[collection]);
            assert(restored =~= store);
        },
        OpModel::DropIndex { collection, index } => {
            let restored = op_apply(op_apply(store, op), op.inverse());
            assert(restored[collection].indexes =~= store[collection].indexes);
            assert(restored[collection] == store[collection]);
            assert(restored =~= store);
        },
    }
}

} // verus!
