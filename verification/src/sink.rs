//! The cache as the sink of a dataflow: it applies the operations that
//! reach it, and notes the epochs that are committed.

use vstd::prelude::*;
use crate::cache::{next_version, pk_of, position_of, versioned, Cache};
use crate::epoch::Epoch;
use crate::errors::CacheError;
use crate::indexer::build_error;
use crate::record_store::OperationView;
use crate::types::{IndexDefinition, Operation, RecordView, Schema};

verus! {

/// What a cache holds, as far as its changes depend on it: the records
/// with their ids, the id of each primary key, and the next id.
pub struct CacheState {
    pub image: Seq<(u64, RecordView)>,
    pub keys: Map<Seq<u8>, u64>,
    pub next_id: u64,
}

/// The state of a cache.
pub open spec fn state_of(cache: Cache) -> CacheState {
    CacheState { image: cache.image(), keys: cache.primary_index@, next_id: cache.next_id }
}

/// Why a record cannot be inserted into a cache in the given state.
pub open spec fn insert_refused(
    schema: Schema,
    indexes: Seq<IndexDefinition>,
    state: CacheState,
    record: RecordView,
) -> Option<CacheError> {
    if record.values.len() != schema.fields@.len() {
        Some(CacheError::SchemaMismatch)
    } else if schema.primary_index@.len() > 0 && state.keys.contains_key(
        pk_of(schema, record.values),
    ) {
        Some(CacheError::PrimaryKeyExists)
    } else if state.next_id == u64::MAX {
        Some(CacheError::StoreFull)
    } else {
        build_error(schema, indexes, indexes.len(), record.values)
    }
}

/// The state after a record was inserted, which is the state before where
/// the record is refused.
pub open spec fn inserted(
    schema: Schema,
    indexes: Seq<IndexDefinition>,
    state: CacheState,
    record: RecordView,
) -> CacheState {
    if insert_refused(schema, indexes, state, record).is_some() {
        state
    } else {
        CacheState {
            image: state.image.push((state.next_id, versioned(record, 1))),
            keys: if schema.primary_index@.len() > 0 {
                state.keys.insert(pk_of(schema, record.values), state.next_id)
            } else {
                state.keys
            },
            next_id: (state.next_id + 1) as u64,
        }
    }
}

/// The state after the record under a key was deleted, which is the state
/// before where no record has the key.
pub open spec fn deleted(state: CacheState, key: Seq<u8>) -> CacheState {
    if !state.keys.contains_key(key) {
        state
    } else {
        CacheState {
            image: state.image.remove(position_of(state.image, state.keys[key])),
            keys: state.keys.remove(key),
            next_id: state.next_id,
        }
    }
}

/// Why the record under a key cannot be replaced in the given state.
pub open spec fn update_refused(
    schema: Schema,
    indexes: Seq<IndexDefinition>,
    state: CacheState,
    key: Seq<u8>,
    record: RecordView,
) -> Option<CacheError> {
    if !state.keys.contains_key(key) {
        Some(CacheError::PrimaryKeyNotFound)
    } else if record.values.len() != schema.fields@.len() {
        Some(CacheError::SchemaMismatch)
    } else if pk_of(schema, record.values) != key && state.keys.contains_key(
        pk_of(schema, record.values),
    ) {
        Some(CacheError::PrimaryKeyExists)
    } else if state.next_id == u64::MAX || next_version(
        state.image[position_of(state.image, state.keys[key])].1.version,
    ) > u32::MAX {
        Some(CacheError::StoreFull)
    } else {
        build_error(schema, indexes, indexes.len(), record.values)
    }
}

/// The state after the record under a key was replaced, which is the state
/// before where the replacement is refused.
pub open spec fn updated(
    schema: Schema,
    indexes: Seq<IndexDefinition>,
    state: CacheState,
    key: Seq<u8>,
    record: RecordView,
) -> CacheState {
    if update_refused(schema, indexes, state, key, record).is_some() {
        state
    } else {
        let p = position_of(state.image, state.keys[key]);
        CacheState {
            image: state.image.remove(p).push(
                (state.next_id, versioned(record, next_version(state.image[p].1.version) as u32)),
            ),
            keys: state.keys.remove(key).insert(pk_of(schema, record.values), state.next_id),
            next_id: (state.next_id + 1) as u64,
        }
    }
}

/// The state after an operation was applied. An insert of a record whose
/// primary key is held replaces the record that is held, so that an
/// operation that comes twice leaves what it left the first time; an
/// operation that is refused leaves the state as it was.
pub open spec fn applied(
    schema: Schema,
    indexes: Seq<IndexDefinition>,
    state: CacheState,
    op: OperationView,
) -> CacheState {
    match op {
        OperationView::Insert { new } => if new.values.len() == schema.fields@.len()
            && schema.primary_index@.len() > 0 && state.keys.contains_key(
            pk_of(schema, new.values),
        ) {
            updated(schema, indexes, state, pk_of(schema, new.values), new)
        } else {
            inserted(schema, indexes, state, new)
        },
        OperationView::Delete { old } => if old.values.len() == schema.fields@.len()
            && schema.primary_index@.len() > 0 {
            deleted(state, pk_of(schema, old.values))
        } else {
            state
        },
        OperationView::Update { old, new } => if old.values.len() == schema.fields@.len()
            && schema.primary_index@.len() > 0 {
            updated(schema, indexes, state, pk_of(schema, old.values), new)
        } else {
            state
        },
    }
}

/// Why an operation is refused in the given state, if it is.
pub open spec fn refused(
    schema: Schema,
    indexes: Seq<IndexDefinition>,
    state: CacheState,
    op: OperationView,
) -> Option<CacheError> {
    match op {
        OperationView::Insert { new } => if new.values.len() == schema.fields@.len()
            && schema.primary_index@.len() > 0 && state.keys.contains_key(
            pk_of(schema, new.values),
        ) {
            update_refused(schema, indexes, state, pk_of(schema, new.values), new)
        } else {
            insert_refused(schema, indexes, state, new)
        },
        OperationView::Delete { old } => if old.values.len() == schema.fields@.len()
            && schema.primary_index@.len() > 0 && state.keys.contains_key(
            pk_of(schema, old.values),
        ) {
            None
        } else {
            Some(CacheError::PrimaryKeyNotFound)
        },
        OperationView::Update { old, new } => if old.values.len() == schema.fields@.len()
            && schema.primary_index@.len() > 0 {
            update_refused(schema, indexes, state, pk_of(schema, old.values), new)
        } else {
            Some(CacheError::PrimaryKeyNotFound)
        },
    }
}

/// The state after the operations were applied, in turn.
pub open spec fn folded(
    schema: Schema,
    indexes: Seq<IndexDefinition>,
    state: CacheState,
    ops: Seq<OperationView>,
) -> CacheState
    decreases ops.len(),
{
    if ops.len() == 0 {
        state
    } else {
        applied(schema, indexes, folded(schema, indexes, state, ops.drop_last()), ops.last())
    }
}

/// The state of a cache before anything is applied.
pub open spec fn initial_state() -> CacheState {
    CacheState {
        image: Seq::<(u64, RecordView)>::empty(),
        keys: Map::<Seq<u8>, u64>::empty(),
        next_id: 0,
    }
}

/// The sink that holds the cache of a schema.
pub struct CacheSink {
    cache: Cache,
    last_epoch: Option<Epoch>,
    log: Ghost<Seq<OperationView>>,
    committed: Ghost<Seq<OperationView>>,
}

impl CacheSink {
    /// The cache of the sink.
    pub closed spec fn held(&self) -> Cache {
        self.cache
    }

    /// The operations that reached the sink, in their order.
    pub closed spec fn received(&self) -> Seq<OperationView> {
        self.log@
    }

    /// The operations that had reached the sink when the last epoch was
    /// committed.
    pub closed spec fn cut(&self) -> Seq<OperationView> {
        self.committed@
    }

    /// The number of the last epoch that was committed.
    pub closed spec fn epoch_id(&self) -> Option<u64> {
        match self.last_epoch {
            Some(e) => Some(e.id),
            None => None,
        }
    }

    /// The invariant of the sink: the cache holds what the operations that
    /// reached it leave, applied in their order to an empty cache.
    pub closed spec fn wf(&self) -> bool {
        &&& self.cache.wf()
        &&& state_of(self.cache) == folded(
            self.cache.schema,
            self.cache.secondary_indexes@,
            initial_state(),
            self.log@,
        )
    }

    /// A sink with an empty cache. A schema without an identifier is
    /// refused, and so is one whose primary key names a field that it lacks.
    pub fn new(schema_name: String, schema: Schema, secondary_indexes: Vec<IndexDefinition>) -> (r:
        Result<CacheSink, CacheError>)
        ensures
            schema.identifier.is_none() ==> (r matches Err(e) && e
                == CacheError::SchemaHasNoIdentifier),
            schema.identifier.is_some() && !schema.wf() ==> (r matches Err(e) && e
                == CacheError::SchemaMismatch),
            schema.identifier.is_some() && schema.wf() ==> (r matches Ok(sink) && sink.wf()
                && sink.received() == Seq::<OperationView>::empty() && sink.cut() == Seq::<
                OperationView,
            >::empty() && sink.epoch_id().is_none() && sink.held().schema_name == schema_name
                && sink.held().schema == schema && sink.held().secondary_indexes
                == secondary_indexes && state_of(sink.held()) == initial_state()),
    {
        match Cache::create(schema_name, schema, secondary_indexes) {
            Ok(cache) => {
                proof {
                    cache.lemma_delete_cleanup();
                }
                Ok(
                    CacheSink {
                        cache,
                        last_epoch: None,
                        log: Ghost(Seq::empty()),
                        committed: Ghost(Seq::empty()),
                    },
                )
            },
            Err(e) => Err(e),
        }
    }

    /// The cache, to read from.
    pub fn cache(&self) -> (r: &Cache)
        ensures
            *r == self.held(),
    {
        &self.cache
    }

    /// Applies an operation to the cache. An insert of a record whose
    /// primary key is held replaces the record that is held. Where the
    /// cache refuses the operation, it is left as it was.
    pub fn process(&mut self, op: &Operation) -> (r: Result<(), CacheError>)
        requires
            old(self).wf(),
        ensures
            final(self).wf(),
            final(self).received() == old(self).received().push(op@),
            final(self).cut() == old(self).cut(),
            final(self).epoch_id() == old(self).epoch_id(),
            final(self).held().same_schema(&old(self).held()),
            state_of(final(self).held()) == applied(
                old(self).held().schema,
                old(self).held().secondary_indexes@,
                state_of(old(self).held()),
                op@,
            ),
            match refused(
                old(self).held().schema,
                old(self).held().secondary_indexes@,
                state_of(old(self).held()),
                op@,
            ) {
                Some(e) => r == Err::<(), CacheError>(e) && state_of(final(self).held())
                    == state_of(old(self).held()),
                None => r.is_ok(),
            },
    {
        let ghost before = self.log@;
        let ghost schema = self.cache.schema;
        let ghost indexes = self.cache.secondary_indexes@;
        let has_pk = self.cache.schema.primary_index.len() > 0;
        let fields = self.cache.schema.fields.len();
        let r = match op {
            Operation::Insert { new } => {
                if new.values.len() == fields && has_pk {
                    let key = new.get_key(&self.cache.schema.primary_index);
                    if self.cache.primary_index.get(key.as_slice()).is_some() {
                        match self.cache.update(key.as_slice(), new) {
                            Ok(_) => Ok(()),
                            Err(e) => Err(e),
                        }
                    } else {
                        match self.cache.insert(new) {
                            Ok(_) => Ok(()),
                            Err(e) => Err(e),
                        }
                    }
                } else {
                    match self.cache.insert(new) {
                        Ok(_) => Ok(()),
                        Err(e) => Err(e),
                    }
                }
            },
            Operation::Delete { old: gone } => {
                if gone.values.len() == fields && has_pk {
                    let key = gone.get_key(&self.cache.schema.primary_index);
                    self.cache.delete(key.as_slice())
                } else {
                    Err(CacheError::PrimaryKeyNotFound)
                }
            },
            Operation::Update { old: gone, new } => {
                if gone.values.len() == fields && has_pk {
                    let key = gone.get_key(&self.cache.schema.primary_index);
                    match self.cache.update(key.as_slice(), new) {
                        Ok(_) => Ok(()),
                        Err(e) => Err(e),
                    }
                } else {
                    Err(CacheError::PrimaryKeyNotFound)
                }
            },
        };
        proof {
            let log = before.push(op@);
            assert(log.drop_last() =~= before);
            assert(log.last() == op@);
        }
        self.log = Ghost(before.push(op@));
        r
    }

    /// Notes that an epoch is committed: what the cache holds now is what
    /// it holds of that epoch.
    pub fn commit(&mut self, epoch_details: &Epoch) -> (r: Result<(), CacheError>)
        requires
            old(self).wf(),
        ensures
            r.is_ok(),
            final(self).wf(),
            final(self).held() == old(self).held(),
            final(self).received() == old(self).received(),
            final(self).cut() == old(self).received(),
            final(self).epoch_id() == Some(epoch_details.id),
    {
        self.last_epoch = Some(epoch_details.clone());
        self.committed = Ghost(self.log@);
        Ok(())
    }

    /// At a commit the cache holds what the operations that reached it
    /// before the commit leave, applied in their order to an empty cache:
    /// its records, the ids of their primary keys, and, for every index,
    /// the entries of these records.
    pub proof fn lemma_consistent_cut(&self)
        requires
            self.wf(),
            self.cut() == self.received(),
        ensures
            state_of(self.held()) == folded(
                self.held().schema,
                self.held().secondary_indexes@,
                initial_state(),
                self.cut(),
            ),
            self.held().indexes_consistent(),
    {
    }
}

} // verus!
