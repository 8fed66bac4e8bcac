//! The materialized view of one schema: its records, the index of their
//! primary keys and their secondary indexes.

use vstd::prelude::*;
use crate::errors::CacheError;
use crate::field::FieldValue;
use crate::indexer::{
    build_error, entries_of, first_index_error, keys_in, Indexer,
};
use crate::index::index_keys;
use crate::storage::Database;
use crate::types::{
    concat_encodings, IndexDefinition, Record, RecordView, Schema,
};

verus! {

/// A record of the cache and the id under which it is held.
#[derive(Debug, PartialEq, Eq)]
pub struct RecordWithId {
    pub id: u64,
    pub record: Record,
}

impl RecordWithId {
    pub fn new(id: u64, record: Record) -> (r: Self)
        ensures
            r.id == id,
            r.record == record,
    {
        Self { id, record }
    }
}

impl Clone for RecordWithId {
    fn clone(&self) -> (r: Self)
        ensures
            r.id == self.id,
            r.record@ == self.record@,
    {
        RecordWithId { id: self.id, record: self.record.clone() }
    }
}

/// The records of a schema with their indexes.
#[derive(Debug)]
pub struct Cache {
    pub schema_name: String,
    pub schema: Schema,
    pub secondary_indexes: Vec<IndexDefinition>,
    /// The primary store: the records by ascending id.
    pub records: Vec<RecordWithId>,
    /// The id of each record under its encoded primary key.
    pub primary_index: Database<u64>,
    /// One sub-database for each secondary index.
    pub indexer: Indexer,
    /// The id that the next record gets.
    pub next_id: u64,
}

/// What each record of a sequence holds, with its id.
pub open spec fn image_of(records: Seq<RecordWithId>) -> Seq<(u64, RecordView)> {
    records.map_values(|r: RecordWithId| (r.id, r.record@))
}

/// The entries that an index holds for the records of `image`: the id of
/// each record under each of its keys, and nothing else.
pub open spec fn expected_entries(image: Seq<(u64, RecordView)>, index: IndexDefinition) -> Set<
    (Seq<u8>, u64),
> {
    Set::new(
        |e: (Seq<u8>, u64)|
            exists|i: int|
                0 <= i < image.len() && (#[trigger] image[i]).0 == e.1 && keys_in(
                    index,
                    image[i].1.values,
                ).contains(e.0),
    )
}

/// The encoded primary key of a record of the schema.
pub open spec fn pk_of(schema: Schema, values: Seq<FieldValue>) -> Seq<u8> {
    concat_encodings(values, schema.primary_index@)
}

/// No two records of the image have the same id.
pub open spec fn distinct_ids(image: Seq<(u64, RecordView)>) -> bool {
    forall|i: int, j: int|
        0 <= i < image.len() && 0 <= j < image.len() && i != j ==> (#[trigger] image[i]).0 != (
        #[trigger] image[j]).0
}

/// One record more adds its entries to those of an index.
pub proof fn lemma_expected_push(
    image: Seq<(u64, RecordView)>,
    id: u64,
    record: RecordView,
    index: IndexDefinition,
)
    ensures
        expected_entries(image.push((id, record)), index) == expected_entries(image, index).union(
            entries_of(keys_in(index, record.values), id),
        ),
{
    let more = image.push((id, record));
    let lhs = expected_entries(more, index);
    let rhs = expected_entries(image, index).union(entries_of(keys_in(index, record.values), id));
    assert forall|e: (Seq<u8>, u64)| lhs.contains(e) == rhs.contains(e) by {
        if lhs.contains(e) {
            let i = choose|i: int|
                0 <= i < more.len() && (#[trigger] more[i]).0 == e.1 && keys_in(
                    index,
                    more[i].1.values,
                ).contains(e.0);
            if i < image.len() {
                assert(image[i] == more[i]);
            }
        }
        if expected_entries(image, index).contains(e) {
            let i = choose|i: int|
                0 <= i < image.len() && (#[trigger] image[i]).0 == e.1 && keys_in(
                    index,
                    image[i].1.values,
                ).contains(e.0);
            assert(more[i] == image[i]);
        }
        if entries_of(keys_in(index, record.values), id).contains(e) {
            assert(more[image.len() as int] == (id, record));
        }
    }
    assert(lhs =~= rhs);
}

/// One record less takes its entries from those of an index.
pub proof fn lemma_expected_remove(image: Seq<(u64, RecordView)>, p: int, index: IndexDefinition)
    requires
        0 <= p < image.len(),
        distinct_ids(image),
    ensures
        expected_entries(image.remove(p), index) == expected_entries(image, index).difference(
            entries_of(keys_in(index, image[p].1.values), image[p].0),
        ),
{
    let less = image.remove(p);
    let lhs = expected_entries(less, index);
    let gone = entries_of(keys_in(index, image[p].1.values), image[p].0);
    let rhs = expected_entries(image, index).difference(gone);
    assert forall|e: (Seq<u8>, u64)| lhs.contains(e) == rhs.contains(e) by {
        if lhs.contains(e) {
            let i = choose|i: int|
                0 <= i < less.len() && (#[trigger] less[i]).0 == e.1 && keys_in(
                    index,
                    less[i].1.values,
                ).contains(e.0);
            let i2 = if i < p { i } else { i + 1 };
            assert(image[i2] == less[i]);
            assert(image[i2].0 != image[p].0);
        }
        if rhs.contains(e) {
            let i = choose|i: int|
                0 <= i < image.len() && (#[trigger] image[i]).0 == e.1 && keys_in(
                    index,
                    image[i].1.values,
                ).contains(e.0);
            assert(i != p);
            let i2 = if i < p { i } else { i - 1 };
            assert(less[i2] == image[i]);
        }
    }
    assert(lhs =~= rhs);
}

/// Where no index refuses a record, each index has a sub-database and keys
/// for it.
pub proof fn lemma_no_index_error(
    indexes: Seq<IndexDefinition>,
    databases: nat,
    values: Seq<FieldValue>,
    from: nat,
)
    requires
        first_index_error(indexes, databases, values, from).is_none(),
        from <= indexes.len(),
    ensures
        from < indexes.len() ==> indexes.len() <= databases,
        forall|j: int| from <= j < indexes.len()
            ==> index_keys(#[trigger] indexes[j], values) is Ok,
    decreases indexes.len() - from,
{
    if from < indexes.len() {
        lemma_no_index_error(indexes, databases, values, from + 1);
    }
}

/// Where every index has a sub-database and keys for a record, none refuses
/// it.
pub proof fn lemma_index_error_none(
    indexes: Seq<IndexDefinition>,
    databases: nat,
    values: Seq<FieldValue>,
    from: nat,
)
    requires
        indexes.len() <= databases,
        forall|j: int| from <= j < indexes.len()
            ==> index_keys(#[trigger] indexes[j], values) is Ok,
    ensures
        first_index_error(indexes, databases, values, from).is_none(),
    decreases indexes.len() - from,
{
    if from < indexes.len() {
        assert(index_keys(indexes[from as int], values) is Ok);
        lemma_index_error_none(indexes, databases, values, from + 1);
    }
}

impl Cache {
    /// What the cache holds: each record with its id, by ascending id.
    pub open spec fn image(&self) -> Seq<(u64, RecordView)> {
        image_of(self.records@)
    }

    /// The schema has a primary key.
    pub open spec fn has_pk(&self) -> bool {
        self.schema.primary_index@.len() > 0
    }

    /// Every secondary index holds exactly the entries of the records of the
    /// primary store.
    pub open spec fn indexes_consistent(&self) -> bool {
        forall|j: int|
            0 <= j < self.secondary_indexes@.len() ==> #[trigger] self.indexer.entries(j)
                == expected_entries(self.image(), self.secondary_indexes@[j])
    }

    /// The index of the primary keys holds the id of each record under its
    /// key, and nothing else.
    pub open spec fn primary_consistent(&self) -> bool {
        &&& forall|i: int|
            0 <= i < self.records@.len() && self.has_pk() ==> self.primary_index@.contains_key(
                pk_of(self.schema, (#[trigger] self.image()[i]).1.values),
            ) && self.primary_index@[pk_of(self.schema, self.image()[i].1.values)]
                == self.image()[i].0
        &&& forall|k: Seq<u8>| #[trigger]
            self.primary_index@.contains_key(k) ==> self.has_pk() && exists|i: int|
                0 <= i < self.records@.len() && pk_of(
                    self.schema,
                    (#[trigger] self.image()[i]).1.values,
                ) == k
    }

    /// Every record follows the schema and every index can take it.
    pub open spec fn records_fit(&self) -> bool {
        &&& forall|i: int|
            0 <= i < self.records@.len() ==> (#[trigger] self.image()[i]).1.values.len()
                == self.schema.fields@.len()
        &&& forall|i: int, j: int|
            0 <= i < self.records@.len() && 0 <= j < self.secondary_indexes@.len() ==> index_keys(
                #[trigger] self.secondary_indexes@[j],
                (#[trigger] self.image()[i]).1.values,
            ) is Ok
    }

    /// The ids ascend and stay below the next one.
    pub open spec fn ids_ascend(&self) -> bool {
        &&& forall|i: int, j: int|
            0 <= i < j < self.records@.len() ==> (#[trigger] self.image()[i]).0 < (
            #[trigger] self.image()[j]).0
        &&& forall|i: int|
            0 <= i < self.records@.len() ==> (#[trigger] self.image()[i]).0 < self.next_id
    }

    /// The invariant of the cache.
    pub open spec fn wf(&self) -> bool {
        &&& self.schema.identifier.is_some()
        &&& self.schema.wf()
        &&& self.indexer.wf()
        &&& self.indexer.secondary_indexes@.len() == self.secondary_indexes@.len()
        &&& self.primary_index.wf()
        &&& self.ids_ascend()
        &&& self.records_fit()
        &&& self.primary_consistent()
        &&& self.indexes_consistent()
    }

    /// An empty cache for a schema and its indexes.
    pub fn create(schema_name: String, schema: Schema, secondary_indexes: Vec<IndexDefinition>) -> (r:
        Result<Cache, CacheError>)
        ensures
            schema.identifier.is_none() ==> r == Err::<Cache, CacheError>(
                CacheError::SchemaHasNoIdentifier,
            ),
            schema.identifier.is_some() && !schema.wf() ==> r == Err::<Cache, CacheError>(
                CacheError::SchemaMismatch,
            ),
            schema.identifier.is_some() && schema.wf() ==> (r matches Ok(c) && c.wf()
                && c.schema_name == schema_name && c.schema == schema && c.secondary_indexes
                == secondary_indexes && c.image() == Seq::<(u64, RecordView)>::empty()
                && c.next_id == 0),
    {
        if schema.identifier.is_none() {
            return Err(CacheError::SchemaHasNoIdentifier);
        }
        let mut i: usize = 0;
        while i < schema.primary_index.len()
            invariant
                schema.identifier.is_some(),
                i <= schema.primary_index@.len(),
                forall|k: int| 0 <= k < i
                    ==> (#[trigger] schema.primary_index@[k]) < schema.fields@.len(),
            decreases schema.primary_index@.len() - i,
        {
            if schema.primary_index[i] >= schema.fields.len() {
                return Err(CacheError::SchemaMismatch);
            }
            i += 1;
        }
        let indexer = Indexer::new(secondary_indexes.len());
        let c = Cache {
            schema_name,
            schema,
            secondary_indexes,
            records: Vec::new(),
            primary_index: Database::new(),
            indexer,
            next_id: 0,
        };
        proof {
            assert(c.image() =~= Seq::<(u64, RecordView)>::empty());
            assert forall|j: int| 0 <= j < c.secondary_indexes@.len()
                implies #[trigger] c.indexer.entries(j)
                == expected_entries(c.image(), c.secondary_indexes@[j]) by {
                assert(expected_entries(c.image(), c.secondary_indexes@[j]) =~= Set::<
                    (Seq<u8>, u64),
                >::empty());
            }
        }
        Ok(c)
    }
}

/// The record with the given version.
pub open spec fn versioned(record: RecordView, version: u32) -> RecordView {
    RecordView { schema_id: record.schema_id, values: record.values, version: Some(version) }
}

/// The position in the image of the record with the id `id`.
pub open spec fn position_of(image: Seq<(u64, RecordView)>, id: u64) -> int {
    choose|p: int| 0 <= p < image.len() && (#[trigger] image[p]).0 == id
}

impl Cache {
    /// Why a record cannot be inserted, if it cannot.
    pub open spec fn insert_error(&self, record: RecordView) -> Option<CacheError> {
        if record.values.len() != self.schema.fields@.len() {
            Some(CacheError::SchemaMismatch)
        } else if self.has_pk() && self.primary_index@.contains_key(
            pk_of(self.schema, record.values),
        ) {
            Some(CacheError::PrimaryKeyExists)
        } else if self.next_id == u64::MAX {
            Some(CacheError::StoreFull)
        } else {
            build_error(
                self.schema,
                self.secondary_indexes@,
                self.indexer.secondary_indexes@.len(),
                record.values,
            )
        }
    }

    /// The schema, its name and its index definitions are those of `other`.
    pub open spec fn same_schema(&self, other: &Cache) -> bool {
        &&& self.schema_name == other.schema_name
        &&& self.schema == other.schema
        &&& self.secondary_indexes == other.secondary_indexes
    }

    /// The cache holds what `other` holds.
    pub open spec fn same_content(&self, other: &Cache) -> bool {
        &&& self.image() == other.image()
        &&& self.primary_index@ == other.primary_index@
        &&& self.indexer.secondary_indexes@ == other.indexer.secondary_indexes@
        &&& self.next_id == other.next_id
    }

    fn find_id(&self, id: u64) -> (r: Option<usize>)
        ensures
            r matches Some(p) ==> p < self.records@.len() && self.image()[p as int].0 == id,
            r.is_none() ==> forall|i: int|
                0 <= i < self.records@.len() ==> (#[trigger] self.image()[i]).0 != id,
    {
        let mut i: usize = 0;
        while i < self.records.len()
            invariant
                i <= self.records@.len(),
                forall|j: int| 0 <= j < i ==> (#[trigger] self.image()[j]).0 != id,
            decreases self.records@.len() - i,
        {
            if self.records[i].id == id {
                return Some(i);
            }
            i += 1;
        }
        None
    }

    /// Inserts a record and writes its entries in every index. It gets the
    /// next id, which is returned, and the version 1. Where the record is
    /// refused the cache is left as it was.
    pub fn insert(&mut self, record: &Record) -> (r: Result<u64, CacheError>)
        requires
            old(self).wf(),
        ensures
            final(self).wf(),
            final(self).same_schema(old(self)),
            match old(self).insert_error(record@) {
                Some(e) => r == Err::<u64, CacheError>(e) && final(self).same_content(old(self)),
                None => {
                    &&& r == Ok::<u64, CacheError>(old(self).next_id)
                    &&& final(self).next_id == old(self).next_id + 1
                    &&& final(self).image() == old(self).image().push(
                        (old(self).next_id, versioned(record@, 1)),
                    )
                    &&& final(self).primary_index@ == (if old(self).has_pk() {
                        old(self).primary_index@.insert(
                            pk_of(old(self).schema, record@.values),
                            old(self).next_id,
                        )
                    } else {
                        old(self).primary_index@
                    })
                },
            },
    {
        self.insert_versioned(record, 1)
    }

    fn insert_versioned(&mut self, record: &Record, version: u32) -> (r: Result<u64, CacheError>)
        requires
            old(self).wf(),
        ensures
            final(self).wf(),
            final(self).same_schema(old(self)),
            match old(self).insert_error(record@) {
                Some(e) => r == Err::<u64, CacheError>(e) && final(self).same_content(old(self)),
                None => {
                    &&& r == Ok::<u64, CacheError>(old(self).next_id)
                    &&& final(self).next_id == old(self).next_id + 1
                    &&& final(self).image() == old(self).image().push(
                        (old(self).next_id, versioned(record@, version)),
                    )
                    &&& final(self).primary_index@ == (if old(self).has_pk() {
                        old(self).primary_index@.insert(
                            pk_of(old(self).schema, record@.values),
                            old(self).next_id,
                        )
                    } else {
                        old(self).primary_index@
                    })
                },
            },
    {
        if record.values.len() != self.schema.fields.len() {
            return Err(CacheError::SchemaMismatch);
        }
        let has_pk = self.schema.primary_index.len() > 0;
        let mut key: Vec<u8> = Vec::new();
        if has_pk {
            key = record.get_key(&self.schema.primary_index);
            if self.primary_index.get(key.as_slice()).is_some() {
                return Err(CacheError::PrimaryKeyExists);
            }
        }
        if self.next_id == u64::MAX {
            return Err(CacheError::StoreFull);
        }
        let id = self.next_id;
        match self.indexer.build_indexes(
            record,
            &self.schema,
            self.secondary_indexes.as_slice(),
            id,
        ) {
            Ok(()) => {},
            Err(e) => {
                proof {
                    assert(self.image() == old(self).image());
                    assert forall|j: int|
                        0 <= j < self.secondary_indexes@.len()
                            implies #[trigger] self.indexer.entries(
                        j,
                    ) == expected_entries(self.image(), self.secondary_indexes@[j]) by {
                        assert(self.indexer.entries(j) == old(self).indexer.entries(j));
                    }
                }
                return Err(e);
            },
        }
        if has_pk {
            self.primary_index.put(key.as_slice(), id);
        }
        let mut stored = record.clone();
        stored.version = Some(version);
        let ghost held = stored@;
        self.records.push(RecordWithId { id, record: stored });
        self.next_id = id + 1;
        proof {
            let before = old(self).image();
            let after = self.image();
            let values = record@.values;
            assert(held == versioned(record@, version));
            assert(after =~= before.push((id, held)));
            lemma_no_index_error(
                self.secondary_indexes@,
                old(self).indexer.secondary_indexes@.len(),
                values,
                0,
            );
            assert forall|i: int| 0 <= i < self.records@.len() implies (#[trigger] after[i]).0
                < self.next_id && after[i].1.values.len() == self.schema.fields@.len() by {
                if i < before.len() {
                    assert(after[i] == before[i]);
                }
            }
            assert forall|i: int, j: int| 0 <= i < j < self.records@.len() implies (
            #[trigger] after[i]).0 < (#[trigger] after[j]).0 by {
                assert(after[i] == before[i]);
                if j < before.len() {
                    assert(after[j] == before[j]);
                }
            }
            assert forall|i: int, j: int|
                0 <= i < self.records@.len() && 0 <= j < self.secondary_indexes@.len()
                    implies index_keys(
                #[trigger] self.secondary_indexes@[j],
                (#[trigger] after[i]).1.values,
            ) is Ok by {
                if i < before.len() {
                    assert(after[i] == before[i]);
                }
            }
            assert forall|i: int| 0 <= i < self.records@.len() && self.has_pk()
                implies self.primary_index@.contains_key(
                pk_of(self.schema, (#[trigger] after[i]).1.values),
            ) && self.primary_index@[pk_of(self.schema, after[i].1.values)] == after[i].0 by {
                if i < before.len() {
                    assert(after[i] == before[i]);
                    assert(old(self).primary_index@.contains_key(
                        pk_of(self.schema, before[i].1.values),
                    ));
                }
            }
            assert forall|k: Seq<u8>| #[trigger]
                self.primary_index@.contains_key(k) implies self.has_pk() && exists|i: int|
                0 <= i < self.records@.len() && pk_of(self.schema, (#[trigger] after[i]).1.values)
                    == k by {
                if k == key@ && has_pk {
                    assert(pk_of(self.schema, after[before.len() as int].1.values) == k);
                } else {
                    assert(old(self).primary_index@.contains_key(k));
                    let i = choose|i: int|
                        0 <= i < before.len() && pk_of(
                            self.schema,
                            (#[trigger] before[i]).1.values,
                        ) == k;
                    assert(after[i] == before[i]);
                }
            }
            assert forall|j: int| 0 <= j < self.secondary_indexes@.len()
                implies #[trigger] self.indexer.entries(j)
                == expected_entries(after, self.secondary_indexes@[j]) by {
                lemma_expected_push(before, id, held, self.secondary_indexes@[j]);
                assert(old(self).indexer.entries(j) == expected_entries(
                    before,
                    self.secondary_indexes@[j],
                ));
            }
        }
        Ok(id)
    }

    /// The record under the primary key `key`.
    pub fn get(&self, key: &[u8]) -> (r: Result<RecordWithId, CacheError>)
        requires
            self.wf(),
        ensures
            !self.primary_index@.contains_key(key@) ==> r == Err::<RecordWithId, CacheError>(
                CacheError::PrimaryKeyNotFound,
            ),
            self.primary_index@.contains_key(key@) ==> (r matches Ok(found) && found.id
                == self.primary_index@[key@]
                    && (found.id, found.record@) == self.image()[position_of(
                self.image(),
                found.id,
            )] && pk_of(self.schema, found.record@.values) == key@),
    {
        let id = match self.primary_index.get(key) {
            Some(id) => *id,
            None => {
                return Err(CacheError::PrimaryKeyNotFound);
            },
        };
        proof {
            self.lemma_key_position(key@);
        }
        match self.find_id(id) {
            Some(p) => Ok(self.records[p].clone()),
            None => Err(CacheError::PrimaryKeyNotFound),
        }
    }

    /// A key of the index of primary keys is the key of one record, which
    /// has the id that the index holds.
    pub proof fn lemma_key_position(&self, key: Seq<u8>)
        requires
            self.wf(),
            self.primary_index@.contains_key(key),
        ensures
            ({
                let p = position_of(self.image(), self.primary_index@[key]);
                &&& 0 <= p < self.records@.len()
                &&& self.image()[p].0 == self.primary_index@[key]
                &&& pk_of(self.schema, self.image()[p].1.values) == key
                &&& forall|i: int|
                    0 <= i < self.records@.len() && (#[trigger] self.image()[i]).0
                        == self.primary_index@[key] ==> i == p
            }),
            distinct_ids(self.image()),
    {
        let image = self.image();
        let id = self.primary_index@[key];
        let i = choose|i: int|
            0 <= i < self.records@.len() && pk_of(self.schema, (#[trigger] image[i]).1.values)
                == key;
        assert(image[i].0 == id);
        let p = position_of(image, id);
        assert(0 <= p < image.len() && image[p].0 == id);
        assert forall|a: int, b: int|
            0 <= a < image.len() && 0 <= b < image.len() && a != b implies (#[trigger] image[a]).0
            != (#[trigger] image[b]).0 by {
            if a < b {
                assert(image[a].0 < image[b].0);
            } else {
                assert(image[b].0 < image[a].0);
            }
        }
    }

    /// Removes the record under the primary key `key` and erases its entries
    /// from every index.
    pub fn delete(&mut self, key: &[u8]) -> (r: Result<(), CacheError>)
        requires
            old(self).wf(),
        ensures
            final(self).wf(),
            final(self).same_schema(old(self)),
            !old(self).primary_index@.contains_key(key@) ==> r == Err::<(), CacheError>(
                CacheError::PrimaryKeyNotFound,
            ) && final(self).same_content(old(self)),
            old(self).primary_index@.contains_key(key@) ==> r.is_ok()
                && final(self).image() == old(self).image().remove(position_of(old(self).image(), old(self).primary_index@[key@]))
                && final(self).primary_index@ == old(self).primary_index@.remove(key@)
                && final(self).next_id == old(self).next_id,
    {
        let id = match self.primary_index.get(key) {
            Some(id) => *id,
            None => {
                return Err(CacheError::PrimaryKeyNotFound);
            },
        };
        proof {
            self.lemma_key_position(key@);
        }
        let p = match self.find_id(id) {
            Some(p) => p,
            None => {
                return Err(CacheError::PrimaryKeyNotFound);
            },
        };
        proof {
            lemma_index_error_none(
                self.secondary_indexes@,
                self.indexer.secondary_indexes@.len(),
                self.image()[p as int].1.values,
                0,
            );
        }
        match self.indexer.delete_indexes(
            &self.records[p].record,
            &self.schema,
            self.secondary_indexes.as_slice(),
            id,
        ) {
            Ok(()) => {},
            Err(e) => {
                return Err(e);
            },
        }
        self.primary_index.del(key);
        self.records.remove(p);
        proof {
            let before = old(self).image();
            let after = self.image();
            assert(after =~= before.remove(p as int));
            assert forall|i: int| 0 <= i < after.len() implies #[trigger] after[i] == before[if i
                < p {
                i
            } else {
                i + 1
            }] by {}
            assert forall|i: int| 0 <= i < self.records@.len() implies (#[trigger] after[i]).0
                < self.next_id && after[i].1.values.len() == self.schema.fields@.len() by {
                let i2 = if i < p { i } else { i + 1 };
                assert(after[i] == before[i2]);
            }
            assert forall|i: int, j: int| 0 <= i < j < self.records@.len() implies (
            #[trigger] after[i]).0 < (#[trigger] after[j]).0 by {
                let i2 = if i < p { i } else { i + 1 };
                let j2 = if j < p { j } else { j + 1 };
                assert(after[i] == before[i2]);
                assert(after[j] == before[j2]);
            }
            assert forall|i: int, j: int|
                0 <= i < self.records@.len() && 0 <= j < self.secondary_indexes@.len()
                    implies index_keys(
                #[trigger] self.secondary_indexes@[j],
                (#[trigger] after[i]).1.values,
            ) is Ok by {
                let i2 = if i < p { i } else { i + 1 };
                assert(after[i] == before[i2]);
            }
            assert forall|i: int| 0 <= i < self.records@.len() && self.has_pk()
                implies self.primary_index@.contains_key(
                pk_of(self.schema, (#[trigger] after[i]).1.values),
            ) && self.primary_index@[pk_of(self.schema, after[i].1.values)] == after[i].0 by {
                let i2 = if i < p { i } else { i + 1 };
                assert(after[i] == before[i2]);
                assert(old(self).primary_index@.contains_key(
                    pk_of(self.schema, before[i2].1.values),
                ));
                assert(before[i2].0 != before[p as int].0);
            }
            assert forall|k: Seq<u8>| #[trigger]
                self.primary_index@.contains_key(k) implies self.has_pk() && exists|i: int|
                0 <= i < self.records@.len() && pk_of(self.schema, (#[trigger] after[i]).1.values)
                    == k by {
                assert(old(self).primary_index@.contains_key(k));
                let i = choose|i: int|
                    0 <= i < before.len() && pk_of(self.schema, (#[trigger] before[i]).1.values)
                        == k;
                assert(i != p);
                let i2 = if i < p { i } else { i - 1 };
                assert(after[i2] == before[i]);
            }
            assert forall|j: int| 0 <= j < self.secondary_indexes@.len()
                implies #[trigger] self.indexer.entries(j)
                == expected_entries(after, self.secondary_indexes@[j]) by {
                lemma_expected_remove(before, p as int, self.secondary_indexes@[j]);
                assert(old(self).indexer.entries(j) == expected_entries(
                    before,
                    self.secondary_indexes@[j],
                ));
            }
        }
        Ok(())
    }
}

impl Cache {
    /// The entries of every secondary index, index by index.
    pub fn get_indexes(&self) -> (r: Vec<Vec<(Vec<u8>, u64)>>)
        requires
            self.wf(),
        ensures
            r@.len() == self.secondary_indexes@.len(),
            forall|j: int| 0 <= j < r@.len() ==> (#[trigger] self.indexer.entries(j)).finite(),
            forall|j: int| 0 <= j < r@.len()
                ==> holds_entries(#[trigger] r@[j], self.indexer.entries(j)),
    {
        let mut r: Vec<Vec<(Vec<u8>, u64)>> = Vec::new();
        let mut j: usize = 0;
        while j < self.indexer.secondary_indexes.len()
            invariant
                self.indexer.wf(),
                j <= self.indexer.secondary_indexes@.len(),
                r@.len() == j,
                forall|k: int| 0 <= k < j ==> (#[trigger] self.indexer.entries(k)).finite(),
                forall|k: int| 0 <= k < j
                    ==> holds_entries(#[trigger] r@[k], self.indexer.entries(k)),
            decreases self.indexer.secondary_indexes@.len() - j,
        {
            assert(self.indexer.secondary_indexes@[j as int].wf());
            r.push(self.indexer.secondary_indexes[j].to_vec());
            j += 1;
        }
        r
    }

    /// The number of records.
    pub fn len(&self) -> (r: usize)
        ensures
            r == self.image().len(),
    {
        self.records.len()
    }

    /// A cache without records has no entry in any secondary index: once
    /// every record is deleted, every index is empty.
    pub proof fn lemma_delete_cleanup(&self)
        requires
            self.wf(),
            self.image().len() == 0,
        ensures
            forall|j: int|
                0 <= j < self.secondary_indexes@.len() ==> #[trigger] self.indexer.entries(j)
                    == Set::<(Seq<u8>, u64)>::empty(),
            self.primary_index@ == Map::<Seq<u8>, u64>::empty(),
    {
        assert forall|j: int| 0 <= j < self.secondary_indexes@.len()
            implies #[trigger] self.indexer.entries(
            j,
        ) == Set::<(Seq<u8>, u64)>::empty() by {
            assert(expected_entries(self.image(), self.secondary_indexes@[j]) =~= Set::<
                (Seq<u8>, u64),
            >::empty());
        }
        assert(self.primary_index@ =~= Map::<Seq<u8>, u64>::empty());
    }

    /// Every entry of a secondary index belongs to a record of the primary
    /// store, and every key of every record has its entry.
    pub proof fn lemma_index_consistency(&self, j: int)
        requires
            self.wf(),
            0 <= j < self.secondary_indexes@.len(),
        ensures
            forall|e: (Seq<u8>, u64)| #[trigger]
                self.indexer.entries(j).contains(e) ==> exists|i: int|
                    0 <= i < self.image().len() && (#[trigger] self.image()[i]).0 == e.1
                        && keys_in(self.secondary_indexes@[j], self.image()[i].1.values).contains(
                        e.0,
                    ),
            forall|i: int, k: Seq<u8>|
                0 <= i < self.image().len() && keys_in(
                    self.secondary_indexes@[j],
                    (#[trigger] self.image()[i]).1.values,
                ).contains(k) ==> #[trigger] self.indexer.entries(j).contains(
                    (k, self.image()[i].0),
                ),
    {
        assert(self.indexer.entries(j) == expected_entries(
            self.image(),
            self.secondary_indexes@[j],
        ));
    }
}

/// The list holds each of the entries once, and nothing else.
pub open spec fn holds_entries(list: Vec<(Vec<u8>, u64)>, entries: Set<(Seq<u8>, u64)>) -> bool {
    &&& list@.len() == entries.len()
    &&& forall|i: int| 0 <= i < list@.len()
        ==> entries.contains(((#[trigger] list@[i]).0@, list@[i].1))
    &&& forall|e: (Seq<u8>, u64)|
        entries.contains(e) ==> exists|i: int|
            0 <= i < list@.len() && ((#[trigger] list@[i]).0@, list@[i].1) == e
}

/// The version after `version`.
pub open spec fn next_version(version: Option<u32>) -> int {
    match version {
        Some(v) => v + 1,
        None => 1,
    }
}

impl Cache {
    /// Why the record under `key` cannot be replaced by `record`, if it
    /// cannot.
    pub open spec fn update_error(&self, key: Seq<u8>, record: RecordView) -> Option<CacheError> {
        if !self.primary_index@.contains_key(key) {
            Some(CacheError::PrimaryKeyNotFound)
        } else if record.values.len() != self.schema.fields@.len() {
            Some(CacheError::SchemaMismatch)
        } else if pk_of(self.schema, record.values) != key && self.primary_index@.contains_key(
            pk_of(self.schema, record.values),
        ) {
            Some(CacheError::PrimaryKeyExists)
        } else if self.next_id == u64::MAX || next_version(
            self.image()[position_of(self.image(), self.primary_index@[key])].1.version,
        ) > u32::MAX {
            Some(CacheError::StoreFull)
        } else {
            build_error(
                self.schema,
                self.secondary_indexes@,
                self.indexer.secondary_indexes@.len(),
                record.values,
            )
        }
    }

    /// Replaces the record under the primary key `key` by `record`, and
    /// rewrites its entries in every index: the entries of the old record
    /// are erased and those of the new one written. The new record gets
    /// the next id, which is returned, and the version after that of the
    /// old one. Where the record is refused the cache is left as it was.
    pub fn update(&mut self, key: &[u8], record: &Record) -> (r: Result<u64, CacheError>)
        requires
            old(self).wf(),
        ensures
            final(self).wf(),
            final(self).same_schema(old(self)),
            match old(self).update_error(key@, record@) {
                Some(e) => r == Err::<u64, CacheError>(e) && final(self).same_content(old(self)),
                None => {
                    let p = position_of(old(self).image(), old(self).primary_index@[key@]);
                    &&& r == Ok::<u64, CacheError>(old(self).next_id)
                    &&& final(self).next_id == old(self).next_id + 1
                    &&& final(self).image() == old(self).image().remove(p).push(
                        (
                            old(self).next_id,
                            versioned(
                                record@,
                                next_version(old(self).image()[p].1.version) as u32,
                            ),
                        ),
                    )
                    &&& final(self).primary_index@ == old(self).primary_index@.remove(key@).insert(
                        pk_of(old(self).schema, record@.values),
                        old(self).next_id,
                    )
                },
            },
    {
        let found = match self.get(key) {
            Ok(found) => found,
            Err(e) => {
                return Err(e);
            },
        };
        if record.values.len() != self.schema.fields.len() {
            return Err(CacheError::SchemaMismatch);
        }
        proof {
            self.lemma_key_position(key@);
        }
        let new_key = record.get_key(&self.schema.primary_index);
        if !crate::bytes::bytes_eq(new_key.as_slice(), key) && self.primary_index.get(
            new_key.as_slice(),
        ).is_some() {
            return Err(CacheError::PrimaryKeyExists);
        }
        if self.next_id == u64::MAX {
            return Err(CacheError::StoreFull);
        }
        let version: u32 = match found.record.version {
            Some(v) => {
                if v == u32::MAX {
                    return Err(CacheError::StoreFull);
                }
                v + 1
            },
            None => 1,
        };
        match self.indexer.check(record, &self.schema, self.secondary_indexes.as_slice()) {
            Ok(()) => {},
            Err(e) => {
                return Err(e);
            },
        }
        match self.delete(key) {
            Ok(()) => {},
            Err(e) => {
                return Err(e);
            },
        }
        self.insert_versioned(record, version)
    }
}

} // verus!
