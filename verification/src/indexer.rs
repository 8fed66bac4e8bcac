//! Writes and erases the entries of a record in the secondary indexes.

use vstd::prelude::*;
use crate::errors::{CacheError, IndexError};
use crate::field::{Field, FieldValue};
use crate::index::{
    field_views, full_text_index_keys, full_text_keys_of, get_secondary_index, index_keys,
    key_views, picked, sorted_inverted_key,
};
use crate::storage::DupSortDatabase;
use crate::types::{IndexDefinition, Record, Schema};

verus! {

/// The entries of one record in one index: its id under each of its keys.
pub open spec fn entries_of(keys: Seq<Seq<u8>>, id: u64) -> Set<(Seq<u8>, u64)> {
    Set::new(|e: (Seq<u8>, u64)| e.1 == id && keys.contains(e.0))
}

/// What each field of a sequence holds.
pub open spec fn value_views(values: Seq<Field>) -> Seq<FieldValue> {
    values.map_values(|f: Field| f@)
}

/// The keys of a record in an index, and none where the index cannot take
/// the record.
pub open spec fn keys_in(index: IndexDefinition, values: Seq<FieldValue>) -> Seq<Seq<u8>> {
    match index_keys(index, values) {
        Ok(keys) => keys,
        Err(_) => Seq::<Seq<u8>>::empty(),
    }
}

/// The error of the first index, from position `from` on, that has no
/// sub-database or cannot take the record.
pub open spec fn first_index_error(
    indexes: Seq<IndexDefinition>,
    databases: nat,
    values: Seq<FieldValue>,
    from: nat,
) -> Option<CacheError>
    decreases indexes.len() - from,
{
    if from >= indexes.len() {
        None
    } else if from >= databases {
        Some(CacheError::SecondaryIndexDatabaseNotFound)
    } else {
        match index_keys(indexes[from as int], values) {
            Err(e) => Some(CacheError::Index(e)),
            Ok(_) => first_index_error(indexes, databases, values, from + 1),
        }
    }
}

/// Why the entries of a record cannot be written, if they cannot.
pub open spec fn build_error(
    schema: Schema,
    indexes: Seq<IndexDefinition>,
    databases: nat,
    values: Seq<FieldValue>,
) -> Option<CacheError> {
    if schema.identifier.is_none() {
        Some(CacheError::SchemaHasNoIdentifier)
    } else if indexes.len() == 0 {
        Some(CacheError::Index(IndexError::MissingSecondaryIndexes))
    } else {
        first_index_error(indexes, databases, values, 0)
    }
}

/// Why the entries of a record cannot be erased, if they cannot.
pub open spec fn delete_error(
    schema: Schema,
    indexes: Seq<IndexDefinition>,
    databases: nat,
    values: Seq<FieldValue>,
) -> Option<CacheError> {
    if schema.identifier.is_none() {
        Some(CacheError::SchemaHasNoIdentifier)
    } else {
        first_index_error(indexes, databases, values, 0)
    }
}

/// The secondary indexes of a schema: one sub-database for each index
/// definition, in their order.
#[derive(Debug)]
pub struct Indexer {
    pub secondary_indexes: Vec<DupSortDatabase>,
}

impl Indexer {
    /// Every sub-database is well formed.
    pub open spec fn wf(&self) -> bool {
        forall|j: int|
            0 <= j < self.secondary_indexes@.len() ==> (#[trigger] self.secondary_indexes@[j]).wf()
    }

    /// The entries of the sub-database at position `j`.
    pub open spec fn entries(&self, j: int) -> Set<(Seq<u8>, u64)> {
        self.secondary_indexes@[j]@
    }

    /// An indexer with `n` empty sub-databases.
    pub fn new(n: usize) -> (r: Indexer)
        ensures
            r.wf(),
            r.secondary_indexes@.len() == n,
            forall|j: int| 0 <= j < n ==> r.entries(j) == Set::<(Seq<u8>, u64)>::empty(),
    {
        let mut dbs: Vec<DupSortDatabase> = Vec::new();
        let mut i: usize = 0;
        while i < n
            invariant
                i <= n,
                dbs@.len() == i,
                forall|j: int|
                    0 <= j < i ==> (#[trigger] dbs@[j]).wf() && dbs@[j]@ == Set::<
                        (Seq<u8>, u64),
                    >::empty(),
            decreases n - i,
        {
            dbs.push(DupSortDatabase::new());
            i += 1;
        }
        Indexer { secondary_indexes: dbs }
    }

    /// The key of the record in the sorted inverted index over `fields`.
    /// Positions that the record lacks are passed over.
    pub fn _build_index_sorted_inverted(fields: &[usize], values: &[Field]) -> (r: Vec<u8>)
        ensures
            r@ == sorted_inverted_key(fields@, value_views(values@)),
    {
        let mut chosen: Vec<&Field> = Vec::new();
        let mut i: usize = 0;
        while i < fields.len()
            invariant
                i <= fields@.len(),
                field_views(chosen@) == picked(
                    fields@.subrange(0, i as int),
                    value_views(values@),
                ),
            decreases fields@.len() - i,
        {
            let ghost before = field_views(chosen@);
            proof {
                let next = fields@.subrange(0, i + 1);
                assert(next.drop_last() =~= fields@.subrange(0, i as int));
                assert(next.last() == fields@[i as int]);
            }
            if fields[i] < values.len() {
                chosen.push(&values[fields[i]]);
                assert(field_views(chosen@) =~= before.push(values@[fields@[i as int] as int]@));
            }
            i += 1;
        }
        assert(fields@.subrange(0, i as int) =~= fields@);
        // An index is an index over one field where it reads one value.
        let single = chosen.len() == 1;
        get_secondary_index(chosen.as_slice(), single)
    }

    /// The keys of the record in the full-text index over the field at
    /// `field_index`: one for each of the words of the field, and none for
    /// `Null`.
    pub fn _build_indices_full_text(field_index: usize, values: &[Field]) -> (r: Result<
        Vec<Vec<u8>>,
        CacheError,
    >)
        ensures
            match full_text_index_keys(field_index, value_views(values@)) {
                Ok(keys) => r matches Ok(v) && key_views(v@) == keys,
                Err(e) => r == Err::<Vec<Vec<u8>>, CacheError>(CacheError::Index(e)),
            },
    {
        if field_index >= values.len() {
            return Err(CacheError::Index(IndexError::FieldIndexOutOfRange));
        }
        let string: &String = match &values[field_index] {
            Field::String(string) => string,
            Field::Text(string) => string,
            Field::Null => {
                let none: Vec<Vec<u8>> = Vec::new();
                assert(key_views(none@) =~= Seq::<Seq<u8>>::empty());
                return Ok(none);
            },
            _ => {
                return Err(CacheError::Index(IndexError::FieldNotCompatibleIndex(field_index)));
            },
        };
        Ok(full_text_keys_in(string.as_str()))
    }

    /// The keys of the record in `index`.
    pub fn keys_for(index: &IndexDefinition, values: &[Field]) -> (r: Result<
        Vec<Vec<u8>>,
        CacheError,
    >)
        ensures
            match index_keys(*index, value_views(values@)) {
                Ok(keys) => r matches Ok(v) && key_views(v@) == keys,
                Err(e) => r == Err::<Vec<Vec<u8>>, CacheError>(CacheError::Index(e)),
            },
    {
        match index {
            IndexDefinition::SortedInverted(fields) => {
                let key = Self::_build_index_sorted_inverted(fields.as_slice(), values);
                let mut keys: Vec<Vec<u8>> = Vec::new();
                keys.push(key);
                assert(key_views(keys@) =~= seq![
                    sorted_inverted_key(fields@, value_views(values@)),
                ]);
                Ok(keys)
            },
            IndexDefinition::FullText(field_index) => Self::_build_indices_full_text(
                *field_index,
                values,
            ),
        }
    }
}

/// The byte strings at each position of `all` are the keys of the record in
/// the index at that position.
pub open spec fn all_keys_are(
    all: Seq<Vec<Vec<u8>>>,
    indexes: Seq<IndexDefinition>,
    values: Seq<FieldValue>,
) -> bool {
    forall|j: int|
        0 <= j < all.len() ==> key_views((#[trigger] all[j])@) == keys_in(indexes[j], values)
}

/// The entries of a record whose keys have one more at their end.
pub proof fn lemma_entries_of_push(keys: Seq<Seq<u8>>, key: Seq<u8>, id: u64)
    ensures
        entries_of(keys.push(key), id) == entries_of(keys, id).insert((key, id)),
{
    crate::storage::lemma_push_to_set(keys, key);
    assert forall|e: (Seq<u8>, u64)| #[trigger]
        entries_of(keys.push(key), id).contains(e) == entries_of(keys, id).insert(
            (key, id),
        ).contains(e) by {
        assert(keys.push(key).to_set().contains(e.0) == keys.to_set().insert(key).contains(e.0));
    }
    assert(entries_of(keys.push(key), id) =~= entries_of(keys, id).insert((key, id)));
}

impl Indexer {
    fn collect_keys(&self, values: &[Field], secondary_indexes: &[IndexDefinition]) -> (r: Result<
        Vec<Vec<Vec<u8>>>,
        CacheError,
    >)
        ensures
            match first_index_error(
                secondary_indexes@,
                self.secondary_indexes@.len(),
                value_views(values@),
                0,
            ) {
                Some(e) => r == Err::<Vec<Vec<Vec<u8>>>, CacheError>(e),
                None => r matches Ok(all) && all@.len() == secondary_indexes@.len()
                    && secondary_indexes@.len() <= self.secondary_indexes@.len() && all_keys_are(
                    all@,
                    secondary_indexes@,
                    value_views(values@),
                ),
            },
    {
        let mut all: Vec<Vec<Vec<u8>>> = Vec::new();
        let mut idx: usize = 0;
        while idx < secondary_indexes.len()
            invariant
                idx <= secondary_indexes@.len(),
                idx <= self.secondary_indexes@.len(),
                all@.len() == idx,
                first_index_error(
                    secondary_indexes@,
                    self.secondary_indexes@.len(),
                    value_views(values@),
                    0,
                ) == first_index_error(
                    secondary_indexes@,
                    self.secondary_indexes@.len(),
                    value_views(values@),
                    idx as nat,
                ),
                all_keys_are(all@, secondary_indexes@, value_views(values@)),
            decreases secondary_indexes@.len() - idx,
        {
            if idx >= self.secondary_indexes.len() {
                return Err(CacheError::SecondaryIndexDatabaseNotFound);
            }
            match Self::keys_for(&secondary_indexes[idx], values) {
                Ok(keys) => {
                    let ghost before = all@;
                    all.push(keys);
                    proof {
                        assert forall|j: int| 0 <= j < all@.len() implies key_views(
                            (#[trigger] all@[j])@,
                        ) == keys_in(secondary_indexes@[j], value_views(values@)) by {
                            if j < idx {
                                assert(all@[j] == before[j]);
                            }
                        }
                    }
                },
                Err(e) => {
                    return Err(e);
                },
            }
            idx += 1;
        }
        Ok(all)
    }

    fn write_entries(&mut self, all: &Vec<Vec<Vec<u8>>>, id: u64, erase: bool)
        requires
            old(self).wf(),
            all@.len() <= old(self).secondary_indexes@.len(),
        ensures
            final(self).wf(),
            final(self).secondary_indexes@.len() == old(self).secondary_indexes@.len(),
            forall|j: int|
                0 <= j < all@.len() ==> #[trigger] final(self).entries(j) == (if erase {
                    old(self).entries(j).difference(entries_of(key_views(all@[j]@), id))
                } else {
                    old(self).entries(j).union(entries_of(key_views(all@[j]@), id))
                }),
            forall|j: int|
                all@.len() <= j < old(self).secondary_indexes@.len()
                    ==> #[trigger] final(self).entries(j) == old(self).entries(j),
    {
        let ghost before = self.secondary_indexes@;
        let mut idx: usize = 0;
        while idx < all.len()
            invariant
                idx <= all@.len() <= before.len(),
                self.secondary_indexes@.len() == before.len(),
                self.wf(),
                forall|j: int|
                    0 <= j < idx ==> #[trigger] self.secondary_indexes@[j]@ == (if erase {
                        before[j]@.difference(entries_of(key_views(all@[j]@), id))
                    } else {
                        before[j]@.union(entries_of(key_views(all@[j]@), id))
                    }),
                forall|j: int|
                    idx <= j < before.len() ==> #[trigger] self.secondary_indexes@[j]@
                        == before[j]@,
            decreases all@.len() - idx,
        {
            let ghost held = self.secondary_indexes@;
            let mut db = self.secondary_indexes.remove(idx);
            let ghost start = db@;
            let keys = &all[idx];
            let mut k: usize = 0;
            while k < keys.len()
                invariant
                    k <= keys@.len(),
                    db.wf(),
                    db@ == (if erase {
                        start.difference(entries_of(key_views(keys@).subrange(0, k as int), id))
                    } else {
                        start.union(entries_of(key_views(keys@).subrange(0, k as int), id))
                    }),
                decreases keys@.len() - k,
            {
                proof {
                    let done = key_views(keys@).subrange(0, k as int);
                    assert(key_views(keys@).subrange(0, k + 1) =~= done.push(keys@[k as int]@));
                    lemma_entries_of_push(done, keys@[k as int]@, id);
                }
                if erase {
                    db.delete(keys[k].as_slice(), id);
                } else {
                    db.insert(keys[k].as_slice(), id);
                }
                proof {
                    let done = key_views(keys@).subrange(0, k as int);
                    let more = key_views(keys@).subrange(0, k + 1);
                    if erase {
                        assert(db@ =~= start.difference(entries_of(more, id)));
                    } else {
                        assert(db@ =~= start.union(entries_of(more, id)));
                    }
                }
                k += 1;
            }
            proof {
                assert(key_views(keys@).subrange(0, k as int) =~= key_views(keys@));
                if k == 0 {
                    assert(entries_of(key_views(keys@).subrange(0, 0), id) =~= Set::<
                        (Seq<u8>, u64),
                    >::empty());
                }
            }
            self.secondary_indexes.insert(idx, db);
            proof {
                assert forall|j: int|
                    0 <= j < self.secondary_indexes@.len() && j
                        != idx implies #[trigger] self.secondary_indexes@[j] == held[j] by {}
            }
            idx += 1;
        }
    }

    /// Tells whether the entries of the record can be written, and why not
    /// where they cannot.
    pub fn check(&self, record: &Record, schema: &Schema, secondary_indexes: &[IndexDefinition]) -> (r:
        Result<(), CacheError>)
        ensures
            match build_error(
                *schema,
                secondary_indexes@,
                self.secondary_indexes@.len(),
                record@.values,
            ) {
                Some(e) => r == Err::<(), CacheError>(e),
                None => r.is_ok(),
            },
    {
        if schema.identifier.is_none() {
            return Err(CacheError::SchemaHasNoIdentifier);
        }
        if secondary_indexes.len() == 0 {
            return Err(CacheError::Index(IndexError::MissingSecondaryIndexes));
        }
        match self.collect_keys(record.values.as_slice(), secondary_indexes) {
            Ok(_) => Ok(()),
            Err(e) => Err(e),
        }
    }

    /// Writes the entries of the record `record`, with the id `id`, into
    /// every index. Where an index cannot take the record, or has no
    /// sub-database, nothing is written.
    pub fn build_indexes(
        &mut self,
        record: &Record,
        schema: &Schema,
        secondary_indexes: &[IndexDefinition],
        id: u64,
    ) -> (r: Result<(), CacheError>)
        requires
            old(self).wf(),
        ensures
            final(self).wf(),
            final(self).secondary_indexes@.len() == old(self).secondary_indexes@.len(),
            match build_error(
                *schema,
                secondary_indexes@,
                old(self).secondary_indexes@.len(),
                record@.values,
            ) {
                Some(e) => r == Err::<(), CacheError>(e)
                    && final(self).secondary_indexes@ == old(self).secondary_indexes@,
                None => r.is_ok() && (forall|j: int|
                    0 <= j < secondary_indexes@.len()
                        ==> #[trigger] final(self).entries(j) == old(self).entries(j).union(
                        entries_of(keys_in(secondary_indexes@[j], record@.values), id),
                    )) && (forall|j: int|
                    secondary_indexes@.len() <= j < old(self).secondary_indexes@.len()
                        ==> #[trigger] final(self).entries(j) == old(self).entries(j)),
            },
    {
        if schema.identifier.is_none() {
            return Err(CacheError::SchemaHasNoIdentifier);
        }
        if secondary_indexes.len() == 0 {
            return Err(CacheError::Index(IndexError::MissingSecondaryIndexes));
        }
        let all = match self.collect_keys(record.values.as_slice(), secondary_indexes) {
            Ok(all) => all,
            Err(e) => {
                return Err(e);
            },
        };
        self.write_entries(&all, id, false);
        Ok(())
    }

    /// Erases the entries of the record `record`, with the id `id`, from
    /// every index. Where an index cannot take the record, or has no
    /// sub-database, nothing is erased.
    pub fn delete_indexes(
        &mut self,
        record: &Record,
        schema: &Schema,
        secondary_indexes: &[IndexDefinition],
        id: u64,
    ) -> (r: Result<(), CacheError>)
        requires
            old(self).wf(),
        ensures
            final(self).wf(),
            final(self).secondary_indexes@.len() == old(self).secondary_indexes@.len(),
            match delete_error(
                *schema,
                secondary_indexes@,
                old(self).secondary_indexes@.len(),
                record@.values,
            ) {
                Some(e) => r == Err::<(), CacheError>(e)
                    && final(self).secondary_indexes@ == old(self).secondary_indexes@,
                None => r.is_ok() && (forall|j: int|
                    0 <= j < secondary_indexes@.len()
                        ==> #[trigger] final(self).entries(j) == old(self).entries(j).difference(
                        entries_of(keys_in(secondary_indexes@[j], record@.values), id),
                    )) && (forall|j: int|
                    secondary_indexes@.len() <= j < old(self).secondary_indexes@.len()
                        ==> #[trigger] final(self).entries(j) == old(self).entries(j)),
            },
    {
        if schema.identifier.is_none() {
            return Err(CacheError::SchemaHasNoIdentifier);
        }
        let all = match self.collect_keys(record.values.as_slice(), secondary_indexes) {
            Ok(all) => all,
            Err(e) => {
                return Err(e);
            },
        };
        self.write_entries(&all, id, true);
        Ok(())
    }
}

/// The keys of a text in a full-text index: its words are split, and the key
/// of each is kept once.
pub fn full_text_keys_in(text: &str) -> (r: Vec<Vec<u8>>)
    ensures
        key_views(r@) == crate::index::full_text_keys(text@),
{
    let words = crate::index::split_words(text);
    full_text_keys_of(&words)
}

} // verus!
