//! The record store of a stateful output port: the latest value of each
//! record by primary key, from which an operation gets the previous value
//! of the record that it changes.

use vstd::prelude::*;
use crate::errors::ExecutionError;
use crate::storage::Database;
use crate::types::{concat_encodings, Operation, Record, RecordView};

verus! {

/// The writer that retains the latest value of each primary key.
#[derive(Debug)]
pub struct RecordWriter {
    primary_index: Vec<usize>,
    store: Database<Record>,
}

/// What an operation is, as a mathematical value.
pub enum OperationView {
    Delete { old: RecordView },
    Insert { new: RecordView },
    Update { old: RecordView, new: RecordView },
}

impl View for Operation {
    type V = OperationView;

    open spec fn view(&self) -> OperationView {
        match *self {
            Operation::Delete { old } => OperationView::Delete { old: old@ },
            Operation::Insert { new } => OperationView::Insert { new: new@ },
            Operation::Update { old, new } => OperationView::Update { old: old@, new: new@ },
        }
    }
}

/// The record has a value at every position of the key.
pub open spec fn has_key(key: Seq<usize>, record: RecordView) -> bool {
    key.len() > 0 && forall|i: int| 0 <= i < key.len() ==> (#[trigger] key[i]) < record.values.len()
}

/// What the writer holds after an operation and what it passes on, or why
/// it refuses the operation.
pub open spec fn written(
    key: Seq<usize>,
    records: Map<Seq<u8>, RecordView>,
    op: OperationView,
) -> Result<(Map<Seq<u8>, RecordView>, OperationView), ExecutionError> {
    match op {
        OperationView::Insert { new } => if !has_key(key, new) {
            Err(ExecutionError::InvalidOperation)
        } else {
            Ok((records.insert(concat_encodings(new.values, key), new), op))
        },
        OperationView::Delete { old } => if !has_key(key, old) {
            Err(ExecutionError::InvalidOperation)
        } else if !records.contains_key(concat_encodings(old.values, key)) {
            Err(ExecutionError::RecordNotFound)
        } else {
            let k = concat_encodings(old.values, key);
            Ok((records.remove(k), OperationView::Delete { old: records[k] }))
        },
        OperationView::Update { old, new } => if !has_key(key, old) || !has_key(key, new) {
            Err(ExecutionError::InvalidOperation)
        } else if !records.contains_key(concat_encodings(old.values, key)) {
            Err(ExecutionError::RecordNotFound)
        } else {
            let k = concat_encodings(old.values, key);
            Ok(
                (
                    records.remove(k).insert(concat_encodings(new.values, key), new),
                    OperationView::Update { old: records[k], new },
                ),
            )
        },
    }
}

impl RecordWriter {
    /// The positions of the primary key.
    pub closed spec fn key(&self) -> Seq<usize> {
        self.primary_index@
    }

    /// The latest value of each primary key.
    pub closed spec fn records(&self) -> Map<Seq<u8>, RecordView> {
        self.store@.map_values(|r: Record| r@)
    }

    /// The invariant of the writer.
    pub closed spec fn wf(&self) -> bool {
        self.store.wf()
    }

    /// Tells whether the writer is well formed.
    pub fn is_wf(&self) -> (r: bool)
        ensures
            r == self.wf(),
    {
        self.store.is_wf()
    }

    /// A writer without records, for the given primary key.
    pub fn new(primary_index: Vec<usize>) -> (r: Self)
        ensures
            r.wf(),
            r.key() == primary_index@,
            r.records() == Map::<Seq<u8>, RecordView>::empty(),
    {
        let r = Self { primary_index, store: Database::new() };
        assert(r.records() =~= Map::<Seq<u8>, RecordView>::empty());
        r
    }

    fn key_of(&self, record: &Record) -> (r: Option<Vec<u8>>)
        ensures
            r.is_some() == has_key(self.key(), record@),
            r matches Some(k) ==> k@ == concat_encodings(record@.values, self.key()),
    {
        if self.primary_index.len() == 0 {
            return None;
        }
        let mut i: usize = 0;
        while i < self.primary_index.len()
            invariant
                i <= self.primary_index@.len(),
                forall|j: int|
                    0 <= j < i ==> (#[trigger] self.primary_index@[j]) < record.values@.len(),
            decreases self.primary_index@.len() - i,
        {
            if self.primary_index[i] >= record.values.len() {
                return None;
            }
            i += 1;
        }
        Some(record.get_key(&self.primary_index))
    }

    /// The latest value of the record with the given primary key.
    pub fn get(&self, key: &[u8]) -> (r: Option<Record>)
        requires
            self.wf(),
        ensures
            r.is_some() == self.records().contains_key(key@),
            r matches Some(found) ==> found@ == self.records()[key@],
    {
        match self.store.get(key) {
            Some(found) => Some(found.clone()),
            None => None,
        }
    }

    /// Takes an operation, and passes it on with the previous value of the
    /// record that it changes.
    ///
    /// An insert stores the record. A delete erases the record of its key,
    /// and passes on the value that was stored. An update stores the new
    /// value in place of the old one, and passes on the value that was
    /// stored as the old one. A record without the fields of the key, and a
    /// delete or update of a record that is not stored, are refused; the
    /// store is then left as it was.
    pub fn write(&mut self, op: Operation) -> (r: Result<Operation, ExecutionError>)
        requires
            old(self).wf(),
        ensures
            final(self).wf(),
            final(self).key() == old(self).key(),
            match written(old(self).key(), old(self).records(), op@) {
                Ok((records, passed)) => r matches Ok(out) && out@ == passed
                    && final(self).records() == records,
                Err(e) => r == Err::<Operation, ExecutionError>(e)
                    && final(self).records() == old(self).records(),
            },
    {
        match op {
            Operation::Insert { new } => {
                let key = match self.key_of(&new) {
                    Some(k) => k,
                    None => {
                        return Err(ExecutionError::InvalidOperation);
                    },
                };
                self.store.put(key.as_slice(), new.clone());
                assert(self.records() =~= old(self).records().insert(key@, new@));
                Ok(Operation::Insert { new })
            },
            Operation::Delete { old: previous } => {
                let key = match self.key_of(&previous) {
                    Some(k) => k,
                    None => {
                        return Err(ExecutionError::InvalidOperation);
                    },
                };
                let stored = match self.store.get(key.as_slice()) {
                    Some(found) => found.clone(),
                    None => {
                        return Err(ExecutionError::RecordNotFound);
                    },
                };
                self.store.del(key.as_slice());
                assert(self.records() =~= old(self).records().remove(key@));
                Ok(Operation::Delete { old: stored })
            },
            Operation::Update { old: previous, new } => {
                let old_key = match self.key_of(&previous) {
                    Some(k) => k,
                    None => {
                        return Err(ExecutionError::InvalidOperation);
                    },
                };
                let new_key = match self.key_of(&new) {
                    Some(k) => k,
                    None => {
                        return Err(ExecutionError::InvalidOperation);
                    },
                };
                let stored = match self.store.get(old_key.as_slice()) {
                    Some(found) => found.clone(),
                    None => {
                        return Err(ExecutionError::RecordNotFound);
                    },
                };
                self.store.del(old_key.as_slice());
                self.store.put(new_key.as_slice(), new.clone());
                assert(self.records() =~= old(self).records().remove(old_key@).insert(
                    new_key@,
                    new@,
                ));
                Ok(Operation::Update { old: stored, new })
            },
        }
    }
}

} // verus!
