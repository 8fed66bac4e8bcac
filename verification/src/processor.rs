//! The aggregation processor: it keeps one value for each group of records
//! and answers every change of a record with the change of the row of its
//! group.

use vstd::prelude::*;
use crate::aggregator::AggregationResult;
use crate::bytes::bytes_eq;
use crate::errors::PipelineError;
use crate::field::{Field, FieldType, FieldValue};
use crate::indexer::value_views;
use crate::max::{invalid_operand_of, MaxAggregator};
use crate::storage::Database;
use crate::record_store::OperationView;
use crate::types::{concat_encodings, Operation, Record, RecordView};

verus! {

/// The function that a processor computes of each group.
#[derive(Clone, Copy, Debug, PartialEq, Eq, Structural)]
pub enum AggregatorKind {
    Count,
    Max,
    Min,
    Sum,
}

/// The name by which the COUNT aggregator is known.
pub const COUNT_NAME: &'static str = "COUNT";

/// The COUNT aggregator: the number of records of a group.
#[derive(Debug)]
pub struct CountAggregator {}

/// The count that the bytes of a state hold: none is zero, and eight bytes
/// are a big-endian number.
pub open spec fn count_in(state: Option<Seq<u8>>) -> Option<u64> {
    match state {
        None => Some(0),
        Some(bytes) => if bytes.len() == 8 {
            Some(crate::bigendian::be_value(bytes) as u64)
        } else {
            None
        },
    }
}

/// The answer of the COUNT aggregator for a count: the count as a signed
/// number, and its eight bytes as its state.
pub open spec fn count_answer(r: Result<AggregationResult, PipelineError>, count: u64) -> bool {
    &&& r matches Ok(res)
    &&& res.value@ == FieldValue::Int(count as i64)
    &&& res.state matches Some(s)
    &&& s@ == crate::bigendian::be(count as nat, 8)
}

impl CountAggregator {
    pub fn _get_type() -> (r: u32)
        ensures
            r == 0x02,
    {
        0x02
    }

    fn read(cur_state: Option<&[u8]>) -> (r: Option<u64>)
        ensures
            r == count_in(
                match cur_state {
                    Some(b) => Some(b@),
                    None => None,
                },
            ),
    {
        match cur_state {
            None => Some(0),
            Some(bytes) => {
                if bytes.len() != 8 {
                    return None;
                }
                proof {
                    crate::bigendian::lemma_be_value_bound(bytes@);
                    crate::bigendian::lemma_pow256_8();
                }
                Some(crate::bigendian::decode_be(bytes) as u64)
            },
        }
    }

    fn answer(count: u64) -> (r: Result<AggregationResult, PipelineError>)
        requires
            count <= i64::MAX,
        ensures
            count_answer(r, count),
    {
        Ok(
            AggregationResult::new(
                Field::Int(count as i64),
                Some(crate::bigendian::encode_be(count as u128, 8)),
            ),
        )
    }

    /// Counts one record more. A count that would pass the largest signed
    /// number is refused, and so is a state that holds no count.
    pub fn insert(cur_state: Option<&[u8]>) -> (r: Result<AggregationResult, PipelineError>)
        ensures
            match count_in(
                match cur_state {
                    Some(b) => Some(b@),
                    None => None,
                },
            ) {
                None => r == crate::max::malformed_error::<AggregationResult>(),
                Some(n) => if n >= i64::MAX {
                    r == Err::<AggregationResult, PipelineError>(PipelineError::NumericOverflow)
                } else {
                    count_answer(r, (n + 1) as u64)
                },
            },
    {
        match Self::read(cur_state) {
            None => Err(
                PipelineError::InternalTypeError(crate::errors::TypeError::DeserializationError),
            ),
            Some(n) => {
                if n >= i64::MAX as u64 {
                    return Err(PipelineError::NumericOverflow);
                }
                Self::answer(n + 1)
            },
        }
    }

    /// Counts one record less; a count of zero stays.
    pub fn delete(cur_state: Option<&[u8]>) -> (r: Result<AggregationResult, PipelineError>)
        ensures
            match count_in(
                match cur_state {
                    Some(b) => Some(b@),
                    None => None,
                },
            ) {
                None => r == crate::max::malformed_error::<AggregationResult>(),
                Some(n) => if n > i64::MAX + 1 {
                    r == Err::<AggregationResult, PipelineError>(PipelineError::NumericOverflow)
                } else if n == 0 {
                    count_answer(r, 0)
                } else {
                    count_answer(r, (n - 1) as u64)
                },
            },
    {
        match Self::read(cur_state) {
            None => Err(
                PipelineError::InternalTypeError(crate::errors::TypeError::DeserializationError),
            ),
            Some(n) => {
                if n > i64::MAX as u64 + 1 {
                    return Err(PipelineError::NumericOverflow);
                }
                if n == 0 {
                    Self::answer(0)
                } else {
                    Self::answer(n - 1)
                }
            },
        }
    }

    /// A record that changes within its group leaves the count as it is.
    pub fn update(cur_state: Option<&[u8]>) -> (r: Result<AggregationResult, PipelineError>)
        ensures
            match count_in(
                match cur_state {
                    Some(b) => Some(b@),
                    None => None,
                },
            ) {
                None => r == crate::max::malformed_error::<AggregationResult>(),
                Some(n) => if n > i64::MAX {
                    r == Err::<AggregationResult, PipelineError>(PipelineError::NumericOverflow)
                } else {
                    count_answer(r, n)
                },
            },
    {
        match Self::read(cur_state) {
            None => Err(
                PipelineError::InternalTypeError(crate::errors::TypeError::DeserializationError),
            ),
            Some(n) => {
                if n > i64::MAX as u64 {
                    return Err(PipelineError::NumericOverflow);
                }
                Self::answer(n)
            },
        }
    }
}

/// The values at the given positions, in the order of the positions.
pub open spec fn chosen(values: Seq<FieldValue>, positions: Seq<usize>) -> Seq<FieldValue> {
    Seq::new(positions.len(), |i: int| values[positions[i] as int])
}

/// The row of a group: the values of the group, then its aggregate.
pub open spec fn group_row(group: Seq<FieldValue>, aggregate: FieldValue) -> Seq<FieldValue> {
    group.push(aggregate)
}

/// What the row of a group does when the number of its records goes from
/// `before` to `after` and its aggregate from `previous` to `current`: it
/// is inserted when the group gets its first record, deleted when it loses
/// its last one, updated when the aggregate changes, and left alone else.
pub open spec fn row_change(
    before: u64,
    after: u64,
    group: Seq<FieldValue>,
    previous: FieldValue,
    current: FieldValue,
) -> Option<OperationView> {
    let old_row = RecordView {
        schema_id: None,
        values: group_row(group, previous),
        version: None,
    };
    let new_row = RecordView {
        schema_id: None,
        values: group_row(group, current),
        version: None,
    };
    if before == 0 && after == 0 {
        None
    } else if before == 0 {
        Some(OperationView::Insert { new: new_row })
    } else if after == 0 {
        Some(OperationView::Delete { old: old_row })
    } else if previous != current {
        Some(OperationView::Update { old: old_row, new: new_row })
    } else {
        None
    }
}

fn row_of(group: &Vec<Field>, aggregate: &Field) -> (r: Record)
    ensures
        r@ == (RecordView {
            schema_id: None,
            values: group_row(value_views(group@), aggregate@),
            version: None,
        }),
{
    let mut values: Vec<Field> = Vec::new();
    let mut i: usize = 0;
    while i < group.len()
        invariant
            i <= group@.len(),
            value_views(values@) == value_views(group@).subrange(0, i as int),
        decreases group@.len() - i,
    {
        let ghost before = value_views(values@);
        values.push(group[i].clone());
        assert(value_views(values@) =~= before.push(group@[i as int]@));
        i += 1;
        assert(value_views(values@) =~= value_views(group@).subrange(0, i as int));
    }
    assert(value_views(group@).subrange(0, i as int) =~= value_views(group@));
    let ghost before = value_views(values@);
    values.push(aggregate.clone());
    assert(value_views(values@) =~= before.push(aggregate@));
    Record::new(None, values, None)
}

/// Tells what the row of a group does when the number of its records goes
/// from `before` to `after` and its aggregate from `previous` to `current`.
pub fn emit_row_change(
    before: u64,
    after: u64,
    group: &Vec<Field>,
    previous: &Field,
    current: &Field,
) -> (r: Option<Operation>)
    ensures
        match row_change(before, after, value_views(group@), previous@, current@) {
            Some(op) => r matches Some(out) && out@ == op,
            None => r.is_none(),
        },
{
    if before == 0 && after == 0 {
        None
    } else if before == 0 {
        Some(Operation::Insert { new: row_of(group, current) })
    } else if after == 0 {
        Some(Operation::Delete { old: row_of(group, previous) })
    } else if !previous.same(current) {
        Some(Operation::Update { old: row_of(group, previous), new: row_of(group, current) })
    } else {
        None
    }
}

/// What a processor keeps of a group.
#[derive(Debug)]
pub struct Group {
    /// The encoded values of the group.
    pub key: Vec<u8>,
    /// The values of the group.
    pub values: Vec<Field>,
    /// The number of records of the group.
    pub count: u64,
    /// How often each value of the measure occurs in the group.
    pub state: Database<u64>,
    /// The running sum of the measure, as the SUM aggregator holds it.
    pub sum: Option<Vec<u8>>,
    /// The aggregate of the group.
    pub current: Field,
}

/// A processor that computes one aggregate of each group of its input.
#[derive(Debug)]
pub struct AggregationProcessor {
    pub kind: AggregatorKind,
    /// The positions of the fields that form a group.
    pub group_by: Vec<usize>,
    /// The position of the field that is aggregated.
    pub measure: usize,
    /// The type of the aggregate.
    pub return_type: FieldType,
    pub groups: Vec<Group>,
}

impl AggregationProcessor {
    /// The invariant of the processor: every group has records and a well
    /// formed state, and no two groups have the same key.
    pub open spec fn wf(&self) -> bool {
        &&& forall|i: int|
            0 <= i < self.groups@.len() ==> (#[trigger] self.groups@[i]).state.wf()
                && self.groups@[i].count > 0
        &&& distinct_keys(self.groups@)
    }

    /// A processor without groups.
    pub fn new(kind: AggregatorKind, group_by: Vec<usize>, measure: usize, return_type: FieldType) -> (r:
        Self)
        ensures
            r.wf(),
            r.kind == kind,
            r.group_by == group_by,
            r.measure == measure,
            r.return_type == return_type,
            r.groups@.len() == 0,
    {
        Self { kind, group_by, measure, return_type, groups: Vec::new() }
    }

    /// The record has the fields of the group and the measure.
    pub open spec fn takes(&self, values: Seq<FieldValue>) -> bool {
        &&& self.measure < values.len()
        &&& forall|i: int|
            0 <= i < self.group_by@.len() ==> (#[trigger] self.group_by@[i]) < values.len()
    }

    fn check(&self, record: &Record) -> (r: bool)
        ensures
            r == self.takes(record@.values),
    {
        if self.measure >= record.values.len() {
            return false;
        }
        let mut i: usize = 0;
        while i < self.group_by.len()
            invariant
                i <= self.group_by@.len(),
                forall|j: int| 0 <= j < i ==> (#[trigger] self.group_by@[j]) < record.values@.len(),
            decreases self.group_by@.len() - i,
        {
            if self.group_by[i] >= record.values.len() {
                return false;
            }
            i += 1;
        }
        true
    }

    fn group_key(&self, record: &Record) -> (r: Vec<u8>)
        requires
            self.takes(record@.values),
        ensures
            r@ == concat_encodings(record@.values, self.group_by@),
    {
        if self.group_by.len() == 0 {
            Vec::new()
        } else {
            record.get_key(&self.group_by)
        }
    }

    fn group_values(&self, record: &Record) -> (r: Vec<Field>)
        requires
            self.takes(record@.values),
        ensures
            value_views(r@) == chosen(record@.values, self.group_by@),
    {
        let mut values: Vec<Field> = Vec::new();
        let mut i: usize = 0;
        while i < self.group_by.len()
            invariant
                i <= self.group_by@.len(),
                self.takes(record@.values),
                values@.len() == i,
                forall|j: int|
                    0 <= j < i ==> (#[trigger] values@[j])@
                        == record@.values[self.group_by@[j] as int],
            decreases self.group_by@.len() - i,
        {
            assert(self.group_by@[i as int] < record.values@.len());
            values.push(record.values[self.group_by[i]].clone());
            i += 1;
        }
        assert(value_views(values@) =~= chosen(record@.values, self.group_by@));
        values
    }

    fn find_group(&self, key: &[u8]) -> (r: Option<usize>)
        ensures
            r matches Some(p) ==> p < self.groups@.len() && self.groups@[p as int].key@ == key@,
            r.is_none() ==> forall|i: int|
                0 <= i < self.groups@.len() ==> (#[trigger] self.groups@[i]).key@ != key@,
    {
        let mut i: usize = 0;
        while i < self.groups.len()
            invariant
                i <= self.groups@.len(),
                forall|j: int| 0 <= j < i ==> (#[trigger] self.groups@[j]).key@ != key@,
            decreases self.groups@.len() - i,
        {
            if bytes_eq(self.groups[i].key.as_slice(), key) {
                return Some(i);
            }
            i += 1;
        }
        None
    }

    fn aggregate(&self, group: &mut Group, value: &Field, insert: bool) -> (r: Result<
        Field,
        PipelineError,
    >)
        requires
            old(group).state.wf(),
        ensures
            final(group).state.wf(),
            final(group).key == old(group).key,
            final(group).values == old(group).values,
            final(group).current == old(group).current,
            ({
                let step = aggregate_step(
                    self.kind,
                    self.return_type,
                    group_view(*old(group)),
                    value@,
                    insert,
                );
                &&& final(group).count == step.0.count
                &&& final(group).state@ == step.0.counts
                &&& group_view(*final(group)).sum == step.0.sum
                &&& match step.1 {
                    None => r matches Ok(value_now) && value_now@ == step.0.aggregate,
                    Some(f) => fails_with(r, f),
                }
            }),
    {
        if insert && group.count == u64::MAX {
            return Err(PipelineError::NumericOverflow);
        }
        if !insert && group.count == 0 {
            return Err(PipelineError::NumericOverflow);
        }
        let now = if insert {
            group.count + 1
        } else {
            group.count - 1
        };
        let answer = match self.kind {
            AggregatorKind::Count => {
                if now > i64::MAX as u64 {
                    Err(PipelineError::NumericOverflow)
                } else {
                    CountAggregator::answer(now)
                }
            },
            AggregatorKind::Max => {
                if insert {
                    MaxAggregator::insert(None, value, self.return_type, &mut group.state)
                } else {
                    MaxAggregator::delete(None, value, self.return_type, &mut group.state)
                }
            },
            AggregatorKind::Min => {
                if insert {
                    crate::min::MinAggregator::insert(
                        None,
                        value,
                        self.return_type,
                        &mut group.state,
                    )
                } else {
                    crate::min::MinAggregator::delete(
                        None,
                        value,
                        self.return_type,
                        &mut group.state,
                    )
                }
            },
            AggregatorKind::Sum => {
                let state: Option<&[u8]> = match &group.sum {
                    Some(s) => Some(s.as_slice()),
                    None => None,
                };
                if insert {
                    crate::sum::SumAggregator::insert(state, value, self.return_type)
                } else {
                    crate::sum::SumAggregator::delete(state, value, self.return_type)
                }
            },
        };
        match answer {
            Ok(res) => {
                group.count = now;
                if self.kind == AggregatorKind::Sum {
                    group.sum = res.state;
                }
                Ok(res.value)
            },
            Err(e) => Err(e),
        }
    }

    /// What the processor keeps of the group with the given key.
    pub open spec fn group_state(&self, key: Seq<u8>) -> GroupView {
        state_among(self.groups@, key)
    }

    /// The processor computes what `other` computes.
    pub open spec fn same_settings(&self, other: &AggregationProcessor) -> bool {
        &&& self.kind == other.kind
        &&& self.group_by == other.group_by
        &&& self.measure == other.measure
        &&& self.return_type == other.return_type
    }

    /// The key of the group of a record.
    pub open spec fn key_of(&self, record: RecordView) -> Seq<u8> {
        concat_encodings(record.values, self.group_by@)
    }

    /// What the aggregator does with the group of a record that joins the
    /// group, or leaves it.
    pub open spec fn step_of(&self, record: RecordView, insert: bool) -> (GroupView, Option<Failure>) {
        aggregate_step(
            self.kind,
            self.return_type,
            self.group_state(self.key_of(record)),
            record.values[self.measure as int],
            insert,
        )
    }

    /// Why a record cannot join its group, or leave it, if it cannot: it
    /// lacks a field of the group or the measure, it is to leave a group
    /// without records, or the aggregator fails.
    pub open spec fn change_failure(&self, record: RecordView, insert: bool) -> Option<Failure> {
        if !self.takes(record.values) {
            Some(Failure::InvalidOperand(kind_name(self.kind)))
        } else if !insert && self.group_state(self.key_of(record)).count == 0 {
            Some(Failure::InvalidOperand(kind_name(self.kind)))
        } else {
            self.step_of(record, insert).1
        }
    }

    /// What the row of the group of a record does when the record joins the
    /// group, or leaves it.
    pub open spec fn change_output(&self, record: RecordView, insert: bool) -> Option<
        OperationView,
    > {
        let was = self.group_state(self.key_of(record));
        let step = self.step_of(record, insert).0;
        row_change(
            was.count,
            step.count,
            chosen(record.values, self.group_by@),
            was.aggregate,
            step.aggregate,
        )
    }

    /// What is kept of the group with the key `key` after a record has
    /// joined its group, or left it, or was refused. The group of the record
    /// is as the aggregator leaves it, with its new aggregate; it is kept no
    /// longer where it has lost its last record, and a group that would be
    /// new is not kept where the aggregator fails. Every other group is as
    /// it was, and so is every group where the record is refused before the
    /// aggregator is asked.
    pub open spec fn state_after(&self, record: RecordView, insert: bool, key: Seq<u8>) -> GroupView {
        let was = self.group_state(self.key_of(record));
        let step = self.step_of(record, insert);
        if !self.takes(record.values) || key != self.key_of(record) || (!insert && was.count
            == 0) {
            self.group_state(key)
        } else if step.1.is_some() {
            if was.count == 0 {
                was
            } else {
                step.0
            }
        } else if step.0.count == 0 {
            no_group()
        } else {
            step.0
        }
    }

    /// The processor `after` is this processor after a record has joined
    /// its group, or left it, or was refused.
    pub open spec fn follows(&self, after: &AggregationProcessor, record: RecordView, insert: bool) -> bool {
        &&& after.same_settings(self)
        &&& forall|key: Seq<u8>| #[trigger]
            after.group_state(key) == self.state_after(record, insert, key)
    }

    fn change(&mut self, record: &Record, insert: bool) -> (r: Result<Option<Operation>, PipelineError>)
        requires
            old(self).wf(),
        ensures
            final(self).wf(),
            old(self).follows(final(self), record@, insert),
            match old(self).change_failure(record@, insert) {
                Some(f) => fails_with(r, f),
                None => r matches Ok(out) && view_of(out) == old(self).change_output(
                    record@,
                    insert,
                ),
            },
    {
        if !self.check(record) {
            return invalid_operand_of(name_of_kind(self.kind));
        }
        let key = self.group_key(record);
        let values = self.group_values(record);
        let ghost groups_before = self.groups@;
        let measure = &record.values[self.measure];
        assert(measure@ == record@.values[self.measure as int]);
        match self.find_group(key.as_slice()) {
            Some(p) => {
                proof {
                    lemma_state_at(groups_before, p as int);
                }
                let mut group = self.groups.remove(p);
                let before = group.count;
                let previous = group.current.clone();
                let answer = self.aggregate(&mut group, measure, insert);
                match answer {
                    Ok(current) => {
                        let after = group.count;
                        let out = emit_row_change(before, after, &values, &previous, &current);
                        if after > 0 {
                            group.current = current;
                            self.groups.insert(p, group);
                            proof {
                                assert forall|i: int|
                                    0 <= i < self.groups@.len() && i != p
                                        implies #[trigger] self.groups@[i]
                                    == groups_before[i] by {}
                                assert(self.groups@[p as int].key@ == key@);
                                lemma_state_at(self.groups@, p as int);
                                assert forall|other: Seq<u8>| #[trigger]
                                    self.group_state(other) == old(self).state_after(
                                        record@,
                                        insert,
                                        other,
                                    ) by {
                                    if other != key@ {
                                        lemma_state_replaced(
                                            groups_before,
                                            self.groups@,
                                            p as int,
                                            other,
                                        );
                                    }
                                }
                            }
                        } else {
                            proof {
                                assert(self.groups@ =~= groups_before.remove(p as int));
                                assert forall|other: Seq<u8>| #[trigger]
                                    self.group_state(other) == old(self).state_after(
                                        record@,
                                        insert,
                                        other,
                                    ) by {
                                    if other != key@ {
                                        lemma_state_removed(groups_before, p as int, other);
                                    } else {
                                        lemma_group_removed(groups_before, p as int);
                                    }
                                }
                                lemma_group_removed(groups_before, p as int);
                            }
                        }
                        Ok(out)
                    },
                    Err(e) => {
                        self.groups.insert(p, group);
                        proof {
                            assert forall|i: int|
                                0 <= i < self.groups@.len() && i != p
                                    implies #[trigger] self.groups@[i]
                                == groups_before[i] by {}
                            assert(self.groups@[p as int].key@ == key@);
                            lemma_state_at(self.groups@, p as int);
                            assert forall|other: Seq<u8>| #[trigger]
                                self.group_state(other) == old(self).state_after(
                                    record@,
                                    insert,
                                    other,
                                ) by {
                                if other != key@ {
                                    lemma_state_replaced(
                                        groups_before,
                                        self.groups@,
                                        p as int,
                                        other,
                                    );
                                }
                            }
                        }
                        Err(e)
                    },
                }
            },
            None => {
                assert(self.group_state(key@) == no_group());
                if !insert {
                    return invalid_operand_of(name_of_kind(self.kind));
                }
                let mut group = Group {
                    key,
                    values: self.group_values(record),
                    count: 0,
                    state: Database::new(),
                    sum: None,
                    current: Field::Null,
                };
                let ghost key_view = group.key@;
                assert(group_view(group) == no_group());
                let answer = self.aggregate(&mut group, measure, true);
                match answer {
                    Ok(current) => {
                        let out = emit_row_change(0, group.count, &values, &Field::Null, &current);
                        group.current = current;
                        self.groups.push(group);
                        proof {
                            let last = self.groups@.len() - 1;
                            assert(self.groups@[last].key@ == key_view);
                            assert forall|i: int| 0 <= i < last implies #[trigger] self.groups@[i]
                                == groups_before[i] by {}
                            assert(self.groups@ =~= groups_before.push(self.groups@[last]));
                            lemma_group_pushed(groups_before, self.groups@[last]);
                            lemma_state_at(self.groups@, last);
                            assert forall|other: Seq<u8>| #[trigger]
                                self.group_state(other) == old(self).state_after(
                                    record@,
                                    insert,
                                    other,
                                ) by {
                                if other != key_view {
                                    lemma_state_pushed(groups_before, self.groups@[last], other);
                                }
                            }
                        }
                        Ok(out)
                    },
                    Err(e) => Err(e),
                }
            },
        }
    }
}

/// What an operation is, if there is one.
pub open spec fn view_of(op: Option<Operation>) -> Option<OperationView> {
    match op {
        Some(o) => Some(o@),
        None => None,
    }
}

/// What a processor keeps of a group, as a mathematical value.
pub struct GroupView {
    pub count: u64,
    pub aggregate: FieldValue,
    pub counts: Map<Seq<u8>, u64>,
    pub sum: Option<Seq<u8>>,
}

/// What a group holds.
pub open spec fn group_view(group: Group) -> GroupView {
    GroupView {
        count: group.count,
        aggregate: group.current@,
        counts: group.state@,
        sum: match group.sum {
            Some(s) => Some(s@),
            None => None,
        },
    }
}

/// What is kept of a group without records: no record, the aggregate
/// `Null` and no counts.
pub open spec fn no_group() -> GroupView {
    GroupView {
        count: 0,
        aggregate: FieldValue::Null,
        counts: Map::<Seq<u8>, u64>::empty(),
        sum: None,
    }
}

/// Why an operator fails.
pub enum Failure {
    /// A value or a type that the aggregator of the given name cannot take.
    InvalidOperand(Seq<char>),
    /// Bytes that hold no value of the type asked for.
    Malformed,
    InvalidTimestamp,
    AmbiguousTimestamp,
    NumericOverflow,
}

/// The result is the error of the failure.
pub open spec fn fails_with<T>(r: Result<T, PipelineError>, failure: Failure) -> bool {
    match failure {
        Failure::InvalidOperand(name) => crate::max::is_invalid_operand_of(r, name),
        Failure::Malformed => r == Err::<T, PipelineError>(
            PipelineError::InternalTypeError(crate::errors::TypeError::DeserializationError),
        ),
        Failure::InvalidTimestamp => r == Err::<T, PipelineError>(
            PipelineError::InternalTypeError(crate::errors::TypeError::InvalidTimestamp),
        ),
        Failure::AmbiguousTimestamp => r == Err::<T, PipelineError>(
            PipelineError::InternalTypeError(crate::errors::TypeError::AmbiguousTimestamp),
        ),
        Failure::NumericOverflow => r == Err::<T, PipelineError>(PipelineError::NumericOverflow),
    }
}

/// The name of the aggregator of a kind.
pub open spec fn kind_name(kind: AggregatorKind) -> Seq<char> {
    match kind {
        AggregatorKind::Count => COUNT_NAME@,
        AggregatorKind::Max => crate::max::AGGREGATOR_NAME@,
        AggregatorKind::Min => crate::min::MIN_NAME@,
        AggregatorKind::Sum => crate::sum::SUM_NAME@,
    }
}

/// The name of the aggregator of a kind.
pub fn name_of_kind(kind: AggregatorKind) -> (r: &'static str)
    ensures
        r@ == kind_name(kind),
{
    match kind {
        AggregatorKind::Count => COUNT_NAME,
        AggregatorKind::Max => crate::max::AGGREGATOR_NAME,
        AggregatorKind::Min => crate::min::MIN_NAME,
        AggregatorKind::Sum => crate::sum::SUM_NAME,
    }
}

/// The value that is read from the greatest key of the counts, or from the
/// least one: `Null` where nothing is counted, and a failure where the key
/// holds no value of the type.
pub open spec fn answer_of_counts(counts: Map<Seq<u8>, u64>, t: FieldType, greatest: bool) -> Result<
    FieldValue,
    Failure,
> {
    if counts == Map::<Seq<u8>, u64>::empty() {
        Ok(FieldValue::Null)
    } else {
        match crate::max::decode_value(
            if greatest {
                crate::aggregator::greatest_key(counts)
            } else {
                crate::aggregator::least_key(counts)
            },
            t,
        ) {
            crate::aggregator::Decoded::Value(v) => Ok(v),
            crate::aggregator::Decoded::Malformed => Err(Failure::Malformed),
            crate::aggregator::Decoded::InvalidTimestamp => Err(Failure::InvalidTimestamp),
            crate::aggregator::Decoded::AmbiguousTimestamp => Err(Failure::AmbiguousTimestamp),
        }
    }
}

/// What MAX, or MIN, does with a group that the value `value` joins, or
/// leaves: the value is counted once more, or once less, and the aggregate
/// is read from the greatest key, or the least. Where the key cannot be
/// read the value stays counted, and the number of records and the
/// aggregate stay as they were.
pub open spec fn extreme_step(
    greatest: bool,
    t: FieldType,
    was: GroupView,
    value: FieldValue,
    insert: bool,
) -> (GroupView, Option<Failure>) {
    match crate::max::value_key(value, t) {
        None => (
            was,
            Some(
                Failure::InvalidOperand(
                    if greatest {
                        crate::max::AGGREGATOR_NAME@
                    } else {
                        crate::min::MIN_NAME@
                    },
                ),
            ),
        ),
        Some(k) => if insert && crate::aggregator::count_of(was.counts, k) + 1 > u64::MAX {
            (was, Some(Failure::NumericOverflow))
        } else {
            let counts = if insert {
                crate::aggregator::counted_up(was.counts, k, 1)
            } else {
                crate::aggregator::counted_down(was.counts, k, 1)
            };
            match answer_of_counts(counts, t, greatest) {
                Ok(v) => (
                    GroupView {
                        count: (if insert {
                            was.count + 1
                        } else {
                            was.count - 1
                        }) as u64,
                        aggregate: v,
                        counts,
                        sum: was.sum,
                    },
                    None,
                ),
                Err(f) => (
                    GroupView {
                        count: was.count,
                        aggregate: was.aggregate,
                        counts,
                        sum: was.sum,
                    },
                    Some(f),
                ),
            }
        },
    }
}

/// What SUM does with a group that the value `value` joins, or leaves: the
/// value is added to the running sum, or taken from it.
pub open spec fn sum_step(t: FieldType, was: GroupView, value: FieldValue, insert: bool) -> (
    GroupView,
    Option<Failure>,
) {
    match crate::sum::addend(value, t) {
        None => (was, Some(Failure::InvalidOperand(crate::sum::SUM_NAME@))),
        Some(x) => match crate::sum::sum_in(was.sum, t) {
            None => (was, Some(Failure::Malformed)),
            Some(current) => match crate::sum::sum_value(
                if insert {
                    current + x
                } else {
                    current - x
                },
                t,
            ) {
                None => (was, Some(Failure::NumericOverflow)),
                Some(v) => (
                    GroupView {
                        count: (if insert {
                            was.count + 1
                        } else {
                            was.count - 1
                        }) as u64,
                        aggregate: v,
                        counts: was.counts,
                        sum: Some(crate::field::data_encoding(v)),
                    },
                    None,
                ),
            },
        },
    }
}

/// What the aggregator of a kind does with a group that the value `value`
/// of the measure joins, or leaves: the group as it is left, and the
/// failure, if there is one. A group cannot take more records than the
/// largest number, nor lose one that it has not; COUNT answers the number
/// of records, which must be a signed number.
pub open spec fn aggregate_step(
    kind: AggregatorKind,
    t: FieldType,
    was: GroupView,
    value: FieldValue,
    insert: bool,
) -> (GroupView, Option<Failure>) {
    if (insert && was.count == u64::MAX) || (!insert && was.count == 0) {
        (was, Some(Failure::NumericOverflow))
    } else {
        match kind {
            AggregatorKind::Count => {
                let now = if insert {
                    was.count + 1
                } else {
                    was.count - 1
                };
                if now > i64::MAX {
                    (was, Some(Failure::NumericOverflow))
                } else {
                    (
                        GroupView {
                            count: now as u64,
                            aggregate: FieldValue::Int(now as i64),
                            counts: was.counts,
                            sum: was.sum,
                        },
                        None,
                    )
                }
            },
            AggregatorKind::Max => extreme_step(true, t, was, value, insert),
            AggregatorKind::Min => extreme_step(false, t, was, value, insert),
            AggregatorKind::Sum => sum_step(t, was, value, insert),
        }
    }
}

/// No two groups have the same key.
pub open spec fn distinct_keys(groups: Seq<Group>) -> bool {
    forall|i: int, j: int|
        0 <= i < j < groups.len() ==> (#[trigger] groups[i]).key@ != (#[trigger] groups[j]).key@
}

/// What is kept of the group with the given key among the groups.
pub open spec fn state_among(groups: Seq<Group>, key: Seq<u8>) -> GroupView {
    if exists|i: int| 0 <= i < groups.len() && (#[trigger] groups[i]).key@ == key {
        let i = choose|i: int| 0 <= i < groups.len() && (#[trigger] groups[i]).key@ == key;
        group_view(groups[i])
    } else {
        no_group()
    }
}

/// What is kept of the key of a group is what the group holds.
pub proof fn lemma_state_at(groups: Seq<Group>, p: int)
    requires
        distinct_keys(groups),
        0 <= p < groups.len(),
    ensures
        state_among(groups, groups[p].key@) == group_view(groups[p]),
{
    let key = groups[p].key@;
    let i = choose|i: int| 0 <= i < groups.len() && (#[trigger] groups[i]).key@ == key;
    if i < p {
        assert(groups[i].key@ != groups[p].key@);
    } else if p < i {
        assert(groups[p].key@ != groups[i].key@);
    }
}

/// Where one group is replaced, the same is kept of every other key.
pub proof fn lemma_state_replaced(before: Seq<Group>, after: Seq<Group>, p: int, key: Seq<u8>)
    requires
        distinct_keys(before),
        distinct_keys(after),
        before.len() == after.len(),
        0 <= p < before.len(),
        forall|i: int| 0 <= i < before.len() && i != p ==> #[trigger] after[i] == before[i],
        before[p].key@ != key,
        after[p].key@ != key,
    ensures
        state_among(after, key) == state_among(before, key),
{
    if exists|i: int| 0 <= i < before.len() && (#[trigger] before[i]).key@ == key {
        let i = choose|i: int| 0 <= i < before.len() && (#[trigger] before[i]).key@ == key;
        assert(after[i] == before[i]);
        lemma_state_at(before, i);
        lemma_state_at(after, i);
    } else if exists|j: int| 0 <= j < after.len() && (#[trigger] after[j]).key@ == key {
        let j = choose|j: int| 0 <= j < after.len() && (#[trigger] after[j]).key@ == key;
        assert(after[j] == before[j]);
    }
}

/// Where one group is taken out, the keys of the others stay different, and
/// nothing is kept of the key of the group.
pub proof fn lemma_group_removed(before: Seq<Group>, p: int)
    requires
        distinct_keys(before),
        0 <= p < before.len(),
    ensures
        distinct_keys(before.remove(p)),
        state_among(before.remove(p), before[p].key@) == no_group(),
{
    let after = before.remove(p);
    assert forall|i: int, j: int| 0 <= i < j < after.len() implies (#[trigger] after[i]).key@ != (
    #[trigger] after[j]).key@ by {
        let i2 = if i < p { i } else { i + 1 };
        let j2 = if j < p { j } else { j + 1 };
        assert(after[i] == before[i2]);
        assert(after[j] == before[j2]);
    }
    assert forall|j: int| 0 <= j < after.len() implies (#[trigger] after[j]).key@
        != before[p].key@ by {
        let j2 = if j < p { j } else { j + 1 };
        assert(after[j] == before[j2]);
        if j2 < p {
            assert(before[j2].key@ != before[p].key@);
        } else {
            assert(before[p].key@ != before[j2].key@);
        }
    }
}

/// Where one group is taken out, the same is kept of every other key.
pub proof fn lemma_state_removed(before: Seq<Group>, p: int, key: Seq<u8>)
    requires
        distinct_keys(before),
        0 <= p < before.len(),
        before[p].key@ != key,
    ensures
        state_among(before.remove(p), key) == state_among(before, key),
{
    let after = before.remove(p);
    lemma_group_removed(before, p);
    if exists|i: int| 0 <= i < before.len() && (#[trigger] before[i]).key@ == key {
        let i = choose|i: int| 0 <= i < before.len() && (#[trigger] before[i]).key@ == key;
        let i2 = if i < p { i } else { i - 1 };
        assert(after[i2] == before[i]);
        lemma_state_at(before, i);
        lemma_state_at(after, i2);
    } else if exists|j: int| 0 <= j < after.len() && (#[trigger] after[j]).key@ == key {
        let j = choose|j: int| 0 <= j < after.len() && (#[trigger] after[j]).key@ == key;
        let j2 = if j < p { j } else { j + 1 };
        assert(after[j] == before[j2]);
    }
}

/// Where a group of a new key joins, the keys stay different.
pub proof fn lemma_group_pushed(before: Seq<Group>, group: Group)
    requires
        distinct_keys(before),
        forall|i: int| 0 <= i < before.len() ==> (#[trigger] before[i]).key@ != group.key@,
    ensures
        distinct_keys(before.push(group)),
{
    let after = before.push(group);
    assert forall|i: int, j: int| 0 <= i < j < after.len() implies (#[trigger] after[i]).key@ != (
    #[trigger] after[j]).key@ by {
        assert(after[i] == before[i]);
        if j < before.len() {
            assert(after[j] == before[j]);
        }
    }
}

/// Where a group of a new key joins, the same is kept of every other key.
pub proof fn lemma_state_pushed(before: Seq<Group>, group: Group, key: Seq<u8>)
    requires
        distinct_keys(before),
        forall|i: int| 0 <= i < before.len() ==> (#[trigger] before[i]).key@ != group.key@,
        group.key@ != key,
    ensures
        state_among(before.push(group), key) == state_among(before, key),
{
    let after = before.push(group);
    lemma_group_pushed(before, group);
    if exists|i: int| 0 <= i < before.len() && (#[trigger] before[i]).key@ == key {
        let i = choose|i: int| 0 <= i < before.len() && (#[trigger] before[i]).key@ == key;
        assert(after[i] == before[i]);
        lemma_state_at(before, i);
        lemma_state_at(after, i);
    } else if exists|j: int| 0 <= j < after.len() && (#[trigger] after[j]).key@ == key {
        let j = choose|j: int| 0 <= j < after.len() && (#[trigger] after[j]).key@ == key;
        assert(after[j] == before[j]);
    }
}

/// What each operation of a sequence is.
pub open spec fn operation_views(ops: Seq<Operation>) -> Seq<OperationView> {
    ops.map_values(|o: Operation| o@)
}

/// The change of a row, if there is one, as a sequence.
pub open spec fn as_sequence(op: Option<OperationView>) -> Seq<OperationView> {
    match op {
        Some(o) => seq![o],
        None => Seq::empty(),
    }
}

impl AggregationProcessor {
    /// Takes a change of a record of the input and answers with the changes
    /// of the rows of the groups.
    ///
    /// An insert counts the record in its group, a delete takes it out; an
    /// update takes the old record out of its group and counts the new one
    /// in its own. The row of a group is inserted with the first record of
    /// the group, deleted with its last one, and updated in between where
    /// the aggregate changes. A record without the fields of the group or
    /// the measure is refused, and so is the delete of a record of a group
    /// without records, and what the aggregator refuses. Where the second
    /// step of an update fails, the first one stays done.
    pub fn process(&mut self, op: Operation) -> (r: Result<Vec<Operation>, PipelineError>)
        requires
            old(self).wf(),
        ensures
            final(self).wf(),
            final(self).same_settings(old(self)),
            match op@ {
                OperationView::Insert { new } => {
                    &&& old(self).follows(final(self), new, true)
                    &&& match old(self).change_failure(new, true) {
                        Some(f) => fails_with(r, f),
                        None => r matches Ok(out) && operation_views(out@) == as_sequence(
                            old(self).change_output(new, true),
                        ),
                    }
                },
                OperationView::Delete { old: gone } => {
                    &&& old(self).follows(final(self), gone, false)
                    &&& match old(self).change_failure(gone, false) {
                        Some(f) => fails_with(r, f),
                        None => r matches Ok(out) && operation_views(out@) == as_sequence(
                            old(self).change_output(gone, false),
                        ),
                    }
                },
                OperationView::Update { old: gone, new } => match old(self).change_failure(
                    gone,
                    false,
                ) {
                    Some(f) => fails_with(r, f) && old(self).follows(final(self), gone, false),
                    None => exists|between: AggregationProcessor|
                        #![trigger old(self).follows(&between, gone, false)]
                        {
                            &&& old(self).follows(&between, gone, false)
                            &&& between.follows(final(self), new, true)
                            &&& match between.change_failure(new, true) {
                                Some(f) => fails_with(r, f),
                                None => r matches Ok(out) && operation_views(out@) == as_sequence(
                                    old(self).change_output(gone, false),
                                ) + as_sequence(between.change_output(new, true)),
                            }
                        },
                },
            },
    {
        let mut out: Vec<Operation> = Vec::new();
        assert(operation_views(out@) =~= Seq::<OperationView>::empty());
        match op {
            Operation::Insert { new } => {
                match self.change(&new, true) {
                    Ok(change) => {
                        let ghost c = view_of(change);
                        match change {
                            Some(o) => {
                                out.push(o);
                            },
                            None => {},
                        }
                        assert(operation_views(out@) =~= as_sequence(c));
                    },
                    Err(e) => {
                        return Err(e);
                    },
                }
            },
            Operation::Delete { old: gone } => {
                match self.change(&gone, false) {
                    Ok(change) => {
                        let ghost c = view_of(change);
                        match change {
                            Some(o) => {
                                out.push(o);
                            },
                            None => {},
                        }
                        assert(operation_views(out@) =~= as_sequence(c));
                    },
                    Err(e) => {
                        return Err(e);
                    },
                }
            },
            Operation::Update { old: gone, new } => {
                let ghost first;
                match self.change(&gone, false) {
                    Ok(change) => {
                        proof {
                            first = view_of(change);
                        }
                        match change {
                            Some(o) => {
                                out.push(o);
                            },
                            None => {},
                        }
                        assert(operation_views(out@) =~= as_sequence(first));
                    },
                    Err(e) => {
                        return Err(e);
                    },
                }
                let ghost between = *self;
                match self.change(&new, true) {
                    Ok(change) => {
                        let ghost second = view_of(change);
                        let ghost before = operation_views(out@);
                        match change {
                            Some(o) => {
                                out.push(o);
                            },
                            None => {},
                        }
                        assert(operation_views(out@) =~= before + as_sequence(second));
                        assert(old(self).follows(&between, gone@, false));
                    },
                    Err(e) => {
                        assert(old(self).follows(&between, gone@, false));
                        return Err(e);
                    },
                }
            },
        }
        Ok(out)
    }
}

} // verus!
