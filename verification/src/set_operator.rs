//! The set operators over two inputs: for each tuple the number of times
//! that each input holds it is kept, and a tuple is inserted into the output
//! when it comes to be in the set, and deleted when it ceases to be.

use vstd::prelude::*;
use crate::errors::PipelineError;
use crate::field::{Field, FieldValue};
use crate::index::{composite_key, field_views, get_composite_secondary_index};
use crate::indexer::value_views;
use crate::record_store::OperationView;
use crate::storage::Database;
use crate::types::{Operation, Record, RecordView};

verus! {

/// A set operator.
#[derive(Clone, Copy, Debug, PartialEq, Eq, Structural)]
pub enum SetOperator {
    Union,
    UnionAll,
    Intersect,
    Except,
}

/// The input of a set operator.
#[derive(Clone, Copy, Debug, PartialEq, Eq, Structural)]
pub enum SetInput {
    Left,
    Right,
}

/// Whether a tuple that the left input holds `left` times and the right
/// input `right` times is in the set.
pub open spec fn present(operator: SetOperator, left: u64, right: u64) -> bool {
    match operator {
        SetOperator::Union => left + right >= 1,
        SetOperator::UnionAll => left + right >= 1,
        SetOperator::Intersect => left >= 1 && right >= 1,
        SetOperator::Except => left > right,
    }
}

/// How often each input holds the tuple with the given key.
pub open spec fn held(counts: Map<Seq<u8>, (u64, u64)>, key: Seq<u8>) -> (u64, u64) {
    if counts.contains_key(key) {
        counts[key]
    } else {
        (0, 0)
    }
}

/// The counts of a tuple after one input holds it once more, or once less
/// where `insert` is not set; a count of zero stays.
pub open spec fn counted(before: (u64, u64), input: SetInput, insert: bool) -> (u64, u64) {
    match input {
        SetInput::Left => (
            if insert {
                (before.0 + 1) as u64
            } else if before.0 > 0 {
                (before.0 - 1) as u64
            } else {
                0
            },
            before.1,
        ),
        SetInput::Right => (
            before.0,
            if insert {
                (before.1 + 1) as u64
            } else if before.1 > 0 {
                (before.1 - 1) as u64
            } else {
                0
            },
        ),
    }
}

/// The state with the given counts for a tuple; a tuple that no input holds
/// leaves the state.
pub open spec fn with_counts(counts: Map<Seq<u8>, (u64, u64)>, key: Seq<u8>, now: (u64, u64)) -> Map<
    Seq<u8>,
    (u64, u64),
> {
    if now.0 == 0 && now.1 == 0 {
        counts.remove(key)
    } else {
        counts.insert(key, now)
    }
}

/// The tuple of a record: its values without its schema and version.
pub open spec fn tuple_of(values: Seq<FieldValue>) -> RecordView {
    RecordView { schema_id: None, values, version: None }
}

/// What the output does with a tuple whose counts go from `before` to
/// `after`.
pub open spec fn set_change(
    operator: SetOperator,
    before: (u64, u64),
    after: (u64, u64),
    values: Seq<FieldValue>,
) -> Option<OperationView> {
    if !present(operator, before.0, before.1) && present(operator, after.0, after.1) {
        Some(OperationView::Insert { new: tuple_of(values) })
    } else if present(operator, before.0, before.1) && !present(operator, after.0, after.1) {
        Some(OperationView::Delete { old: tuple_of(values) })
    } else {
        None
    }
}

/// What a change of one tuple does: the counts after it and what the
/// output does with the tuple, or the error for a count that would pass the
/// largest number.
pub open spec fn set_step(
    operator: SetOperator,
    counts: Map<Seq<u8>, (u64, u64)>,
    input: SetInput,
    values: Seq<FieldValue>,
    insert: bool,
) -> Result<(Map<Seq<u8>, (u64, u64)>, Option<OperationView>), PipelineError> {
    let key = composite_key(values);
    let before = held(counts, key);
    let after = counted(before, input, insert);
    if operator == SetOperator::UnionAll {
        Ok(
            (
                counts,
                Some(
                    if insert {
                        OperationView::Insert { new: tuple_of(values) }
                    } else {
                        OperationView::Delete { old: tuple_of(values) }
                    },
                ),
            ),
        )
    } else if insert && (match input {
        SetInput::Left => before.0 == u64::MAX,
        SetInput::Right => before.1 == u64::MAX,
    }) {
        Err(PipelineError::NumericOverflow)
    } else {
        Ok((with_counts(counts, key, after), set_change(operator, before, after, values)))
    }
}

/// The change of a tuple, if there is one, as a sequence.
pub open spec fn change_sequence(op: Option<OperationView>) -> Seq<OperationView> {
    match op {
        Some(o) => seq![o],
        None => Seq::empty(),
    }
}

/// What an operation of one input does: the counts after it and the
/// changes of the output. An update takes the old tuple out and counts the
/// new one; where the new one cannot be counted the old one stays out.
pub open spec fn set_process(
    operator: SetOperator,
    counts: Map<Seq<u8>, (u64, u64)>,
    input: SetInput,
    op: OperationView,
) -> (Map<Seq<u8>, (u64, u64)>, Result<Seq<OperationView>, PipelineError>) {
    match op {
        OperationView::Insert { new } => match set_step(operator, counts, input, new.values, true) {
            Ok((after, out)) => (after, Ok(change_sequence(out))),
            Err(e) => (counts, Err(e)),
        },
        OperationView::Delete { old } => match set_step(
            operator,
            counts,
            input,
            old.values,
            false,
        ) {
            Ok((after, out)) => (after, Ok(change_sequence(out))),
            Err(e) => (counts, Err(e)),
        },
        OperationView::Update { old, new } => match set_step(
            operator,
            counts,
            input,
            old.values,
            false,
        ) {
            Ok((between, first)) => match set_step(operator, between, input, new.values, true) {
                Ok((after, second)) => (
                    after,
                    Ok(change_sequence(first) + change_sequence(second)),
                ),
                Err(e) => (between, Err(e)),
            },
            Err(e) => (counts, Err(e)),
        },
    }
}

/// What each operation of a sequence is.
pub open spec fn views_of(ops: Seq<Operation>) -> Seq<OperationView> {
    ops.map_values(|o: Operation| o@)
}

/// A processor for one set operator.
#[derive(Debug)]
pub struct SetProcessor {
    pub operator: SetOperator,
    pub counts: Database<(u64, u64)>,
}

fn tuple_key(values: &Vec<Field>) -> (r: Vec<u8>)
    ensures
        r@ == composite_key(value_views(values@)),
{
    let mut refs: Vec<&Field> = Vec::new();
    let mut i: usize = 0;
    while i < values.len()
        invariant
            i <= values@.len(),
            field_views(refs@) == value_views(values@).subrange(0, i as int),
        decreases values@.len() - i,
    {
        let ghost before = field_views(refs@);
        refs.push(&values[i]);
        assert(field_views(refs@) =~= before.push(values@[i as int]@));
        i += 1;
        assert(field_views(refs@) =~= value_views(values@).subrange(0, i as int));
    }
    assert(value_views(values@).subrange(0, i as int) =~= value_views(values@));
    get_composite_secondary_index(refs.as_slice())
}

fn tuple_record(values: &Vec<Field>) -> (r: Record)
    ensures
        r@ == tuple_of(value_views(values@)),
{
    let mut copy: Vec<Field> = Vec::new();
    let mut i: usize = 0;
    while i < values.len()
        invariant
            i <= values@.len(),
            value_views(copy@) == value_views(values@).subrange(0, i as int),
        decreases values@.len() - i,
    {
        let ghost before = value_views(copy@);
        copy.push(values[i].clone());
        assert(value_views(copy@) =~= before.push(values@[i as int]@));
        i += 1;
        assert(value_views(copy@) =~= value_views(values@).subrange(0, i as int));
    }
    assert(value_views(values@).subrange(0, i as int) =~= value_views(values@));
    Record::new(None, copy, None)
}

impl SetProcessor {
    /// A processor that has seen nothing.
    pub fn new(operator: SetOperator) -> (r: Self)
        ensures
            r.operator == operator,
            r.counts.wf(),
            r.counts@ == Map::<Seq<u8>, (u64, u64)>::empty(),
    {
        Self { operator, counts: Database::new() }
    }

    /// Counts a tuple once more for an input, or once less, and tells what
    /// the output does with it. `UNION ALL` keeps no counts: it passes every
    /// change on. A count that would pass the largest number is refused.
    pub fn change(&mut self, input: SetInput, values: &Vec<Field>, insert: bool) -> (r: Result<
        Option<Operation>,
        PipelineError,
    >)
        requires
            old(self).counts.wf(),
        ensures
            final(self).counts.wf(),
            final(self).operator == old(self).operator,
            match set_step(old(self).operator, old(self).counts@, input, value_views(values@), insert) {
                Ok((counts, change)) => final(self).counts@ == counts && (match change {
                    Some(op) => r matches Ok(Some(out)) && out@ == op,
                    None => r == Ok::<Option<Operation>, PipelineError>(None),
                }),
                Err(e) => r == Err::<Option<Operation>, PipelineError>(e) && final(self).counts@
                    == old(self).counts@,
            },
    {
        if self.operator == SetOperator::UnionAll {
            let tuple = tuple_record(values);
            return Ok(
                Some(
                    if insert {
                        Operation::Insert { new: tuple }
                    } else {
                        Operation::Delete { old: tuple }
                    },
                ),
            );
        }
        let key = tuple_key(values);
        let before: (u64, u64) = match self.counts.get(key.as_slice()) {
            Some(c) => *c,
            None => (0, 0),
        };
        let after: (u64, u64) = match input {
            SetInput::Left => {
                if insert {
                    if before.0 == u64::MAX {
                        return Err(PipelineError::NumericOverflow);
                    }
                    (before.0 + 1, before.1)
                } else if before.0 > 0 {
                    (before.0 - 1, before.1)
                } else {
                    (0, before.1)
                }
            },
            SetInput::Right => {
                if insert {
                    if before.1 == u64::MAX {
                        return Err(PipelineError::NumericOverflow);
                    }
                    (before.0, before.1 + 1)
                } else if before.1 > 0 {
                    (before.0, before.1 - 1)
                } else {
                    (before.0, 0)
                }
            },
        };
        if after.0 == 0 && after.1 == 0 {
            self.counts.del(key.as_slice());
        } else {
            self.counts.put(key.as_slice(), after);
        }
        let was_in = Self::is_present(self.operator, before.0, before.1);
        let is_in = Self::is_present(self.operator, after.0, after.1);
        if !was_in && is_in {
            Ok(Some(Operation::Insert { new: tuple_record(values) }))
        } else if was_in && !is_in {
            Ok(Some(Operation::Delete { old: tuple_record(values) }))
        } else {
            Ok(None)
        }
    }

    /// Tells whether a tuple that the left input holds `left` times and the
    /// right input `right` times is in the set.
    pub fn is_present(operator: SetOperator, left: u64, right: u64) -> (r: bool)
        ensures
            r == present(operator, left, right),
    {
        match operator {
            SetOperator::Union => left >= 1 || right >= 1,
            SetOperator::UnionAll => left >= 1 || right >= 1,
            SetOperator::Intersect => left >= 1 && right >= 1,
            SetOperator::Except => left > right,
        }
    }

    /// Takes a change of a record of one input and answers with the changes
    /// of the output: an update takes the old tuple out and counts the new
    /// one.
    pub fn process(&mut self, input: SetInput, op: Operation) -> (r: Result<
        Vec<Operation>,
        PipelineError,
    >)
        requires
            old(self).counts.wf(),
        ensures
            final(self).counts.wf(),
            final(self).operator == old(self).operator,
            final(self).counts@ == set_process(old(self).operator, old(self).counts@, input, op@).0,
            match set_process(old(self).operator, old(self).counts@, input, op@).1 {
                Ok(changes) => r matches Ok(out) && views_of(out@) == changes,
                Err(e) => r == Err::<Vec<Operation>, PipelineError>(e),
            },
    {
        let mut out: Vec<Operation> = Vec::new();
        assert(views_of(out@) =~= Seq::<OperationView>::empty());
        match op {
            Operation::Insert { new } => {
                match self.change(input, &new.values, true) {
                    Ok(Some(o)) => {
                        let ghost before = views_of(out@);
                        out.push(o);
                        assert(views_of(out@) =~= before + seq![o@]);
                    },
                    Ok(None) => {
                        assert(views_of(out@) =~= views_of(out@) + Seq::<OperationView>::empty());
                    },
                    Err(e) => {
                        return Err(e);
                    },
                }
            },
            Operation::Delete { old: gone } => {
                match self.change(input, &gone.values, false) {
                    Ok(Some(o)) => {
                        let ghost before = views_of(out@);
                        out.push(o);
                        assert(views_of(out@) =~= before + seq![o@]);
                    },
                    Ok(None) => {
                        assert(views_of(out@) =~= views_of(out@) + Seq::<OperationView>::empty());
                    },
                    Err(e) => {
                        return Err(e);
                    },
                }
            },
            Operation::Update { old: gone, new } => {
                match self.change(input, &gone.values, false) {
                    Ok(Some(o)) => {
                        let ghost before = views_of(out@);
                        out.push(o);
                        assert(views_of(out@) =~= before + seq![o@]);
                    },
                    Ok(None) => {
                        assert(views_of(out@) =~= views_of(out@) + Seq::<OperationView>::empty());
                    },
                    Err(e) => {
                        return Err(e);
                    },
                }
                match self.change(input, &new.values, true) {
                    Ok(Some(o)) => {
                        let ghost before = views_of(out@);
                        out.push(o);
                        assert(views_of(out@) =~= before + seq![o@]);
                    },
                    Ok(None) => {
                        assert(views_of(out@) =~= views_of(out@) + Seq::<OperationView>::empty());
                    },
                    Err(e) => {
                        return Err(e);
                    },
                }
            },
        }
        Ok(out)
    }
}

} // verus!
