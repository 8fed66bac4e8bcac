//! The MIN aggregator: the least value of a group, kept under inserts,
//! updates and deletes.

use vstd::prelude::*;
use crate::aggregator::{
    counted_down, counted_up, count_of, least_key, lemma_least_unique, update_aggregator_db,
    AggregationResult,
};
use crate::bytes::lex_le;
use crate::errors::PipelineError;
use crate::field::{Field, FieldType, FieldValue};
use crate::max::{
    answer_of_key, invalid_operand_of, is_invalid_operand_of, result_of_key, state_key_of,
    supported, value_key,
};
use crate::storage::Database;

verus! {

pub const MIN_NAME: &'static str = "MIN";

/// The answer of the aggregator for a group in state `m`: `Null` for an empty
/// group, else the value of the least key and that key.
pub open spec fn min_result_matches(
    r: Result<AggregationResult, PipelineError>,
    m: Map<Seq<u8>, u64>,
    t: FieldType,
) -> bool {
    if m == Map::<Seq<u8>, u64>::empty() {
        r matches Ok(res) && res.value@ == FieldValue::Null && res.state.is_none()
    } else {
        result_of_key(r, least_key(m), t)
    }
}

#[derive(Debug)]
pub struct MinAggregator {}

impl MinAggregator {
    pub fn _get_type() -> (r: u32)
        ensures
            r == 0x04,
    {
        0x04
    }

    /// The answer for the group as it stands.
    pub fn minimum(return_type: FieldType, ptx: &Database<u64>) -> (r: Result<
        AggregationResult,
        PipelineError,
    >)
        requires
            ptx.wf(),
        ensures
            supported(return_type) ==> min_result_matches(r, ptx@, return_type),
            !supported(return_type) ==> is_invalid_operand_of(r, MIN_NAME@),
    {
        match return_type {
            FieldType::Date | FieldType::Decimal | FieldType::Float | FieldType::Int
            | FieldType::UInt | FieldType::Timestamp => {},
            _ => {
                return invalid_operand_of(MIN_NAME);
            },
        }
        match ptx.first() {
            None => Ok(AggregationResult::new(Field::Null, None)),
            Some(e) => {
                proof {
                    lemma_least_unique(ptx@, e.0@);
                }
                answer_of_key(e.0, return_type)
            },
        }
    }

    /// Counts `new` once more in the group and answers the new minimum.
    /// Refuses what the MAX aggregator refuses.
    pub fn insert(
        _cur_state: Option<&[u8]>,
        new: &Field,
        return_type: FieldType,
        ptx: &mut Database<u64>,
    ) -> (r: Result<AggregationResult, PipelineError>)
        requires
            old(ptx).wf(),
        ensures
            final(ptx).wf(),
            match value_key(new@, return_type) {
                None => is_invalid_operand_of(r, MIN_NAME@) && final(ptx)@ == old(ptx)@,
                Some(k) => if count_of(old(ptx)@, k) + 1 > u64::MAX {
                    r == Err::<AggregationResult, PipelineError>(PipelineError::NumericOverflow)
                        && final(ptx)@ == old(ptx)@
                } else {
                    final(ptx)@ == counted_up(old(ptx)@, k, 1) && min_result_matches(
                        r,
                        final(ptx)@,
                        return_type,
                    )
                },
            },
    {
        let key = match state_key_of(new, return_type, MIN_NAME) {
            Ok(k) => k,
            Err(e) => {
                return Err(e);
            },
        };
        match update_aggregator_db(key.as_slice(), 1, false, ptx) {
            Ok(()) => {},
            Err(e) => {
                return Err(e);
            },
        }
        Self::minimum(return_type, ptx)
    }

    /// Counts `new` once more and `old_value` once less, and answers the new
    /// minimum.
    pub fn update(
        _cur_state: Option<&[u8]>,
        old_value: &Field,
        new: &Field,
        return_type: FieldType,
        ptx: &mut Database<u64>,
    ) -> (r: Result<AggregationResult, PipelineError>)
        requires
            old(ptx).wf(),
        ensures
            final(ptx).wf(),
            match (value_key(new@, return_type), value_key(old_value@, return_type)) {
                (Some(kn), Some(ko)) => if count_of(old(ptx)@, kn) + 1 > u64::MAX {
                    r == Err::<AggregationResult, PipelineError>(PipelineError::NumericOverflow)
                        && final(ptx)@ == old(ptx)@
                } else {
                    final(ptx)@ == counted_down(counted_up(old(ptx)@, kn, 1), ko, 1)
                        && min_result_matches(r, final(ptx)@, return_type)
                },
                _ => is_invalid_operand_of(r, MIN_NAME@) && final(ptx)@ == old(ptx)@,
            },
    {
        let new_key = match state_key_of(new, return_type, MIN_NAME) {
            Ok(k) => k,
            Err(e) => {
                return Err(e);
            },
        };
        let old_key = match state_key_of(old_value, return_type, MIN_NAME) {
            Ok(k) => k,
            Err(e) => {
                return Err(e);
            },
        };
        match update_aggregator_db(new_key.as_slice(), 1, false, ptx) {
            Ok(()) => {},
            Err(e) => {
                return Err(e);
            },
        }
        match update_aggregator_db(old_key.as_slice(), 1, true, ptx) {
            Ok(()) => {},
            Err(e) => {
                return Err(e);
            },
        }
        Self::minimum(return_type, ptx)
    }

    /// Counts `old_value` once less in the group and answers the new
    /// minimum: `Null` once the group is empty.
    pub fn delete(
        _cur_state: Option<&[u8]>,
        old_value: &Field,
        return_type: FieldType,
        ptx: &mut Database<u64>,
    ) -> (r: Result<AggregationResult, PipelineError>)
        requires
            old(ptx).wf(),
        ensures
            final(ptx).wf(),
            match value_key(old_value@, return_type) {
                None => is_invalid_operand_of(r, MIN_NAME@) && final(ptx)@ == old(ptx)@,
                Some(k) => final(ptx)@ == counted_down(old(ptx)@, k, 1) && min_result_matches(
                    r,
                    final(ptx)@,
                    return_type,
                ),
            },
    {
        let key = match state_key_of(old_value, return_type, MIN_NAME) {
            Ok(k) => k,
            Err(e) => {
                return Err(e);
            },
        };
        match update_aggregator_db(key.as_slice(), 1, true, ptx) {
            Ok(()) => {},
            Err(e) => {
                return Err(e);
            },
        }
        Self::minimum(return_type, ptx)
    }
}

/// The least key of a group is the key of its least value: no value counted
/// in the group is less than the one that the least key holds.
pub proof fn lemma_least_is_minimum(
    m: Map<Seq<u8>, u64>,
    a: FieldValue,
    b: FieldValue,
    t: FieldType,
)
    requires
        value_key(a, t).is_some(),
        value_key(b, t).is_some(),
        Database::<u64>::is_least(m, value_key(a, t).unwrap()),
        m.contains_key(value_key(b, t).unwrap()),
    ensures
        crate::field::numeric_key(a).is_some(),
        crate::field::numeric_key(b).is_some(),
        crate::field::numeric_key(a).unwrap() <= crate::field::numeric_key(b).unwrap(),
{
    let ka = value_key(a, t).unwrap();
    let kb = value_key(b, t).unwrap();
    assert(ka == crate::field::data_encoding(a));
    assert(kb == crate::field::data_encoding(b));
    assert(lex_le(ka, kb));
    crate::field::lemma_data_order(b, a);
}

} // verus!
