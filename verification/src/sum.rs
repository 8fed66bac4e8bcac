//! The SUM aggregator: the sum of the values of a group, kept as a running
//! sum under inserts, updates and deletes.

use vstd::prelude::*;
use crate::aggregator::{AggregationResult, Decoded};
use crate::errors::PipelineError;
use crate::field::{data_encoding, Field, FieldType, FieldValue};
use crate::max::{
    decode_value, invalid_operand_of, is_invalid_operand_of, malformed_error, MaxAggregator,
};

verus! {

pub const SUM_NAME: &'static str = "SUM";

/// The types over which sums are taken.
pub open spec fn summable(t: FieldType) -> bool {
    t == FieldType::Int || t == FieldType::UInt || t == FieldType::Decimal
}

/// The number of a value of the type of the sum.
pub open spec fn addend(v: FieldValue, t: FieldType) -> Option<int> {
    match (t, v) {
        (FieldType::Int, FieldValue::Int(x)) => Some(x as int),
        (FieldType::UInt, FieldValue::UInt(x)) => Some(x as int),
        (FieldType::Decimal, FieldValue::Decimal(x)) => Some(x as int),
        _ => None,
    }
}

/// The value of type `t` of a number, where the type has one.
pub open spec fn sum_value(x: int, t: FieldType) -> Option<FieldValue> {
    match t {
        FieldType::Int => if i64::MIN <= x <= i64::MAX {
            Some(FieldValue::Int(x as i64))
        } else {
            None
        },
        FieldType::UInt => if 0 <= x <= u64::MAX {
            Some(FieldValue::UInt(x as u64))
        } else {
            None
        },
        FieldType::Decimal => if i128::MIN <= x <= i128::MAX {
            Some(FieldValue::Decimal(x as i128))
        } else {
            None
        },
        _ => None,
    }
}

/// The sum that a state holds: zero where there is no state, and no sum
/// where the bytes are no value of the type.
pub open spec fn sum_in(state: Option<Seq<u8>>, t: FieldType) -> Option<int> {
    match state {
        None => Some(0),
        Some(bytes) => match decode_value(bytes, t) {
            Decoded::Value(v) => addend(v, t),
            _ => None,
        },
    }
}

/// What a state of bytes holds.
pub open spec fn state_view(state: Option<&[u8]>) -> Option<Seq<u8>> {
    match state {
        Some(b) => Some(b@),
        None => None,
    }
}

/// The answer of the aggregator for the sum `x`: the value of the sum, and
/// its bytes as the state; an error for a sum that the type cannot hold.
pub open spec fn sum_answer(r: Result<AggregationResult, PipelineError>, x: int, t: FieldType) -> bool {
    match sum_value(x, t) {
        Some(v) => r matches Ok(res) && res.value@ == v && (res.state matches Some(s) && s@
            == data_encoding(v)),
        None => r == Err::<AggregationResult, PipelineError>(PipelineError::NumericOverflow),
    }
}

/// The answer of the aggregator where the sum in `state` changes by `delta`.
pub open spec fn sum_outcome(
    r: Result<AggregationResult, PipelineError>,
    state: Option<Seq<u8>>,
    delta: Option<int>,
    t: FieldType,
) -> bool {
    if !summable(t) || delta.is_none() {
        is_invalid_operand_of(r, SUM_NAME@)
    } else {
        match sum_in(state, t) {
            None => r == malformed_error::<AggregationResult>(),
            Some(current) => sum_answer(r, current + delta.unwrap(), t),
        }
    }
}

#[derive(Debug)]
pub struct SumAggregator {}

impl SumAggregator {
    pub fn _get_type() -> (r: u32)
        ensures
            r == 0x01,
    {
        0x01
    }

    fn number(v: &Field, t: FieldType) -> (r: Option<i128>)
        ensures
            match addend(v@, t) {
                Some(x) => r == Some(x as i128)
                    && (t == FieldType::Decimal || (-0x1_0000_0000_0000_0000
                    < x < 0x1_0000_0000_0000_0000)),
                None => r.is_none(),
            },
    {
        match (t, v) {
            (FieldType::Int, Field::Int(x)) => Some(*x as i128),
            (FieldType::UInt, Field::UInt(x)) => Some(*x as i128),
            (FieldType::Decimal, Field::Decimal(x)) => Some(*x),
            _ => None,
        }
    }

    fn read(cur_state: Option<&[u8]>, t: FieldType) -> (r: Option<i128>)
        requires
            summable(t),
        ensures
            match sum_in(state_view(cur_state), t) {
                Some(x) => r == Some(x as i128)
                    && (t == FieldType::Decimal || (-0x1_0000_0000_0000_0000
                    < x < 0x1_0000_0000_0000_0000)),
                None => r.is_none(),
            },
    {
        match cur_state {
            None => Some(0),
            Some(bytes) => match MaxAggregator::get_value(bytes, t) {
                Ok(v) => Self::number(&v, t),
                Err(_) => None,
            },
        }
    }

    fn answer(x: Option<i128>, Ghost(exact): Ghost<int>, t: FieldType) -> (r: Result<
        AggregationResult,
        PipelineError,
    >)
        requires
            summable(t),
            match x {
                Some(v) => v == exact,
                None => exact < i128::MIN || exact > i128::MAX,
            },
        ensures
            sum_answer(r, exact, t),
    {
        let v = match x {
            Some(v) => v,
            None => {
                return Err(PipelineError::NumericOverflow);
            },
        };
        let field = match t {
            FieldType::Int => {
                if v < i64::MIN as i128 || v > i64::MAX as i128 {
                    return Err(PipelineError::NumericOverflow);
                }
                Field::Int(v as i64)
            },
            FieldType::UInt => {
                if v < 0 || v > u64::MAX as i128 {
                    return Err(PipelineError::NumericOverflow);
                }
                Field::UInt(v as u64)
            },
            _ => Field::Decimal(v),
        };
        let state = field.encode_data();
        Ok(AggregationResult::new(field, Some(state)))
    }

    /// Adds `new` to the sum.
    ///
    /// A type over which no sum is taken and a value of another type are
    /// refused, and so is a state that holds no sum; a sum that its type
    /// cannot hold is a numeric overflow.
    pub fn insert(cur_state: Option<&[u8]>, new: &Field, return_type: FieldType) -> (r: Result<
        AggregationResult,
        PipelineError,
    >)
        ensures
            sum_outcome(r, state_view(cur_state), addend(new@, return_type), return_type),
    {
        let value = match Self::number(new, return_type) {
            Some(v) => v,
            None => {
                return invalid_operand_of(SUM_NAME);
            },
        };
        let current = match Self::read(cur_state, return_type) {
            Some(c) => c,
            None => {
                return Err(
                    PipelineError::InternalTypeError(
                        crate::errors::TypeError::DeserializationError,
                    ),
                );
            },
        };
        Self::answer(current.checked_add(value), Ghost(current + value), return_type)
    }

    /// Takes `old_value` from the sum.
    pub fn delete(cur_state: Option<&[u8]>, old_value: &Field, return_type: FieldType) -> (r:
        Result<AggregationResult, PipelineError>)
        ensures
            sum_outcome(
                r,
                state_view(cur_state),
                match addend(old_value@, return_type) {
                    Some(x) => Some(-x),
                    None => None,
                },
                return_type,
            ),
    {
        let value = match Self::number(old_value, return_type) {
            Some(v) => v,
            None => {
                return invalid_operand_of(SUM_NAME);
            },
        };
        let current = match Self::read(cur_state, return_type) {
            Some(c) => c,
            None => {
                return Err(
                    PipelineError::InternalTypeError(
                        crate::errors::TypeError::DeserializationError,
                    ),
                );
            },
        };
        Self::answer(current.checked_sub(value), Ghost(current - value), return_type)
    }

    /// Takes `old_value` from the sum and adds `new` to it.
    pub fn update(
        cur_state: Option<&[u8]>,
        old_value: &Field,
        new: &Field,
        return_type: FieldType,
    ) -> (r: Result<AggregationResult, PipelineError>)
        ensures
            sum_outcome(
                r,
                state_view(cur_state),
                match (addend(old_value@, return_type), addend(new@, return_type)) {
                    (Some(x), Some(y)) => Some(y - x),
                    _ => None,
                },
                return_type,
            ),
    {
        let gone = match Self::number(old_value, return_type) {
            Some(v) => v,
            None => {
                return invalid_operand_of(SUM_NAME);
            },
        };
        let come = match Self::number(new, return_type) {
            Some(v) => v,
            None => {
                return invalid_operand_of(SUM_NAME);
            },
        };
        let current = match Self::read(cur_state, return_type) {
            Some(c) => c,
            None => {
                return Err(
                    PipelineError::InternalTypeError(
                        crate::errors::TypeError::DeserializationError,
                    ),
                );
            },
        };
        // The sum may fit where one of the two steps does not: both orders
        // are tried.
        let first = match current.checked_sub(gone) {
            Some(between) => between.checked_add(come),
            None => None,
        };
        let sum = match first {
            Some(s) => Some(s),
            None => match current.checked_add(come) {
                Some(between) => between.checked_sub(gone),
                None => None,
            },
        };
        Self::answer(sum, Ghost(current - gone + come), return_type)
    }
}

} // verus!
