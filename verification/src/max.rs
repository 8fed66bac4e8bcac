//! The MAX aggregator: the greatest value of a group, kept under inserts,
//! updates and deletes.

use vstd::prelude::*;
use crate::aggregator::{
    counted_down, counted_up, count_of, greatest_key, lemma_greatest_unique,
    update_aggregator_db, AggregationResult, Decoded, LocalKind,
};
use crate::bigendian::{
    be, be_value, decode_be, encode_be, lemma_be_of_be_value,
    lemma_be_value_bound, lemma_be_value_of_be, lemma_pow256_16, lemma_pow256_8, pow256,
};
use crate::errors::{PipelineError, TypeError};
use crate::field::{
    data_encoding, i128_to_key, i32_to_key, i64_to_key, key_of_i128, key_of_i32, key_of_i64,
    key_to_i128, key_to_i32, key_to_i64, Field, FieldType, FieldValue,
};
use crate::storage::Database;

verus! {

pub const AGGREGATOR_NAME: &'static str = "MAX";

/// How UTC maps a number of milliseconds since the epoch to an instant.
pub uninterp spec fn utc_millis_kind(millis: i64) -> LocalKind;

/// Asks `chrono::TimeZone::timestamp_millis_opt` of `chrono::Utc` how it maps
/// `millis`. The answer depends on `millis` alone, and is never ambiguous.
#[verifier::external_body]
fn utc_timestamp_millis_kind(millis: i64) -> (r: LocalKind)
    ensures
        r == utc_millis_kind(millis),
        r != LocalKind::Ambiguous,
{
    match chrono::TimeZone::timestamp_millis_opt(&chrono::Utc, millis) {
        chrono::LocalResult::None => LocalKind::Unmapped,
        chrono::LocalResult::Single(_) => LocalKind::Single,
        chrono::LocalResult::Ambiguous(_, _) => LocalKind::Ambiguous,
    }
}

/// The types over which MAX is taken.
pub open spec fn supported(t: FieldType) -> bool {
    t == FieldType::Date || t == FieldType::Decimal || t == FieldType::Float || t
        == FieldType::Int || t == FieldType::UInt || t == FieldType::Timestamp
}

/// The key under which a value is counted in the state of a group: the data
/// of its encoding, if the value is of the type that the aggregator returns.
pub open spec fn value_key(v: FieldValue, t: FieldType) -> Option<Seq<u8>> {
    match (t, v) {
        (FieldType::Date, FieldValue::Date(_)) => Some(data_encoding(v)),
        (FieldType::Decimal, FieldValue::Decimal(_)) => Some(data_encoding(v)),
        (FieldType::Float, FieldValue::Float(_)) => Some(data_encoding(v)),
        (FieldType::Int, FieldValue::Int(_)) => Some(data_encoding(v)),
        (FieldType::UInt, FieldValue::UInt(_)) => Some(data_encoding(v)),
        (FieldType::Timestamp, FieldValue::Timestamp(_)) => Some(data_encoding(v)),
        _ => None,
    }
}

/// The signed 64-bit number that a key of eight bytes stands for.
pub open spec fn i64_of(f: Seq<u8>) -> i64 {
    (be_value(f) - 0x8000_0000_0000_0000) as i64
}

/// What the timestamp of `millis` is, given how the time zone maps it.
pub open spec fn timestamp_outcome(millis: i64, kind: LocalKind) -> Decoded {
    match kind {
        LocalKind::Single => Decoded::Value(FieldValue::Timestamp(millis)),
        LocalKind::Unmapped => Decoded::InvalidTimestamp,
        LocalKind::Ambiguous => Decoded::AmbiguousTimestamp,
    }
}

/// The value of type `from` that the bytes `f` hold.
pub open spec fn decode_value(f: Seq<u8>, from: FieldType) -> Decoded {
    match from {
        FieldType::Date => if f.len() == 4 {
            Decoded::Value(FieldValue::Date((be_value(f) - 0x8000_0000) as i32))
        } else {
            Decoded::Malformed
        },
        FieldType::Decimal => if f.len() == 16 {
            Decoded::Value(
                FieldValue::Decimal(
                    (be_value(f) - 0x8000_0000_0000_0000_0000_0000_0000_0000) as i128,
                ),
            )
        } else {
            Decoded::Malformed
        },
        FieldType::Float => if f.len() == 8 {
            Decoded::Value(FieldValue::Float(be_value(f) as u64))
        } else {
            Decoded::Malformed
        },
        FieldType::Int => if f.len() == 8 {
            Decoded::Value(FieldValue::Int(i64_of(f)))
        } else {
            Decoded::Malformed
        },
        FieldType::UInt => if f.len() == 8 {
            Decoded::Value(FieldValue::UInt(be_value(f) as u64))
        } else {
            Decoded::Malformed
        },
        FieldType::Timestamp => if f.len() == 8 {
            timestamp_outcome(i64_of(f), utc_millis_kind(i64_of(f)))
        } else {
            Decoded::Malformed
        },
        _ => Decoded::Value(FieldValue::Null),
    }
}

/// A decoded value, or the error that tells why there is none.
pub open spec fn value_agrees(r: Result<Field, PipelineError>, d: Decoded) -> bool {
    match d {
        Decoded::Value(v) => r matches Ok(x) && x@ == v,
        Decoded::Malformed => r == Err::<Field, PipelineError>(
            PipelineError::InternalTypeError(TypeError::DeserializationError),
        ),
        Decoded::InvalidTimestamp => r == Err::<Field, PipelineError>(
            PipelineError::InternalTypeError(TypeError::InvalidTimestamp),
        ),
        Decoded::AmbiguousTimestamp => r == Err::<Field, PipelineError>(
            PipelineError::InternalTypeError(TypeError::AmbiguousTimestamp),
        ),
    }
}

/// The answer of the aggregator for a group in state `m`: `Null` for an empty
/// group, else the value of the greatest key and that key.
pub open spec fn result_matches(
    r: Result<AggregationResult, PipelineError>,
    m: Map<Seq<u8>, u64>,
    t: FieldType,
) -> bool {
    if m == Map::<Seq<u8>, u64>::empty() {
        r matches Ok(res) && res.value@ == FieldValue::Null && res.state.is_none()
    } else {
        result_of_key(r, greatest_key(m), t)
    }
}

/// The answer of an aggregator that reads its value from the key `key`: the
/// value of the key and the key, or the error that tells why the key holds
/// no value.
pub open spec fn result_of_key(
    r: Result<AggregationResult, PipelineError>,
    key: Seq<u8>,
    t: FieldType,
) -> bool {
    match decode_value(key, t) {
        Decoded::Value(v) => r matches Ok(res) && res.value@ == v && (res.state matches Some(s)
            && s@ == key),
        Decoded::Malformed => r == Err::<AggregationResult, PipelineError>(
            PipelineError::InternalTypeError(TypeError::DeserializationError),
        ),
        Decoded::InvalidTimestamp => r == Err::<AggregationResult, PipelineError>(
            PipelineError::InternalTypeError(TypeError::InvalidTimestamp),
        ),
        Decoded::AmbiguousTimestamp => r == Err::<AggregationResult, PipelineError>(
            PipelineError::InternalTypeError(TypeError::AmbiguousTimestamp),
        ),
    }
}

/// The error for a value or a type over which MAX cannot be taken.
pub open spec fn is_invalid_operand<T>(r: Result<T, PipelineError>) -> bool {
    is_invalid_operand_of(r, AGGREGATOR_NAME@)
}

/// The error for a value or a type over which the aggregator of the given
/// name cannot be taken.
pub open spec fn is_invalid_operand_of<T>(r: Result<T, PipelineError>, aggregator: Seq<char>) -> bool {
    r matches Err(PipelineError::InvalidOperandType(name)) && name@ == aggregator
}

/// The timestamp of `millis`, or the error for a number that the time zone
/// maps to no instant or to two.
pub fn timestamp_from_kind(millis: i64, kind: LocalKind) -> (r: Result<Field, PipelineError>)
    ensures
        value_agrees(r, timestamp_outcome(millis, kind)),
{
    match kind {
        LocalKind::Unmapped => Err(PipelineError::InternalTypeError(TypeError::InvalidTimestamp)),
        LocalKind::Single => Ok(Field::Timestamp(millis)),
        LocalKind::Ambiguous => Err(
            PipelineError::InternalTypeError(TypeError::AmbiguousTimestamp),
        ),
    }
}

fn malformed<T>() -> (r: Result<T, PipelineError>)
    ensures
        r == Err::<T, PipelineError>(
            PipelineError::InternalTypeError(TypeError::DeserializationError),
        ),
{
    Err(PipelineError::InternalTypeError(TypeError::DeserializationError))
}

fn invalid_operand<T>() -> (r: Result<T, PipelineError>)
    ensures
        is_invalid_operand(r),
{
    invalid_operand_of(AGGREGATOR_NAME)
}

pub(crate) fn invalid_operand_of<T>(aggregator: &str) -> (r: Result<T, PipelineError>)
    ensures
        is_invalid_operand_of(r, aggregator@),
{
    Err(PipelineError::InvalidOperandType(aggregator.to_owned()))
}

fn last_key(ptx: &Database<u64>) -> (r: Option<Vec<u8>>)
    requires
        ptx.wf(),
    ensures
        r.is_none() <==> ptx@ == Map::<Seq<u8>, u64>::empty(),
        r matches Some(k) ==> k@ == greatest_key(ptx@) && ptx@.contains_key(k@),
{
    match ptx.last() {
        None => None,
        Some(e) => {
            proof {
                lemma_greatest_unique(ptx@, e.0@);
            }
            Some(e.0)
        },
    }
}

#[derive(Debug)]
pub struct MaxAggregator {}

impl MaxAggregator {
    pub fn _get_type() -> (r: u32)
        ensures
            r == 0x03,
    {
        0x03
    }

    /// Reads a value of type `from` from the bytes of its data.
    pub fn get_value(f: &[u8], from: FieldType) -> (r: Result<Field, PipelineError>)
        ensures
            value_agrees(r, decode_value(f@, from)),
    {
        proof {
            lemma_pow256_8();
            lemma_pow256_16();
            if f@.len() <= 16 {
                lemma_be_value_bound(f@);
                lemma_pow256_monotonic_to(f@.len());
            }
        }
        match from {
            FieldType::Date => {
                if f.len() != 4 {
                    return malformed();
                }
                proof {
                    reveal_with_fuel(pow256, 5);
                }
                let k = decode_be(f) as u32;
                let v = key_to_i32(k);
                Ok(Field::Date(v))
            },
            FieldType::Decimal => {
                if f.len() != 16 {
                    return malformed();
                }
                let v = key_to_i128(decode_be(f));
                Ok(Field::Decimal(v))
            },
            FieldType::Float => {
                if f.len() != 8 {
                    return malformed();
                }
                Ok(Field::Float(decode_be(f) as u64))
            },
            FieldType::Int => {
                if f.len() != 8 {
                    return malformed();
                }
                let v = key_to_i64(decode_be(f) as u64);
                Ok(Field::Int(v))
            },
            FieldType::UInt => {
                if f.len() != 8 {
                    return malformed();
                }
                Ok(Field::UInt(decode_be(f) as u64))
            },
            FieldType::Timestamp => {
                if f.len() != 8 {
                    return malformed();
                }
                let v = key_to_i64(decode_be(f) as u64);
                timestamp_from_kind(v, utc_timestamp_millis_kind(v))
            },
            _ => Ok(Field::Null),
        }
    }
}

/// What reading the greatest key of `m` as a value of type `t` gives, and
/// `None` for an empty group.
pub open spec fn maximum_of(m: Map<Seq<u8>, u64>, t: FieldType) -> Option<Decoded> {
    if m == Map::<Seq<u8>, u64>::empty() {
        None
    } else {
        Some(decode_value(greatest_key(m), t))
    }
}

impl MaxAggregator {
    /// The greatest float key of the group.
    pub fn calc_f64_max(ptx: &Database<u64>) -> (r: Result<Option<u64>, PipelineError>)
        requires
            ptx.wf(),
        ensures
            match maximum_of(ptx@, FieldType::Float) {
                None => r == Ok::<Option<u64>, PipelineError>(None),
                Some(Decoded::Value(v)) => r matches Ok(Some(x)) && v == FieldValue::Float(x)
                    && data_encoding(v) == greatest_key(ptx@),
                Some(_) => r == malformed_error::<Option<u64>>(),
            },
    {
        match last_key(ptx) {
            None => Ok(None),
            Some(k) => {
                if k.len() != 8 {
                    return malformed();
                }
                proof {
                    lemma_be_value_bound(k@);
                    lemma_pow256_8();
                    lemma_be_of_be_value(k@);
                }
                Ok(Some(decode_be(k.as_slice()) as u64))
            },
        }
    }

    /// The greatest decimal of the group.
    pub fn calc_decimal_max(ptx: &Database<u64>) -> (r: Result<Option<i128>, PipelineError>)
        requires
            ptx.wf(),
        ensures
            match maximum_of(ptx@, FieldType::Decimal) {
                None => r == Ok::<Option<i128>, PipelineError>(None),
                Some(Decoded::Value(v)) => r matches Ok(Some(x)) && v == FieldValue::Decimal(x)
                    && data_encoding(v) == greatest_key(ptx@),
                Some(_) => r == malformed_error::<Option<i128>>(),
            },
    {
        match last_key(ptx) {
            None => Ok(None),
            Some(k) => {
                if k.len() != 16 {
                    return malformed();
                }
                proof {
                    lemma_be_value_bound(k@);
                    lemma_pow256_16();
                    lemma_be_of_be_value(k@);
                }
                Ok(Some(key_to_i128(decode_be(k.as_slice()))))
            },
        }
    }

    /// The latest timestamp of the group, in milliseconds.
    pub fn calc_timestamp_max(ptx: &Database<u64>) -> (r: Result<Option<i64>, PipelineError>)
        requires
            ptx.wf(),
        ensures
            match maximum_of(ptx@, FieldType::Timestamp) {
                None => r == Ok::<Option<i64>, PipelineError>(None),
                Some(Decoded::Value(v)) => r matches Ok(Some(x)) && v == FieldValue::Timestamp(x)
                    && data_encoding(v) == greatest_key(ptx@),
                Some(Decoded::Malformed) => r == malformed_error::<Option<i64>>(),
                Some(Decoded::InvalidTimestamp) => r == Err::<Option<i64>, PipelineError>(
                    PipelineError::InternalTypeError(TypeError::InvalidTimestamp),
                ),
                Some(Decoded::AmbiguousTimestamp) => r == Err::<Option<i64>, PipelineError>(
                    PipelineError::InternalTypeError(TypeError::AmbiguousTimestamp),
                ),
            },
    {
        match last_key(ptx) {
            None => Ok(None),
            Some(k) => {
                if k.len() != 8 {
                    return malformed();
                }
                proof {
                    lemma_be_value_bound(k@);
                    lemma_pow256_8();
                    lemma_be_of_be_value(k@);
                }
                let v = key_to_i64(decode_be(k.as_slice()) as u64);
                match utc_timestamp_millis_kind(v) {
                    LocalKind::Single => Ok(Some(v)),
                    LocalKind::Unmapped => Err(
                        PipelineError::InternalTypeError(TypeError::InvalidTimestamp),
                    ),
                    LocalKind::Ambiguous => Err(
                        PipelineError::InternalTypeError(TypeError::AmbiguousTimestamp),
                    ),
                }
            },
        }
    }

    /// The latest date of the group, in days.
    pub fn calc_date_max(ptx: &Database<u64>) -> (r: Result<Option<i32>, PipelineError>)
        requires
            ptx.wf(),
        ensures
            match maximum_of(ptx@, FieldType::Date) {
                None => r == Ok::<Option<i32>, PipelineError>(None),
                Some(Decoded::Value(v)) => r matches Ok(Some(x)) && v == FieldValue::Date(x)
                    && data_encoding(v) == greatest_key(ptx@),
                Some(_) => r == malformed_error::<Option<i32>>(),
            },
    {
        match last_key(ptx) {
            None => Ok(None),
            Some(k) => {
                if k.len() != 4 {
                    return malformed();
                }
                proof {
                    lemma_be_value_bound(k@);
                    reveal_with_fuel(pow256, 5);
                    lemma_be_of_be_value(k@);
                }
                Ok(Some(key_to_i32(decode_be(k.as_slice()) as u32)))
            },
        }
    }

    /// The greatest signed number of the group.
    pub fn calc_i64_max(ptx: &Database<u64>) -> (r: Result<Option<i64>, PipelineError>)
        requires
            ptx.wf(),
        ensures
            match maximum_of(ptx@, FieldType::Int) {
                None => r == Ok::<Option<i64>, PipelineError>(None),
                Some(Decoded::Value(v)) => r matches Ok(Some(x)) && v == FieldValue::Int(x)
                    && data_encoding(v) == greatest_key(ptx@),
                Some(_) => r == malformed_error::<Option<i64>>(),
            },
    {
        match last_key(ptx) {
            None => Ok(None),
            Some(k) => {
                if k.len() != 8 {
                    return malformed();
                }
                proof {
                    lemma_be_value_bound(k@);
                    lemma_pow256_8();
                    lemma_be_of_be_value(k@);
                }
                Ok(Some(key_to_i64(decode_be(k.as_slice()) as u64)))
            },
        }
    }

    /// The greatest unsigned number of the group.
    pub fn calc_u64_max(ptx: &Database<u64>) -> (r: Result<Option<u64>, PipelineError>)
        requires
            ptx.wf(),
        ensures
            match maximum_of(ptx@, FieldType::UInt) {
                None => r == Ok::<Option<u64>, PipelineError>(None),
                Some(Decoded::Value(v)) => r matches Ok(Some(x)) && v == FieldValue::UInt(x)
                    && data_encoding(v) == greatest_key(ptx@),
                Some(_) => r == malformed_error::<Option<u64>>(),
            },
    {
        match last_key(ptx) {
            None => Ok(None),
            Some(k) => {
                if k.len() != 8 {
                    return malformed();
                }
                proof {
                    lemma_be_value_bound(k@);
                    lemma_pow256_8();
                    lemma_be_of_be_value(k@);
                }
                Ok(Some(decode_be(k.as_slice()) as u64))
            },
        }
    }
}

impl MaxAggregator {
    fn state_key(value: &Field, return_type: FieldType) -> (r: Result<Vec<u8>, PipelineError>)
        ensures
            match value_key(value@, return_type) {
                Some(k) => r matches Ok(b) && b@ == k,
                None => is_invalid_operand(r),
            },
    {
        state_key_of(value, return_type, AGGREGATOR_NAME)
    }

    fn answer(bytes: Vec<u8>, return_type: FieldType) -> (r: Result<
        AggregationResult,
        PipelineError,
    >)
        ensures
            result_of_key(r, bytes@, return_type),
    {
        answer_of_key(bytes, return_type)
    }

    /// The answer for the group as it stands.
    pub fn maximum(return_type: FieldType, ptx: &Database<u64>) -> (r: Result<
        AggregationResult,
        PipelineError,
    >)
        requires
            ptx.wf(),
        ensures
            supported(return_type) ==> result_matches(r, ptx@, return_type),
            !supported(return_type) ==> is_invalid_operand(r),
    {
        match return_type {
            FieldType::Date => match Self::calc_date_max(ptx) {
                Ok(None) => Ok(AggregationResult::new(Field::Null, None)),
                Ok(Some(d)) => Self::answer(encode_be(i32_to_key(d) as u128, 4), return_type),
                Err(e) => Err(e),
            },
            FieldType::Decimal => match Self::calc_decimal_max(ptx) {
                Ok(None) => Ok(AggregationResult::new(Field::Null, None)),
                Ok(Some(d)) => Self::answer(encode_be(i128_to_key(d), 16), return_type),
                Err(e) => Err(e),
            },
            FieldType::Float => match Self::calc_f64_max(ptx) {
                Ok(None) => Ok(AggregationResult::new(Field::Null, None)),
                Ok(Some(d)) => Self::answer(encode_be(d as u128, 8), return_type),
                Err(e) => Err(e),
            },
            FieldType::Int => match Self::calc_i64_max(ptx) {
                Ok(None) => Ok(AggregationResult::new(Field::Null, None)),
                Ok(Some(d)) => Self::answer(encode_be(i64_to_key(d) as u128, 8), return_type),
                Err(e) => Err(e),
            },
            FieldType::UInt => match Self::calc_u64_max(ptx) {
                Ok(None) => Ok(AggregationResult::new(Field::Null, None)),
                Ok(Some(d)) => Self::answer(encode_be(d as u128, 8), return_type),
                Err(e) => Err(e),
            },
            FieldType::Timestamp => match Self::calc_timestamp_max(ptx) {
                Ok(None) => Ok(AggregationResult::new(Field::Null, None)),
                Ok(Some(d)) => Self::answer(encode_be(i64_to_key(d) as u128, 8), return_type),
                Err(e) => Err(e),
            },
            _ => invalid_operand(),
        }
    }

    /// Counts `new` once more in the group and answers the new maximum.
    ///
    /// A value that is not of the type that the aggregator returns, or a
    /// type over which no maximum is taken, is refused, and so is a count
    /// that would pass the largest 64-bit number; the state is then left as
    /// it was.
    pub fn insert(
        _cur_state: Option<&[u8]>,
        new: &Field,
        return_type: FieldType,
        ptx: &mut Database<u64>,
    ) -> (r: Result<AggregationResult, PipelineError>)
        requires
            old(ptx).wf(),
        ensures
            final(ptx).wf(),
            match value_key(new@, return_type) {
                None => is_invalid_operand(r) && final(ptx)@ == old(ptx)@,
                Some(k) => if count_of(old(ptx)@, k) + 1 > u64::MAX {
                    r == Err::<AggregationResult, PipelineError>(PipelineError::NumericOverflow)
                        && final(ptx)@ == old(ptx)@
                } else {
                    final(ptx)@ == counted_up(old(ptx)@, k, 1) && result_matches(
                        r,
                        final(ptx)@,
                        return_type,
                    )
                },
            },
    {
        let key = match Self::state_key(new, return_type) {
            Ok(k) => k,
            Err(e) => {
                return Err(e);
            },
        };
        match update_aggregator_db(key.as_slice(), 1, false, ptx) {
            Ok(()) => {},
            Err(e) => {
                return Err(e);
            },
        }
        Self::maximum(return_type, ptx)
    }

    /// Counts `new` once more and `old` once less, and answers the new
    /// maximum. Refuses what `insert` refuses, of either value.
    pub fn update(
        _cur_state: Option<&[u8]>,
        old_value: &Field,
        new: &Field,
        return_type: FieldType,
        ptx: &mut Database<u64>,
    ) -> (r: Result<AggregationResult, PipelineError>)
        requires
            old(ptx).wf(),
        ensures
            final(ptx).wf(),
            match (value_key(new@, return_type), value_key(old_value@, return_type)) {
                (Some(kn), Some(ko)) => if count_of(old(ptx)@, kn) + 1 > u64::MAX {
                    r == Err::<AggregationResult, PipelineError>(PipelineError::NumericOverflow)
                        && final(ptx)@ == old(ptx)@
                } else {
                    final(ptx)@ == counted_down(counted_up(old(ptx)@, kn, 1), ko, 1)
                        && result_matches(r, final(ptx)@, return_type)
                },
                _ => is_invalid_operand(r) && final(ptx)@ == old(ptx)@,
            },
    {
        let new_key = match Self::state_key(new, return_type) {
            Ok(k) => k,
            Err(e) => {
                return Err(e);
            },
        };
        let old_key = match Self::state_key(old_value, return_type) {
            Ok(k) => k,
            Err(e) => {
                return Err(e);
            },
        };
        match update_aggregator_db(new_key.as_slice(), 1, false, ptx) {
            Ok(()) => {},
            Err(e) => {
                return Err(e);
            },
        }
        match update_aggregator_db(old_key.as_slice(), 1, true, ptx) {
            Ok(()) => {},
            Err(e) => {
                return Err(e);
            },
        }
        Self::maximum(return_type, ptx)
    }

    /// Counts `old` once less in the group and answers the new maximum:
    /// `Null` once the group is empty.
    pub fn delete(
        _cur_state: Option<&[u8]>,
        old_value: &Field,
        return_type: FieldType,
        ptx: &mut Database<u64>,
    ) -> (r: Result<AggregationResult, PipelineError>)
        requires
            old(ptx).wf(),
        ensures
            final(ptx).wf(),
            match value_key(old_value@, return_type) {
                None => is_invalid_operand(r) && final(ptx)@ == old(ptx)@,
                Some(k) => final(ptx)@ == counted_down(old(ptx)@, k, 1) && result_matches(
                    r,
                    final(ptx)@,
                    return_type,
                ),
            },
    {
        let key = match Self::state_key(old_value, return_type) {
            Ok(k) => k,
            Err(e) => {
                return Err(e);
            },
        };
        match update_aggregator_db(key.as_slice(), 1, true, ptx) {
            Ok(()) => {},
            Err(e) => {
                return Err(e);
            },
        }
        Self::maximum(return_type, ptx)
    }
}

/// The key under which a value is counted, for the aggregator of the given
/// name.
pub(crate) fn state_key_of(value: &Field, return_type: FieldType, aggregator: &str) -> (r: Result<
    Vec<u8>,
    PipelineError,
>)
    ensures
        match value_key(value@, return_type) {
            Some(k) => r matches Ok(b) && b@ == k,
            None => is_invalid_operand_of(r, aggregator@),
        },
{
    match (return_type, value) {
        (FieldType::Date, Field::Date(_)) => Ok(value.encode_data()),
        (FieldType::Decimal, Field::Decimal(_)) => Ok(value.encode_data()),
        (FieldType::Float, Field::Float(_)) => Ok(value.encode_data()),
        (FieldType::Int, Field::Int(_)) => Ok(value.encode_data()),
        (FieldType::UInt, Field::UInt(_)) => Ok(value.encode_data()),
        (FieldType::Timestamp, Field::Timestamp(_)) => Ok(value.encode_data()),
        _ => invalid_operand_of(aggregator),
    }
}

/// The answer that is read from a key.
pub(crate) fn answer_of_key(bytes: Vec<u8>, return_type: FieldType) -> (r: Result<
    AggregationResult,
    PipelineError,
>)
    ensures
        result_of_key(r, bytes@, return_type),
{
    match MaxAggregator::get_value(bytes.as_slice(), return_type) {
        Ok(value) => Ok(AggregationResult::new(value, Some(bytes))),
        Err(e) => Err(e),
    }
}

/// The error for bytes that hold no value of the type asked for.
pub open spec fn malformed_error<T>() -> Result<T, PipelineError> {
    Err(PipelineError::InternalTypeError(TypeError::DeserializationError))
}

/// Reading the key of a value gives the value back; for a timestamp, where
/// UTC maps its milliseconds to one instant.
pub proof fn lemma_decode_value_of_key(v: FieldValue, t: FieldType)
    requires
        value_key(v, t).is_some(),
    ensures
        decode_value(value_key(v, t).unwrap(), t) == (match v {
            FieldValue::Timestamp(ms) => timestamp_outcome(ms, utc_millis_kind(ms)),
            _ => Decoded::Value(v),
        }),
{
    lemma_pow256_8();
    lemma_pow256_16();
    crate::field::lemma_data_encoding_len(v);
    match v {
        FieldValue::Date(x) => {
            reveal_with_fuel(pow256, 5);
            lemma_be_value_of_be(key_of_i32(x), 4);
        },
        FieldValue::Decimal(x) => lemma_be_value_of_be(key_of_i128(x), 16),
        FieldValue::Float(x) => lemma_be_value_of_be(x as nat, 8),
        FieldValue::Int(x) => lemma_be_value_of_be(key_of_i64(x), 8),
        FieldValue::UInt(x) => lemma_be_value_of_be(x as nat, 8),
        FieldValue::Timestamp(x) => lemma_be_value_of_be(key_of_i64(x), 8),
        _ => {},
    }
}

/// The greatest key of a group is the key of its greatest value: no value
/// counted in the group is greater than the one that the greatest key holds.
pub proof fn lemma_greatest_is_maximum(
    m: Map<Seq<u8>, u64>,
    a: FieldValue,
    b: FieldValue,
    t: FieldType,
)
    requires
        value_key(a, t).is_some(),
        value_key(b, t).is_some(),
        Database::<u64>::is_greatest(m, value_key(a, t).unwrap()),
        m.contains_key(value_key(b, t).unwrap()),
    ensures
        crate::field::numeric_key(a).is_some(),
        crate::field::numeric_key(b).is_some(),
        crate::field::numeric_key(b).unwrap() <= crate::field::numeric_key(a).unwrap(),
{
    let ka = value_key(a, t).unwrap();
    let kb = value_key(b, t).unwrap();
    assert(ka == data_encoding(a));
    assert(kb == data_encoding(b));
    assert(crate::bytes::lex_le(kb, ka));
    crate::field::lemma_data_order(a, b);
}

/// A group that saw inserts and then the matching deletes, in any order, is
/// answered with `Null`.
pub proof fn lemma_round_trip_answers_null(
    ks: Seq<Seq<u8>>,
    ds: Seq<Seq<u8>>,
    r: Result<AggregationResult, PipelineError>,
    t: FieldType,
)
    requires
        ks.len() <= u64::MAX,
        ks.to_multiset() == ds.to_multiset(),
        result_matches(
            r,
            crate::aggregator::delete_all(
                crate::aggregator::insert_all(Map::<Seq<u8>, u64>::empty(), ks),
                ds,
            ),
            t,
        ),
    ensures
        r matches Ok(res) && res.value@ == FieldValue::Null && res.state.is_none(),
{
    crate::aggregator::lemma_round_trip(ks, ds);
}

/// The powers of 256 up to the sixteenth fit in 128 bits.
pub proof fn lemma_pow256_monotonic_to(n: nat)
    requires
        n <= 16,
    ensures
        pow256(n) <= pow256(16),
{
    crate::bigendian::lemma_pow256_monotonic(n, 16);
}

} // verus!
