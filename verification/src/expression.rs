//! Queries over the records of a cache.

use vstd::prelude::*;
use crate::bytes::{bytes_eq, lex_le, lex_less, lex_lt};
use crate::field::{field_encoding, Field, FieldValue};
use crate::index::{full_text_key, full_text_keys, key_views};
use crate::indexer::{full_text_keys_in, value_views};

verus! {

/// How a value of a record is held against the value of a filter.
#[derive(Clone, Copy, Debug, PartialEq, Eq, Structural)]
pub enum Operator {
    LT,
    LTE,
    EQ,
    GT,
    GTE,
    Contains,
}

/// A condition on the values of a record.
#[derive(Debug, PartialEq, Eq)]
pub enum FilterExpression {
    /// The field at the given position, held against a value.
    Simple(usize, Operator, Field),
    /// Both conditions.
    And(Box<FilterExpression>, Box<FilterExpression>),
}

/// How many of the first results are passed over.
#[derive(Clone, Copy, Debug, PartialEq, Eq, Structural)]
pub enum Skip {
    /// The given number of results.
    Skip(usize),
    /// The results up to the record with the given id, and that record.
    After(u64),
}

/// The direction in which records are ordered by a field.
#[derive(Clone, Copy, Debug, PartialEq, Eq, Structural)]
pub enum SortDirection {
    Ascending,
    Descending,
}

/// A field by which records are ordered, by its position, and the
/// direction.
#[derive(Clone, Copy, Debug, PartialEq, Eq, Structural)]
pub struct SortOption {
    pub field: usize,
    pub direction: SortDirection,
}

/// A query: which records, in which order, and which part of them.
#[derive(Debug, PartialEq, Eq)]
pub struct QueryExpression {
    pub filter: Option<FilterExpression>,
    /// The fields by which the records are ordered, the first one first.
    /// Records that no field tells apart keep the order of their ids.
    pub order_by: Vec<SortOption>,
    pub skip: Skip,
    pub limit: Option<usize>,
}

impl QueryExpression {
    /// A query for records in the order of their ids.
    pub fn new(filter: Option<FilterExpression>, skip: Skip, limit: Option<usize>) -> (r: Self)
        ensures
            r.filter == filter,
            r.order_by@ == Seq::<SortOption>::empty(),
            r.skip == skip,
            r.limit == limit,
    {
        Self { filter, order_by: Vec::new(), skip, limit }
    }

    /// The query with the given order.
    pub fn ordered_by(self, order_by: Vec<SortOption>) -> (r: Self)
        ensures
            r.filter == self.filter,
            r.order_by == order_by,
            r.skip == self.skip,
            r.limit == self.limit,
    {
        Self { filter: self.filter, order_by, skip: self.skip, limit: self.limit }
    }
}

/// The bytes by which a record is ordered by a field: the encoding of its
/// value, and nothing for a record without the field, which comes first.
pub open spec fn sort_key(values: Seq<FieldValue>, field: usize) -> Seq<u8> {
    if field < values.len() {
        field_encoding(values[field as int])
    } else {
        Seq::<u8>::empty()
    }
}

/// Whether the record `a` comes before the record `b` by one field.
pub open spec fn before_by(option: SortOption, a: Seq<FieldValue>, b: Seq<FieldValue>) -> bool {
    match option.direction {
        SortDirection::Ascending => lex_lt(sort_key(a, option.field), sort_key(b, option.field)),
        SortDirection::Descending => lex_lt(sort_key(b, option.field), sort_key(a, option.field)),
    }
}

/// Whether the record `a` comes before the record `b` in the given order:
/// the first field that tells them apart decides.
pub open spec fn precedes(order: Seq<SortOption>, a: Seq<FieldValue>, b: Seq<FieldValue>) -> bool
    decreases order.len(),
{
    if order.len() == 0 {
        false
    } else if sort_key(a, order[0].field) != sort_key(b, order[0].field) {
        before_by(order[0], a, b)
    } else {
        precedes(order.drop_first(), a, b)
    }
}

fn key_for(values: &Vec<Field>, field: usize) -> (r: Vec<u8>)
    ensures
        r@ == sort_key(value_views(values@), field),
{
    if field < values.len() {
        values[field].encode()
    } else {
        Vec::new()
    }
}

/// Tells whether the record `a` comes before the record `b` in the given
/// order.
pub fn values_precede(order: &Vec<SortOption>, a: &Vec<Field>, b: &Vec<Field>) -> (r: bool)
    ensures
        r == precedes(order@, value_views(a@), value_views(b@)),
{
    let mut i: usize = 0;
    assert(order@.subrange(0, order@.len() as int) =~= order@);
    while i < order.len()
        invariant
            i <= order@.len(),
            precedes(order@, value_views(a@), value_views(b@)) == precedes(
                order@.subrange(i as int, order@.len() as int),
                value_views(a@),
                value_views(b@),
            ),
        decreases order@.len() - i,
    {
        let ghost rest = order@.subrange(i as int, order@.len() as int);
        assert(rest[0] == order@[i as int]);
        assert(rest.drop_first() =~= order@.subrange(i + 1, order@.len() as int));
        let ka = key_for(a, order[i].field);
        let kb = key_for(b, order[i].field);
        if !bytes_eq(ka.as_slice(), kb.as_slice()) {
            return match order[i].direction {
                SortDirection::Ascending => lex_less(ka.as_slice(), kb.as_slice()),
                SortDirection::Descending => lex_less(kb.as_slice(), ka.as_slice()),
            };
        }
        i += 1;
    }
    false
}

/// No record comes before itself, and of two records at most one comes
/// before the other.
pub proof fn lemma_precedes_asymmetric(order: Seq<SortOption>, a: Seq<FieldValue>, b: Seq<FieldValue>)
    requires
        precedes(order, a, b),
    ensures
        !precedes(order, b, a),
    decreases order.len(),
{
    if order.len() > 0 {
        let ka = sort_key(a, order[0].field);
        let kb = sort_key(b, order[0].field);
        if ka != kb {
            if lex_lt(ka, kb) {
                crate::bytes::lemma_lex_asymmetric(ka, kb);
            } else {
                crate::bytes::lemma_lex_asymmetric(kb, ka);
            }
        } else {
            lemma_precedes_asymmetric(order.drop_first(), a, b);
        }
    }
}

/// Where `a` does not come after `b`, and `b` not after `c`, `a` does not
/// come after `c`.
pub proof fn lemma_precedes_chain(
    order: Seq<SortOption>,
    a: Seq<FieldValue>,
    b: Seq<FieldValue>,
    c: Seq<FieldValue>,
)
    requires
        !precedes(order, b, a),
        !precedes(order, c, b),
    ensures
        !precedes(order, c, a),
    decreases order.len(),
{
    if order.len() > 0 {
        let ka = sort_key(a, order[0].field);
        let kb = sort_key(b, order[0].field);
        let kc = sort_key(c, order[0].field);
        crate::bytes::lemma_lex_total(ka, kb);
        crate::bytes::lemma_lex_total(kb, kc);
        crate::bytes::lemma_lex_total(ka, kc);
        if ka == kb && kb == kc {
            lemma_precedes_chain(order.drop_first(), a, b, c);
        } else {
            // By the first field `a` is not after `b` and `b` not after `c`,
            // and one of the two is before the other.
            if lex_lt(ka, kb) && lex_lt(kb, kc) {
                crate::bytes::lemma_lex_transitive(ka, kb, kc);
            }
            if lex_lt(kc, kb) && lex_lt(kb, ka) {
                crate::bytes::lemma_lex_transitive(kc, kb, ka);
            }
            if lex_lt(ka, kc) {
                crate::bytes::lemma_lex_asymmetric(ka, kc);
            }
            if lex_lt(kc, ka) {
                crate::bytes::lemma_lex_asymmetric(kc, ka);
            }
            if lex_lt(ka, kb) {
                crate::bytes::lemma_lex_asymmetric(ka, kb);
            }
            if lex_lt(kb, ka) {
                crate::bytes::lemma_lex_asymmetric(kb, ka);
            }
            if lex_lt(kb, kc) {
                crate::bytes::lemma_lex_asymmetric(kb, kc);
            }
            if lex_lt(kc, kb) {
                crate::bytes::lemma_lex_asymmetric(kc, kb);
            }
        }
    }
}

/// The text of a `String` or a `Text`.
pub open spec fn text_in(v: FieldValue) -> Option<Seq<char>> {
    match v {
        FieldValue::String(s) => Some(s),
        FieldValue::Text(s) => Some(s),
        _ => None,
    }
}

/// Whether the value `a` of a record stands to the value `b` of a filter as
/// the operator asks. Values are ordered by their encodings; a text
/// contains a word where the word is one of its words.
pub open spec fn compares(a: FieldValue, op: Operator, b: FieldValue) -> bool {
    match op {
        Operator::LT => lex_lt(field_encoding(a), field_encoding(b)),
        Operator::LTE => lex_le(field_encoding(a), field_encoding(b)),
        Operator::EQ => field_encoding(a) == field_encoding(b),
        Operator::GT => lex_lt(field_encoding(b), field_encoding(a)),
        Operator::GTE => lex_le(field_encoding(b), field_encoding(a)),
        Operator::Contains => match (text_in(a), text_in(b)) {
            (Some(text), Some(word)) => full_text_keys(text).contains(full_text_key(word)),
            _ => false,
        },
    }
}

/// Whether a record with the given values meets the condition. A record
/// without the field of a condition does not meet it.
pub open spec fn meets(filter: FilterExpression, values: Seq<FieldValue>) -> bool
    decreases filter,
{
    match filter {
        FilterExpression::Simple(position, op, value) => position < values.len() && compares(
            values[position as int],
            op,
            value@,
        ),
        FilterExpression::And(left, right) => meets(*left, values) && meets(*right, values),
    }
}

/// Whether a record with the given values is among those that the query
/// asks for.
pub open spec fn accepted(filter: Option<FilterExpression>, values: Seq<FieldValue>) -> bool {
    match filter {
        None => true,
        Some(f) => meets(f, values),
    }
}

fn text_of_field(f: &Field) -> (r: Option<&String>)
    ensures
        match text_in(f@) {
            Some(s) => r matches Some(t) && t@ == s,
            None => r.is_none(),
        },
{
    match f {
        Field::String(s) => Some(s),
        Field::Text(s) => Some(s),
        _ => None,
    }
}

/// Tells whether the value `a` of a record stands to the value `b` of a
/// filter as the operator asks.
#[verifier::loop_isolation(false)]
pub fn compare_fields(a: &Field, op: Operator, b: &Field) -> (r: bool)
    ensures
        r == compares(a@, op, b@),
{
    match op {
        Operator::Contains => {
            let text = match text_of_field(a) {
                Some(t) => t,
                None => {
                    return false;
                },
            };
            let word = match text_of_field(b) {
                Some(w) => w,
                None => {
                    return false;
                },
            };
            let keys = full_text_keys_in(text.as_str());
            let key = crate::index::get_full_text_secondary_index(word.as_str());
            let mut i: usize = 0;
            while i < keys.len()
                invariant
                    i <= keys@.len(),
                    forall|j: int| 0 <= j < i ==> key_views(keys@)[j] != key@,
                decreases keys@.len() - i,
            {
                if bytes_eq(keys[i].as_slice(), key.as_slice()) {
                    assert(key_views(keys@)[i as int] == key@);
                    assert(key_views(keys@).contains(key@));
                    return true;
                }
                i += 1;
            }
            assert(!key_views(keys@).contains(key@));
            false
        },
        _ => {
            let ea = a.encode();
            let eb = b.encode();
            match op {
                Operator::LT => lex_less(ea.as_slice(), eb.as_slice()),
                Operator::LTE => !lex_less(eb.as_slice(), ea.as_slice()),
                Operator::EQ => bytes_eq(ea.as_slice(), eb.as_slice()),
                Operator::GT => lex_less(eb.as_slice(), ea.as_slice()),
                _ => !lex_less(ea.as_slice(), eb.as_slice()),
            }
        },
    }
}

/// Tells whether a record with the given values meets the condition.
pub fn filter_meets(filter: &FilterExpression, values: &Vec<Field>) -> (r: bool)
    ensures
        r == meets(*filter, value_views(values@)),
    decreases *filter,
{
    match filter {
        FilterExpression::Simple(position, op, value) => {
            *position < values.len() && compare_fields(&values[*position], *op, value)
        },
        FilterExpression::And(left, right) => filter_meets(left, values) && filter_meets(
            right,
            values,
        ),
    }
}

/// Tells whether a record with the given values is among those that the
/// query asks for.
pub fn filter_accepts(filter: &Option<FilterExpression>, values: &Vec<Field>) -> (r: bool)
    ensures
        r == accepted(*filter, value_views(values@)),
{
    match filter {
        None => true,
        Some(f) => filter_meets(f, values),
    }
}

} // verus!
