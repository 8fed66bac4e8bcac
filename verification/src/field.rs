//! Field values and their order-preserving binary encoding.

use vstd::prelude::*;
use crate::bigendian::{
    be, complement, complement_bytes, decode_be, encode_be, lemma_be_len, lemma_be_order,
    lemma_complement_reverses, lemma_pow256_16, lemma_pow256_8, pow256,
};
use crate::bytes::{bytes_to_vec, is_split, lemma_split, lex_lt, mismatch};

verus! {

/// The type of a column.
#[derive(Clone, Copy, Debug, PartialEq, Eq, Structural, Hash)]
pub enum FieldType {
    UInt,
    Int,
    Float,
    Boolean,
    String,
    Text,
    Binary,
    Decimal,
    Timestamp,
    Date,
    Bson,
    Point,
}

/// A point of the plane. Each coordinate is held as the key of a float: the
/// unsigned number whose order is the float's total order.
#[derive(Clone, Copy, Debug, PartialEq, Eq, Structural, Hash)]
pub struct DozerPoint {
    pub x: u64,
    pub y: u64,
}

/// A tagged value.
///
/// A `Float` holds the key of a float, as a `DozerPoint` does. A `Decimal`
/// holds the number scaled to the fixed scale of the platform, a `Timestamp`
/// the milliseconds since the first of January 1970 in UTC, and a `Date`
/// the days of the Gregorian calendar, counted from the first of January of
/// the year 1, which is day 1.
#[derive(Debug, PartialEq, Eq, Hash)]
pub enum Field {
    UInt(u64),
    Int(i64),
    Float(u64),
    Boolean(bool),
    String(String),
    Text(String),
    Binary(Vec<u8>),
    Decimal(i128),
    Timestamp(i64),
    Date(i32),
    Bson(Vec<u8>),
    Point(DozerPoint),
    Null,
}

/// What a `Field` holds, as a mathematical value.
pub enum FieldValue {
    UInt(u64),
    Int(i64),
    Float(u64),
    Boolean(bool),
    String(Seq<char>),
    Text(Seq<char>),
    Binary(Seq<u8>),
    Decimal(i128),
    Timestamp(i64),
    Date(i32),
    Bson(Seq<u8>),
    Point(DozerPoint),
    Null,
}

impl View for Field {
    type V = FieldValue;

    open spec fn view(&self) -> FieldValue {
        match *self {
            Field::UInt(v) => FieldValue::UInt(v),
            Field::Int(v) => FieldValue::Int(v),
            Field::Float(v) => FieldValue::Float(v),
            Field::Boolean(v) => FieldValue::Boolean(v),
            Field::String(v) => FieldValue::String(v@),
            Field::Text(v) => FieldValue::Text(v@),
            Field::Binary(v) => FieldValue::Binary(v@),
            Field::Decimal(v) => FieldValue::Decimal(v),
            Field::Timestamp(v) => FieldValue::Timestamp(v),
            Field::Date(v) => FieldValue::Date(v),
            Field::Bson(v) => FieldValue::Bson(v@),
            Field::Point(v) => FieldValue::Point(v),
            Field::Null => FieldValue::Null,
        }
    }
}

/// The UTF-8 bytes of a text.
pub open spec fn text_bytes(s: Seq<char>) -> Seq<u8> {
    vstd::utf8::encode_utf8(s)
}

/// The unsigned number that keeps the order of a signed 64-bit number.
pub open spec fn key_of_i64(v: i64) -> nat {
    (v + 0x8000_0000_0000_0000) as nat
}

/// The unsigned number that keeps the order of a signed 128-bit number.
pub open spec fn key_of_i128(v: i128) -> nat {
    (v + 0x8000_0000_0000_0000_0000_0000_0000_0000) as nat
}

/// The unsigned number that keeps the order of a signed 32-bit number.
pub open spec fn key_of_i32(v: i32) -> nat {
    (v + 0x8000_0000) as nat
}

/// The byte that tells the variants apart in an encoding.
pub open spec fn type_prefix(v: FieldValue) -> u8 {
    match v {
        FieldValue::UInt(_) => 0,
        FieldValue::Int(_) => 1,
        FieldValue::Float(_) => 2,
        FieldValue::Boolean(_) => 3,
        FieldValue::String(_) => 4,
        FieldValue::Text(_) => 5,
        FieldValue::Binary(_) => 6,
        FieldValue::Decimal(_) => 7,
        FieldValue::Timestamp(_) => 8,
        FieldValue::Date(_) => 9,
        FieldValue::Bson(_) => 10,
        FieldValue::Point(_) => 11,
        FieldValue::Null => 12,
    }
}

/// The bytes of the value alone: within one variant their lexicographic
/// order is the order of the values.
pub open spec fn data_encoding(v: FieldValue) -> Seq<u8> {
    match v {
        FieldValue::UInt(x) => be(x as nat, 8),
        FieldValue::Int(x) => be(key_of_i64(x), 8),
        FieldValue::Float(x) => be(x as nat, 8),
        FieldValue::Boolean(x) => if x {
            seq![1u8]
        } else {
            seq![0u8]
        },
        FieldValue::String(s) => text_bytes(s),
        FieldValue::Text(s) => text_bytes(s),
        FieldValue::Binary(b) => b,
        FieldValue::Decimal(x) => be(key_of_i128(x), 16),
        FieldValue::Timestamp(x) => be(key_of_i64(x), 8),
        FieldValue::Date(x) => be(key_of_i32(x), 4),
        FieldValue::Bson(b) => b,
        FieldValue::Point(p) => be(p.x as nat, 8) + be(p.y as nat, 8),
        FieldValue::Null => Seq::<u8>::empty(),
    }
}

/// The encoding of a value: its prefix, then its data.
pub open spec fn field_encoding(v: FieldValue) -> Seq<u8> {
    seq![type_prefix(v)] + data_encoding(v)
}

/// The encoding for a descending column: the prefix, then the data with
/// every byte inverted.
pub open spec fn field_encoding_desc(v: FieldValue) -> Seq<u8> {
    seq![type_prefix(v)] + complement(data_encoding(v))
}

/// Gives the key of a signed 64-bit number.
pub fn i64_to_key(v: i64) -> (k: u64)
    ensures
        k == key_of_i64(v),
{
    if v >= 0 {
        (v as u64) + 0x8000_0000_0000_0000u64
    } else {
        ((v + i64::MAX) + 1) as u64
    }
}

/// Gives back the signed 64-bit number of a key.
pub fn key_to_i64(k: u64) -> (v: i64)
    ensures
        key_of_i64(v) == k,
{
    if k >= 0x8000_0000_0000_0000u64 {
        (k - 0x8000_0000_0000_0000u64) as i64
    } else {
        (k as i64) - i64::MAX - 1
    }
}

/// Gives the key of a signed 128-bit number.
pub fn i128_to_key(v: i128) -> (k: u128)
    ensures
        k == key_of_i128(v),
{
    if v >= 0 {
        (v as u128) + 0x8000_0000_0000_0000_0000_0000_0000_0000u128
    } else {
        ((v + i128::MAX) + 1) as u128
    }
}

/// Gives back the signed 128-bit number of a key.
pub fn key_to_i128(k: u128) -> (v: i128)
    ensures
        key_of_i128(v) == k,
{
    if k >= 0x8000_0000_0000_0000_0000_0000_0000_0000u128 {
        (k - 0x8000_0000_0000_0000_0000_0000_0000_0000u128) as i128
    } else {
        (k as i128) - i128::MAX - 1
    }
}

/// Gives the key of a signed 32-bit number.
pub fn i32_to_key(v: i32) -> (k: u32)
    ensures
        k == key_of_i32(v),
{
    if v >= 0 {
        (v as u32) + 0x8000_0000u32
    } else {
        ((v + i32::MAX) + 1) as u32
    }
}

/// Gives back the signed 32-bit number of a key.
pub fn key_to_i32(k: u32) -> (v: i32)
    ensures
        key_of_i32(v) == k,
{
    if k >= 0x8000_0000u32 {
        (k - 0x8000_0000u32) as i32
    } else {
        (k as i32) - i32::MAX - 1
    }
}

impl DozerPoint {
    /// The sixteen bytes of the point: both coordinates, big-endian.
    pub fn to_bytes(&self) -> (r: Vec<u8>)
        ensures
            r@ == be(self.x as nat, 8) + be(self.y as nat, 8),
    {
        let mut r = encode_be(self.x as u128, 8);
        let mut y = encode_be(self.y as u128, 8);
        r.append(&mut y);
        r
    }

    /// Reads a point from sixteen bytes; `None` for any other length.
    pub fn from_bytes(bytes: &[u8]) -> (r: Option<DozerPoint>)
        ensures
            r.is_some() == (bytes@.len() == 16),
            r matches Some(p) ==> be(p.x as nat, 8) + be(p.y as nat, 8) == bytes@,
    {
        if bytes.len() != 16 {
            return None;
        }
        let xs = vstd::slice::slice_subrange(bytes, 0, 8);
        let ys = vstd::slice::slice_subrange(bytes, 8, 16);
        let x = decode_be(xs);
        let y = decode_be(ys);
        proof {
            crate::bigendian::lemma_be_value_bound(xs@);
            crate::bigendian::lemma_be_value_bound(ys@);
            crate::bigendian::lemma_pow256_8();
            crate::bigendian::lemma_be_of_be_value(xs@);
            crate::bigendian::lemma_be_of_be_value(ys@);
            assert(xs@ + ys@ =~= bytes@);
        }
        Some(DozerPoint { x: x as u64, y: y as u64 })
    }
}

impl Clone for Field {
    fn clone(&self) -> (r: Self)
        ensures
            r@ == self@,
    {
        match self {
            Field::UInt(v) => Field::UInt(*v),
            Field::Int(v) => Field::Int(*v),
            Field::Float(v) => Field::Float(*v),
            Field::Boolean(v) => Field::Boolean(*v),
            Field::String(v) => Field::String(v.clone()),
            Field::Text(v) => Field::Text(v.clone()),
            Field::Binary(v) => Field::Binary(bytes_to_vec(v.as_slice())),
            Field::Decimal(v) => Field::Decimal(*v),
            Field::Timestamp(v) => Field::Timestamp(*v),
            Field::Date(v) => Field::Date(*v),
            Field::Bson(v) => Field::Bson(bytes_to_vec(v.as_slice())),
            Field::Point(v) => Field::Point(*v),
            Field::Null => Field::Null,
        }
    }
}

impl Field {
    /// The byte that tells the variants apart in an encoding.
    pub fn get_type_prefix(&self) -> (r: u8)
        ensures
            r == type_prefix(self@),
    {
        match self {
            Field::UInt(_) => 0,
            Field::Int(_) => 1,
            Field::Float(_) => 2,
            Field::Boolean(_) => 3,
            Field::String(_) => 4,
            Field::Text(_) => 5,
            Field::Binary(_) => 6,
            Field::Decimal(_) => 7,
            Field::Timestamp(_) => 8,
            Field::Date(_) => 9,
            Field::Bson(_) => 10,
            Field::Point(_) => 11,
            Field::Null => 12,
        }
    }

    /// The bytes of the value alone, without the prefix.
    pub fn encode_data(&self) -> (r: Vec<u8>)
        ensures
            r@ == data_encoding(self@),
    {
        match self {
            Field::UInt(v) => encode_be(*v as u128, 8),
            Field::Int(v) => encode_be(i64_to_key(*v) as u128, 8),
            Field::Float(v) => encode_be(*v as u128, 8),
            Field::Boolean(v) => {
                let mut r: Vec<u8> = Vec::new();
                r.push(if *v { 1u8 } else { 0u8 });
                assert(r@ =~= data_encoding(self@));
                r
            },
            Field::String(v) => bytes_to_vec(v.as_str().as_bytes()),
            Field::Text(v) => bytes_to_vec(v.as_str().as_bytes()),
            Field::Binary(v) => bytes_to_vec(v.as_slice()),
            Field::Decimal(v) => encode_be(i128_to_key(*v), 16),
            Field::Timestamp(v) => encode_be(i64_to_key(*v) as u128, 8),
            Field::Date(v) => encode_be(i32_to_key(*v) as u128, 4),
            Field::Bson(v) => bytes_to_vec(v.as_slice()),
            Field::Point(v) => v.to_bytes(),
            Field::Null => Vec::new(),
        }
    }

    /// The length of `encode()`.
    pub fn encoding_len(&self) -> (r: usize)
        requires
            field_encoding(self@).len() <= usize::MAX,
        ensures
            r == field_encoding(self@).len(),
    {
        proof {
            crate::bigendian::lemma_be_len(0, 0);
            lemma_data_encoding_len(self@);
        }
        match self {
            Field::UInt(_) => 9,
            Field::Int(_) => 9,
            Field::Float(_) => 9,
            Field::Boolean(_) => 2,
            Field::String(v) => v.as_str().as_bytes().len() + 1,
            Field::Text(v) => v.as_str().as_bytes().len() + 1,
            Field::Binary(v) => v.len() + 1,
            Field::Decimal(_) => 17,
            Field::Timestamp(_) => 9,
            Field::Date(_) => 5,
            Field::Bson(v) => v.len() + 1,
            Field::Point(_) => 17,
            Field::Null => 1,
        }
    }

    /// The order-preserving encoding: the prefix, then the data.
    pub fn encode(&self) -> (r: Vec<u8>)
        ensures
            r@ == field_encoding(self@),
    {
        let mut r: Vec<u8> = Vec::new();
        r.push(self.get_type_prefix());
        let mut data = self.encode_data();
        r.append(&mut data);
        assert(r@ =~= field_encoding(self@));
        r
    }

    /// The encoding for a descending column.
    pub fn encode_desc(&self) -> (r: Vec<u8>)
        ensures
            r@ == field_encoding_desc(self@),
    {
        let mut r: Vec<u8> = Vec::new();
        r.push(self.get_type_prefix());
        let data = self.encode_data();
        let mut inverted = complement_bytes(data.as_slice());
        r.append(&mut inverted);
        assert(r@ =~= field_encoding_desc(self@));
        r
    }

    /// Tells whether two fields hold the same value.
    pub fn same(&self, other: &Field) -> (r: bool)
        ensures
            r == (self@ == other@),
    {
        match (self, other) {
            (Field::UInt(a), Field::UInt(b)) => *a == *b,
            (Field::Int(a), Field::Int(b)) => *a == *b,
            (Field::Float(a), Field::Float(b)) => *a == *b,
            (Field::Boolean(a), Field::Boolean(b)) => *a == *b,
            (Field::String(a), Field::String(b)) => *a == *b,
            (Field::Text(a), Field::Text(b)) => *a == *b,
            (Field::Binary(a), Field::Binary(b)) => crate::bytes::bytes_eq(
                a.as_slice(),
                b.as_slice(),
            ),
            (Field::Decimal(a), Field::Decimal(b)) => *a == *b,
            (Field::Timestamp(a), Field::Timestamp(b)) => *a == *b,
            (Field::Date(a), Field::Date(b)) => *a == *b,
            (Field::Bson(a), Field::Bson(b)) => crate::bytes::bytes_eq(a.as_slice(), b.as_slice()),
            (Field::Point(a), Field::Point(b)) => a.x == b.x && a.y == b.y,
            (Field::Null, Field::Null) => true,
            _ => false,
        }
    }

    /// The unsigned number of a `UInt`.
    pub fn to_uint(&self) -> (r: Option<u64>)
        ensures
            r == (match self@ {
                FieldValue::UInt(v) => Some(v),
                _ => None,
            }),
    {
        match self {
            Field::UInt(v) => Some(*v),
            _ => None,
        }
    }

    /// The signed number of an `Int`.
    pub fn to_int(&self) -> (r: Option<i64>)
        ensures
            r == (match self@ {
                FieldValue::Int(v) => Some(v),
                _ => None,
            }),
    {
        match self {
            Field::Int(v) => Some(*v),
            _ => None,
        }
    }

    /// The key of a `Float`.
    pub fn to_float(&self) -> (r: Option<u64>)
        ensures
            r == (match self@ {
                FieldValue::Float(v) => Some(v),
                _ => None,
            }),
    {
        match self {
            Field::Float(v) => Some(*v),
            _ => None,
        }
    }

    /// The scaled number of a `Decimal`.
    pub fn to_decimal(&self) -> (r: Option<i128>)
        ensures
            r == (match self@ {
                FieldValue::Decimal(v) => Some(v),
                _ => None,
            }),
    {
        match self {
            Field::Decimal(v) => Some(*v),
            _ => None,
        }
    }

    /// The milliseconds of a `Timestamp`.
    pub fn to_timestamp(&self) -> (r: Option<i64>)
        ensures
            r == (match self@ {
                FieldValue::Timestamp(v) => Some(v),
                _ => None,
            }),
    {
        match self {
            Field::Timestamp(v) => Some(*v),
            _ => None,
        }
    }

    /// The days of a `Date`, counted from the first of January of the year 1.
    pub fn to_date(&self) -> (r: Option<i32>)
        ensures
            r == (match self@ {
                FieldValue::Date(v) => Some(v),
                _ => None,
            }),
    {
        match self {
            Field::Date(v) => Some(*v),
            _ => None,
        }
    }
}

/// The length of the data of each variant.
pub proof fn lemma_data_encoding_len(v: FieldValue)
    ensures
        data_encoding(v).len() == (match v {
            FieldValue::UInt(_) => 8,
            FieldValue::Int(_) => 8,
            FieldValue::Float(_) => 8,
            FieldValue::Boolean(_) => 1,
            FieldValue::String(s) => text_bytes(s).len(),
            FieldValue::Text(s) => text_bytes(s).len(),
            FieldValue::Binary(b) => b.len(),
            FieldValue::Decimal(_) => 16,
            FieldValue::Timestamp(_) => 8,
            FieldValue::Date(_) => 4,
            FieldValue::Bson(b) => b.len(),
            FieldValue::Point(_) => 16,
            FieldValue::Null => 0,
        }),
{
    match v {
        FieldValue::UInt(x) => crate::bigendian::lemma_be_len(x as nat, 8),
        FieldValue::Int(x) => crate::bigendian::lemma_be_len(key_of_i64(x), 8),
        FieldValue::Float(x) => crate::bigendian::lemma_be_len(x as nat, 8),
        FieldValue::Decimal(x) => crate::bigendian::lemma_be_len(key_of_i128(x), 16),
        FieldValue::Timestamp(x) => crate::bigendian::lemma_be_len(key_of_i64(x), 8),
        FieldValue::Date(x) => crate::bigendian::lemma_be_len(key_of_i32(x), 4),
        FieldValue::Point(p) => {
            crate::bigendian::lemma_be_len(p.x as nat, 8);
            crate::bigendian::lemma_be_len(p.y as nat, 8);
        },
        _ => {},
    }
}

/// The number by which the values of a numeric variant are ordered.
pub open spec fn numeric_key(v: FieldValue) -> Option<int> {
    match v {
        FieldValue::UInt(x) => Some(x as int),
        FieldValue::Int(x) => Some(x as int),
        FieldValue::Float(x) => Some(x as int),
        FieldValue::Boolean(x) => Some(if x { 1int } else { 0int }),
        FieldValue::Decimal(x) => Some(x as int),
        FieldValue::Timestamp(x) => Some(x as int),
        FieldValue::Date(x) => Some(x as int),
        _ => None,
    }
}

/// A common head does not change the order of two byte strings.
pub proof fn lemma_lex_common_head(c: Seq<u8>, x: Seq<u8>, y: Seq<u8>)
    ensures
        lex_lt(c + x, c + y) <==> lex_lt(x, y),
{
    lemma_split(x, y);
    lemma_split(c + x, c + y);
    let p = mismatch(x, y, 0);
    assert(is_split(c + x, c + y, c.len() + p)) by {
        assert forall|j: int| 0 <= j < c.len() + p implies (c + x)[j] == (c + y)[j] by {
            if j >= c.len() {
                assert(x[j - c.len()] == y[j - c.len()]);
            }
        }
        if p < x.len() && p < y.len() {
            assert((c + x)[c.len() + p] == x[p]);
            assert((c + y)[c.len() + p] == y[p]);
        }
    }
    if p < x.len() {
        assert((c + x)[c.len() + p] == x[p]);
    }
    if p < y.len() {
        assert((c + y)[c.len() + p] == y[p]);
    }
}

/// Within one numeric variant the data of two values sort as the values do,
/// and are equal only for equal values.
pub proof fn lemma_data_order(a: FieldValue, b: FieldValue)
    requires
        type_prefix(a) == type_prefix(b),
        numeric_key(a).is_some(),
    ensures
        lex_lt(data_encoding(a), data_encoding(b)) <==> numeric_key(a).unwrap() < numeric_key(
            b,
        ).unwrap(),
        data_encoding(a) == data_encoding(b) <==> a == b,
        data_encoding(a).len() == data_encoding(b).len(),
{
    lemma_pow256_8();
    lemma_pow256_16();
    lemma_data_encoding_len(a);
    lemma_data_encoding_len(b);
    match (a, b) {
        (FieldValue::UInt(x), FieldValue::UInt(y)) => lemma_be_order(x as nat, y as nat, 8),
        (FieldValue::Int(x), FieldValue::Int(y)) => lemma_be_order(
            key_of_i64(x),
            key_of_i64(y),
            8,
        ),
        (FieldValue::Float(x), FieldValue::Float(y)) => lemma_be_order(x as nat, y as nat, 8),
        (FieldValue::Boolean(x), FieldValue::Boolean(y)) => {
            let s = data_encoding(a);
            let t = data_encoding(b);
            lemma_split(s, t);
            if x == y {
                assert(is_split(s, t, 1));
            } else {
                assert(s[0] != t[0]);
                assert(is_split(s, t, 0));
            }
        },
        (FieldValue::Decimal(x), FieldValue::Decimal(y)) => lemma_be_order(
            key_of_i128(x),
            key_of_i128(y),
            16,
        ),
        (FieldValue::Timestamp(x), FieldValue::Timestamp(y)) => lemma_be_order(
            key_of_i64(x),
            key_of_i64(y),
            8,
        ),
        (FieldValue::Date(x), FieldValue::Date(y)) => {
            reveal_with_fuel(pow256, 5);
            lemma_be_order(key_of_i32(x), key_of_i32(y), 4)
        },
        _ => {},
    }
}

/// The encoding keeps the order: two values of one numeric variant sort, by
/// the bytes of their encodings, as the values themselves do.
pub proof fn lemma_encoding_order(a: FieldValue, b: FieldValue)
    requires
        type_prefix(a) == type_prefix(b),
        numeric_key(a).is_some(),
    ensures
        lex_lt(field_encoding(a), field_encoding(b)) <==> numeric_key(a).unwrap() < numeric_key(
            b,
        ).unwrap(),
{
    lemma_data_order(a, b);
    lemma_lex_common_head(seq![type_prefix(a)], data_encoding(a), data_encoding(b));
}

/// The descending encoding reverses the order: two values of one numeric
/// variant sort, by the bytes of their descending encodings, against the
/// order of the values.
pub proof fn lemma_encoding_desc_order(a: FieldValue, b: FieldValue)
    requires
        type_prefix(a) == type_prefix(b),
        numeric_key(a).is_some(),
    ensures
        lex_lt(field_encoding_desc(a), field_encoding_desc(b)) <==> numeric_key(b).unwrap()
            < numeric_key(a).unwrap(),
{
    lemma_data_order(a, b);
    lemma_data_order(b, a);
    lemma_complement_reverses(data_encoding(a), data_encoding(b));
    lemma_lex_common_head(
        seq![type_prefix(a)],
        complement(data_encoding(a)),
        complement(data_encoding(b)),
    );
}

/// Two values with the same encoding are the same value.
pub proof fn lemma_encoding_injective(a: FieldValue, b: FieldValue)
    requires
        field_encoding(a) == field_encoding(b),
    ensures
        a == b,
{
    let ea = field_encoding(a);
    let eb = field_encoding(b);
    assert(ea[0] == type_prefix(a));
    assert(eb[0] == type_prefix(b));
    assert(data_encoding(a) =~= ea.subrange(1, ea.len() as int));
    assert(data_encoding(b) =~= eb.subrange(1, eb.len() as int));
    match (a, b) {
        (FieldValue::String(s), FieldValue::String(t)) => {
            vstd::utf8::encode_utf8_decode_utf8(s);
            vstd::utf8::encode_utf8_decode_utf8(t);
        },
        (FieldValue::Text(s), FieldValue::Text(t)) => {
            vstd::utf8::encode_utf8_decode_utf8(s);
            vstd::utf8::encode_utf8_decode_utf8(t);
        },
        (FieldValue::Binary(s), FieldValue::Binary(t)) => {},
        (FieldValue::Bson(s), FieldValue::Bson(t)) => {},
        (FieldValue::Null, FieldValue::Null) => {},
        (FieldValue::Point(p), FieldValue::Point(q)) => {
            lemma_pow256_8();
            let d = data_encoding(a);
            lemma_be_len(p.x as nat, 8);
            lemma_be_len(q.x as nat, 8);
            assert(d.subrange(0, 8) =~= be(p.x as nat, 8));
            assert(d.subrange(0, 8) =~= be(q.x as nat, 8));
            assert(d.subrange(8, d.len() as int) =~= be(p.y as nat, 8));
            assert(d.subrange(8, d.len() as int) =~= be(q.y as nat, 8));
            lemma_be_order(p.x as nat, q.x as nat, 8);
            lemma_be_order(p.y as nat, q.y as nat, 8);
        },
        _ => {
            if numeric_key(a).is_some() {
                lemma_data_order(a, b);
            }
        },
    }
}

} // verus!
