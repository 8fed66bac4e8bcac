//! The hash of the values of a record.

use vstd::prelude::*;
use crate::bigendian::{be, encode_be};
use crate::field::{
    i128_to_key, i32_to_key, key_of_i128, key_of_i32, text_bytes, Field, FieldValue,
};
use crate::indexer::value_views;
use crate::types::Record;

verus! {

/// The hasher `ahash::AHasher`, carried as it is: nothing of what it holds
/// is seen.
#[verifier::external_type_specification]
#[verifier::external_body]
pub struct ExAHasher(ahash::AHasher);

/// What `Hasher::finish` answers for a hasher: it reads the hasher and
/// nothing else.
pub uninterp spec fn ahash_answer(hasher: ahash::AHasher) -> u64;

/// The hasher after `Hasher::write` has written the bytes to it.
pub uninterp spec fn ahash_after_write(hasher: ahash::AHasher, bytes: Seq<u8>) -> ahash::AHasher;

/// The hasher after `Hasher::write_u8` has written the byte to it.
pub uninterp spec fn ahash_after_write_u8(hasher: ahash::AHasher, v: u8) -> ahash::AHasher;

/// The hasher after `Hasher::write_i32` has written the number to it.
pub uninterp spec fn ahash_after_write_i32(hasher: ahash::AHasher, v: i32) -> ahash::AHasher;

/// The hasher after `Hasher::write_u64` has written the number to it.
pub uninterp spec fn ahash_after_write_u64(hasher: ahash::AHasher, v: u64) -> ahash::AHasher;

/// The hasher after `Hasher::write_i64` has written the number to it.
pub uninterp spec fn ahash_after_write_i64(hasher: ahash::AHasher, v: i64) -> ahash::AHasher;

/// One write to a hasher.
pub enum Write {
    Bytes(Seq<u8>),
    U8(u8),
    I32(i32),
    U64(u64),
    I64(i64),
}

/// The hasher after one write.
pub open spec fn after_write(hasher: ahash::AHasher, write: Write) -> ahash::AHasher {
    match write {
        Write::Bytes(bytes) => ahash_after_write(hasher, bytes),
        Write::U8(v) => ahash_after_write_u8(hasher, v),
        Write::I32(v) => ahash_after_write_i32(hasher, v),
        Write::U64(v) => ahash_after_write_u64(hasher, v),
        Write::I64(v) => ahash_after_write_i64(hasher, v),
    }
}

/// The hasher after the writes, in turn.
pub open spec fn after_feed(start: ahash::AHasher, writes: Seq<Write>) -> ahash::AHasher
    decreases writes.len(),
{
    if writes.len() == 0 {
        start
    } else {
        after_write(after_feed(start, writes.drop_last()), writes.last())
    }
}

/// A hasher with the log of what was written to it since it was made.
pub struct FeedHasher {
    inner: ahash::AHasher,
    start: Ghost<ahash::AHasher>,
    written: Ghost<Seq<Write>>,
}

/// Makes a hasher with `ahash::AHasher::default`. Its keys are drawn by
/// the process, so nothing is said of it.
#[verifier::external_body]
fn raw_default() -> ahash::AHasher {
    ahash::AHasher::default()
}

/// Writes bytes with `Hasher::write`: the hasher is then what that write
/// makes of it and of the bytes.
#[verifier::external_body]
fn raw_write(hasher: &mut ahash::AHasher, bytes: &[u8])
    ensures
        *final(hasher) == ahash_after_write(*old(hasher), bytes@),
{
    std::hash::Hasher::write(hasher, bytes)
}

/// Writes a byte with `Hasher::write_u8`: the hasher is then what that
/// write makes of it and of the byte.
#[verifier::external_body]
fn raw_write_u8(hasher: &mut ahash::AHasher, v: u8)
    ensures
        *final(hasher) == ahash_after_write_u8(*old(hasher), v),
{
    std::hash::Hasher::write_u8(hasher, v)
}

/// Writes a number with `Hasher::write_i32`: the hasher is then what that
/// write makes of it and of the number.
#[verifier::external_body]
fn raw_write_i32(hasher: &mut ahash::AHasher, v: i32)
    ensures
        *final(hasher) == ahash_after_write_i32(*old(hasher), v),
{
    std::hash::Hasher::write_i32(hasher, v)
}

/// Writes a number with `Hasher::write_u64`: the hasher is then what that
/// write makes of it and of the number.
#[verifier::external_body]
fn raw_write_u64(hasher: &mut ahash::AHasher, v: u64)
    ensures
        *final(hasher) == ahash_after_write_u64(*old(hasher), v),
{
    std::hash::Hasher::write_u64(hasher, v)
}

/// Writes a number with `Hasher::write_i64`: the hasher is then what that
/// write makes of it and of the number.
#[verifier::external_body]
fn raw_write_i64(hasher: &mut ahash::AHasher, v: i64)
    ensures
        *final(hasher) == ahash_after_write_i64(*old(hasher), v),
{
    std::hash::Hasher::write_i64(hasher, v)
}

/// Reads the hash with `Hasher::finish`, which reads the hasher alone.
#[verifier::external_body]
fn raw_finish(hasher: &ahash::AHasher) -> (r: u64)
    ensures
        r == ahash_answer(*hasher),
{
    std::hash::Hasher::finish(hasher)
}

impl FeedHasher {
    /// The hasher as it was made.
    pub closed spec fn started(&self) -> ahash::AHasher {
        self.start@
    }

    /// What was written to the hasher since it was made.
    pub closed spec fn written(&self) -> Seq<Write> {
        self.written@
    }

    /// What the hasher answers as it stands.
    pub closed spec fn answer(&self) -> u64 {
        ahash_answer(self.inner)
    }

    /// The hasher is what the writes of the log have made of the hasher
    /// that it was.
    pub closed spec fn wf(&self) -> bool {
        self.inner == after_feed(self.start@, self.written@)
    }

    /// The log has one write more.
    pub open spec fn wrote(&self, before: &FeedHasher, write: Write) -> bool {
        &&& self.wf()
        &&& self.started() == before.started()
        &&& self.written() == before.written().push(write)
    }

    /// A hasher to which nothing is written yet.
    pub fn new() -> (r: Self)
        ensures
            r.wf(),
            r.written() == Seq::<Write>::empty(),
    {
        let inner = raw_default();
        let ghost made = inner;
        FeedHasher { inner, start: Ghost(made), written: Ghost(Seq::empty()) }
    }

    /// Writes bytes.
    pub fn write(&mut self, bytes: &[u8])
        requires
            old(self).wf(),
        ensures
            final(self).wrote(old(self), Write::Bytes(bytes@)),
    {
        raw_write(&mut self.inner, bytes);
        self.written = Ghost(self.written@.push(Write::Bytes(bytes@)));
        assert(self.written@.drop_last() =~= old(self).written@);
    }

    /// Writes a byte.
    pub fn write_u8(&mut self, v: u8)
        requires
            old(self).wf(),
        ensures
            final(self).wrote(old(self), Write::U8(v)),
    {
        raw_write_u8(&mut self.inner, v);
        self.written = Ghost(self.written@.push(Write::U8(v)));
        assert(self.written@.drop_last() =~= old(self).written@);
    }

    /// Writes a signed number of 32 bits.
    pub fn write_i32(&mut self, v: i32)
        requires
            old(self).wf(),
        ensures
            final(self).wrote(old(self), Write::I32(v)),
    {
        raw_write_i32(&mut self.inner, v);
        self.written = Ghost(self.written@.push(Write::I32(v)));
        assert(self.written@.drop_last() =~= old(self).written@);
    }

    /// Writes an unsigned number of 64 bits.
    pub fn write_u64(&mut self, v: u64)
        requires
            old(self).wf(),
        ensures
            final(self).wrote(old(self), Write::U64(v)),
    {
        raw_write_u64(&mut self.inner, v);
        self.written = Ghost(self.written@.push(Write::U64(v)));
        assert(self.written@.drop_last() =~= old(self).written@);
    }

    /// Writes a signed number of 64 bits.
    pub fn write_i64(&mut self, v: i64)
        requires
            old(self).wf(),
        ensures
            final(self).wrote(old(self), Write::I64(v)),
    {
        raw_write_i64(&mut self.inner, v);
        self.written = Ghost(self.written@.push(Write::I64(v)));
        assert(self.written@.drop_last() =~= old(self).written@);
    }

    /// The hash of what was written: the answer of the hasher that was
    /// made, after the writes of the log.
    pub fn finish(&self) -> (r: u64)
        requires
            self.wf(),
        ensures
            r == self.answer(),
            r == ahash_answer(after_feed(self.started(), self.written())),
    {
        raw_finish(&self.inner)
    }
}

/// The position of a value as a signed number of 32 bits.
pub open spec fn position_number(index: int) -> i32 {
    (index % 0x8000_0000) as i32
}

/// What is written for one value: a byte for its variant, then the value.
pub open spec fn value_feed(v: FieldValue) -> Seq<Write> {
    match v {
        FieldValue::UInt(i) => seq![Write::U8(1), Write::U64(i)],
        FieldValue::Int(i) => seq![Write::U8(2), Write::I64(i)],
        FieldValue::Float(f) => seq![Write::U8(3), Write::Bytes(be(f as nat, 8))],
        FieldValue::Boolean(b) => seq![Write::U8(4), Write::U8(if b { 1u8 } else { 0u8 })],
        FieldValue::String(s) => seq![Write::U8(5), Write::Bytes(text_bytes(s))],
        FieldValue::Text(t) => seq![Write::U8(6), Write::Bytes(text_bytes(t))],
        FieldValue::Binary(b) => seq![Write::U8(7), Write::Bytes(b)],
        FieldValue::Decimal(d) => seq![Write::U8(8), Write::Bytes(be(key_of_i128(d), 16))],
        FieldValue::Timestamp(t) => seq![Write::U8(9), Write::I64(t)],
        FieldValue::Date(d) => seq![Write::U8(10), Write::Bytes(be(key_of_i32(d), 4))],
        FieldValue::Bson(b) => seq![Write::U8(11), Write::Bytes(b)],
        FieldValue::Point(p) => seq![
            Write::U8(12),
            Write::Bytes(be(p.x as nat, 8) + be(p.y as nat, 8)),
        ],
        FieldValue::Null => seq![Write::U8(0)],
    }
}

/// What is written for the values of a record: for each its position, and
/// then the value.
pub open spec fn hash_feed(values: Seq<FieldValue>) -> Seq<Write>
    decreases values.len(),
{
    if values.len() == 0 {
        Seq::<Write>::empty()
    } else {
        hash_feed(values.drop_last()) + seq![Write::I32(position_number(values.len() - 1))]
            + value_feed(values.last())
    }
}

fn feed_value(hasher: &mut FeedHasher, field: &Field)
    requires
        old(hasher).wf(),
    ensures
        final(hasher).wf(),
        final(hasher).started() == old(hasher).started(),
        final(hasher).written() == old(hasher).written() + value_feed(field@),
{
    let ghost before = hasher.written();
    match field {
        Field::UInt(i) => {
            hasher.write_u8(1);
            hasher.write_u64(*i);
        },
        Field::Int(i) => {
            hasher.write_u8(2);
            hasher.write_i64(*i);
        },
        Field::Float(f) => {
            hasher.write_u8(3);
            hasher.write(encode_be(*f as u128, 8).as_slice());
        },
        Field::Boolean(b) => {
            hasher.write_u8(4);
            hasher.write_u8(if *b { 1_u8 } else { 0_u8 });
        },
        Field::String(s) => {
            hasher.write_u8(5);
            hasher.write(s.as_str().as_bytes());
        },
        Field::Text(t) => {
            hasher.write_u8(6);
            hasher.write(t.as_str().as_bytes());
        },
        Field::Binary(b) => {
            hasher.write_u8(7);
            hasher.write(b.as_slice());
        },
        Field::Decimal(d) => {
            hasher.write_u8(8);
            hasher.write(encode_be(i128_to_key(*d), 16).as_slice());
        },
        Field::Timestamp(t) => {
            hasher.write_u8(9);
            hasher.write_i64(*t);
        },
        Field::Date(d) => {
            hasher.write_u8(10);
            hasher.write(encode_be(i32_to_key(*d) as u128, 4).as_slice());
        },
        Field::Bson(b) => {
            hasher.write_u8(11);
            hasher.write(b.as_slice());
        },
        Field::Point(p) => {
            hasher.write_u8(12);
            hasher.write(p.to_bytes().as_slice());
        },
        Field::Null => {
            hasher.write_u8(0);
        },
    }
    assert(hasher.written() =~= before + value_feed(field@));
}

/// Writes the values of a record to a hasher: for each its position, a byte
/// for its variant, and the value.
pub fn feed_values(hasher: &mut FeedHasher, values: &Vec<Field>)
    requires
        old(hasher).wf(),
    ensures
        final(hasher).wf(),
        final(hasher).started() == old(hasher).started(),
        final(hasher).written() == old(hasher).written() + hash_feed(value_views(values@)),
{
    let mut index: usize = 0;
    assert(hasher.written() =~= old(hasher).written() + hash_feed(
        value_views(values@).subrange(0, 0),
    ));
    while index < values.len()
        invariant
            index <= values@.len(),
            hasher.wf(),
            hasher.started() == old(hasher).started(),
            hasher.written() == old(hasher).written() + hash_feed(
                value_views(values@).subrange(0, index as int),
            ),
        decreases values@.len() - index,
    {
        proof {
            let next = value_views(values@).subrange(0, index + 1);
            assert(next.drop_last() =~= value_views(values@).subrange(0, index as int));
            assert(next.last() == values@[index as int]@);
        }
        let ghost before = hasher.written();
        let position: i32 = (index as u64 % 0x8000_0000u64) as i32;
        hasher.write_i32(position);
        feed_value(hasher, &values[index]);
        proof {
            assert(hasher.written() =~= before + seq![Write::I32(position)] + value_feed(
                values@[index as int]@,
            ));
        }
        index += 1;
    }
    assert(value_views(values@).subrange(0, index as int) =~= value_views(values@));
}

impl Record {
    /// A hash of the values of the record: what a fresh hasher answers
    /// after the values were written to it, each with its position and the
    /// byte of its variant, and nothing else. What is written depends on
    /// the values alone, not on the schema or the version of the record.
    pub fn get_values_hash(&self) -> (r: u64)
        ensures
            exists|start: ahash::AHasher|
                r == ahash_answer(
                    #[trigger] after_feed(start, hash_feed(value_views(self.values@))),
                ),
    {
        let mut hasher = FeedHasher::new();
        feed_values(&mut hasher, &self.values);
        let r = hasher.finish();
        proof {
            assert(hasher.written() =~= hash_feed(value_views(self.values@)));
            assert(r == ahash_answer(
                after_feed(hasher.started(), hash_feed(value_views(self.values@))),
            ));
        }
        r
    }
}

} // verus!
