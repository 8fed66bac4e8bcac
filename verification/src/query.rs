//! The read path of the cache: which records a query finds, and which part
//! of them it returns.

use vstd::prelude::*;
use crate::cache::{expected_entries, image_of, Cache, RecordWithId};
use crate::errors::CacheError;
use crate::expression::{
    accepted, filter_accepts, lemma_precedes_asymmetric, lemma_precedes_chain, meets, precedes,
    values_precede, FilterExpression, Operator, QueryExpression, Skip, SortOption,
};
use crate::field::{field_encoding, Field, FieldValue};
use crate::index::{picked, sorted_inverted_key};
use crate::indexer::{keys_in, value_views};
use crate::types::{str_eq, IndexDefinition, Record, RecordView, Schema};

verus! {

/// The records of the image that the filter accepts, in the order of the
/// image.
pub open spec fn matching(image: Seq<(u64, RecordView)>, filter: Option<FilterExpression>) -> Seq<
    (u64, RecordView),
>
    decreases image.len(),
{
    if image.len() == 0 {
        Seq::<(u64, RecordView)>::empty()
    } else if accepted(filter, image.last().1.values) {
        matching(image.drop_last(), filter).push(image.last())
    } else {
        matching(image.drop_last(), filter)
    }
}

/// The position of the first record with the id `id`, and the number of
/// records where none has it.
pub open spec fn first_with_id(s: Seq<(u64, RecordView)>, id: u64) -> int
    decreases s.len(),
{
    if s.len() == 0 {
        0
    } else if s.first().0 == id {
        0
    } else {
        1 + first_with_id(s.drop_first(), id)
    }
}

/// The results without those that are passed over: the first `n`, or those
/// up to and with the first record of the given id, which are all where no
/// record has that id.
pub open spec fn skipped(s: Seq<(u64, RecordView)>, skip: Skip) -> Seq<(u64, RecordView)> {
    match skip {
        Skip::Skip(n) => if n <= s.len() {
            s.subrange(n as int, s.len() as int)
        } else {
            Seq::<(u64, RecordView)>::empty()
        },
        Skip::After(id) => if first_with_id(s, id) < s.len() {
            s.subrange(first_with_id(s, id) + 1, s.len() as int)
        } else {
            Seq::<(u64, RecordView)>::empty()
        },
    }
}

/// At most `limit` of the results, from the first on.
pub open spec fn limited(s: Seq<(u64, RecordView)>, limit: Option<usize>) -> Seq<
    (u64, RecordView),
> {
    match limit {
        Some(n) => if n <= s.len() {
            s.subrange(0, n as int)
        } else {
            s
        },
        None => s,
    }
}

/// What a query returns of an image.
pub open spec fn query_result(
    image: Seq<(u64, RecordView)>,
    filter: Option<FilterExpression>,
    order: Seq<SortOption>,
    skip: Skip,
    limit: Option<usize>,
) -> Seq<(u64, RecordView)> {
    limited(skipped(sorted_by(matching(image, filter), order), skip), limit)
}

/// Where the record `x` stands among the ordered records `s`: before the
/// records at the end of `s` that come after it, and behind every other.
pub open spec fn insert_position(s: Seq<(u64, RecordView)>, x: (u64, RecordView), order: Seq<SortOption>) -> int
    decreases s.len(),
{
    if s.len() == 0 {
        0
    } else if precedes(order, x.1.values, s.last().1.values) {
        insert_position(s.drop_last(), x, order)
    } else {
        s.len() as int
    }
}

/// The records in the given order. Each record in turn takes its place
/// among those before it, so records that the order does not tell apart
/// keep the order in which they were.
pub open spec fn sorted_by(s: Seq<(u64, RecordView)>, order: Seq<SortOption>) -> Seq<
    (u64, RecordView),
>
    decreases s.len(),
{
    if s.len() == 0 {
        Seq::<(u64, RecordView)>::empty()
    } else {
        let before = sorted_by(s.drop_last(), order);
        before.insert(insert_position(before, s.last(), order), s.last())
    }
}

/// No record of the sequence comes before a record that stands before it.
pub open spec fn is_ordered(s: Seq<(u64, RecordView)>, order: Seq<SortOption>) -> bool {
    forall|i: int, j: int|
        0 <= i < j < s.len() ==> !precedes(
            order,
            (#[trigger] s[j]).1.values,
            (#[trigger] s[i]).1.values,
        )
}

/// The place of a record: every record from there on comes after it, and
/// the record just before does not.
pub proof fn lemma_insert_position(s: Seq<(u64, RecordView)>, x: (u64, RecordView), order: Seq<SortOption>)
    ensures
        0 <= insert_position(s, x, order) <= s.len(),
        forall|j: int|
            insert_position(s, x, order) <= j < s.len() ==> precedes(
                order,
                x.1.values,
                (#[trigger] s[j]).1.values,
            ),
        insert_position(s, x, order) > 0 ==> !precedes(
            order,
            x.1.values,
            s[insert_position(s, x, order) - 1].1.values,
        ),
    decreases s.len(),
{
    if s.len() > 0 && precedes(order, x.1.values, s.last().1.values) {
        let head = s.drop_last();
        lemma_insert_position(head, x, order);
        assert forall|j: int| insert_position(s, x, order) <= j < s.len() implies precedes(
            order,
            x.1.values,
            (#[trigger] s[j]).1.values,
        ) by {
            if j < head.len() {
                assert(head[j] == s[j]);
            }
        }
        if insert_position(s, x, order) > 0 {
            assert(head[insert_position(s, x, order) - 1] == s[insert_position(s, x, order) - 1]);
        }
    }
}

/// The records in order are the records, each as often as it was, and no
/// record of them comes before a record that stands before it.
pub proof fn lemma_sorted_by(s: Seq<(u64, RecordView)>, order: Seq<SortOption>)
    ensures
        sorted_by(s, order).len() == s.len(),
        sorted_by(s, order).to_multiset() == s.to_multiset(),
        is_ordered(sorted_by(s, order), order),
    decreases s.len(),
{
    if s.len() > 0 {
        let head = s.drop_last();
        let x = s.last();
        lemma_sorted_by(head, order);
        let before = sorted_by(head, order);
        let p = insert_position(before, x, order);
        lemma_insert_position(before, x, order);
        let out = before.insert(p, x);
        before.insert_ensures(p, x);
        // The same records.
        assert(head.push(x) =~= s);
        vstd::seq_lib::to_multiset_build(head, x);
        assert(out.to_multiset() =~= before.to_multiset().insert(x)) by {
            let front = before.subrange(0, p);
            let back = before.subrange(p, before.len() as int);
            assert(before =~= front + back);
            vstd::seq_lib::lemma_multiset_commutative(front, back);
            vstd::seq_lib::to_multiset_build(front, x);
            vstd::seq_lib::lemma_multiset_commutative(front.push(x), back);
        }
        assert(s.to_multiset() =~= head.to_multiset().insert(x));
        assert(out.to_multiset() =~= s.to_multiset());
        // In order.
        assert forall|i: int, j: int| 0 <= i < j < out.len() implies !precedes(
            order,
            (#[trigger] out[j]).1.values,
            (#[trigger] out[i]).1.values,
        ) by {
            if j < p {
                assert(out[i] == before[i] && out[j] == before[j]);
            } else if j == p {
                // `x` against a record before its place.
                assert(out[i] == before[i]);
                if i < p - 1 {
                    lemma_precedes_chain(
                        order,
                        before[i].1.values,
                        before[p - 1].1.values,
                        x.1.values,
                    );
                }
            } else if i == p {
                // A record after its place against `x`.
                assert(out[j] == before[j - 1]);
                lemma_precedes_asymmetric(order, x.1.values, before[j - 1].1.values);
            } else if i < p {
                assert(out[i] == before[i] && out[j] == before[j - 1]);
            } else {
                assert(out[i] == before[i - 1] && out[j] == before[j - 1]);
            }
        }
    } else {
        assert(s =~= Seq::<(u64, RecordView)>::empty());
    }
}

/// Without an order the records stay as they are.
pub proof fn lemma_sorted_by_nothing(s: Seq<(u64, RecordView)>)
    ensures
        sorted_by(s, Seq::<SortOption>::empty()) == s,
    decreases s.len(),
{
    if s.len() > 0 {
        let head = s.drop_last();
        lemma_sorted_by_nothing(head);
        assert(head.insert(head.len() as int, s.last()) =~= s);
    }
}

/// A query returns what the query without skip and limit returns, without
/// the results that it passes over and cut to its limit.
pub proof fn lemma_skip_limit(
    image: Seq<(u64, RecordView)>,
    filter: Option<FilterExpression>,
    order: Seq<SortOption>,
    skip: Skip,
    limit: Option<usize>,
)
    ensures
        query_result(image, filter, order, skip, limit) == limited(
            skipped(query_result(image, filter, order, Skip::Skip(0), None), skip),
            limit,
        ),
        query_result(image, filter, order, Skip::Skip(0), None) == sorted_by(
            matching(image, filter),
            order,
        ),
{
    let m = sorted_by(matching(image, filter), order);
    assert(m.subrange(0, m.len() as int) =~= m);
}

/// The index answers the filter with the key: a record meets the filter
/// where `key` is one of its keys in the index, and only there.
pub open spec fn answers(index: IndexDefinition, key: Seq<u8>, filter: FilterExpression) -> bool {
    forall|values: Seq<FieldValue>| #[trigger]
        meets(filter, values) <==> keys_in(index, values).contains(key)
}

/// A sorted inverted index over one field answers an equality on that
/// field with the encoding of the value.
pub proof fn lemma_equality_is_answered(position: usize, value: FieldValue)
    ensures
        forall|values: Seq<FieldValue>| #[trigger]
            keys_in_sorted(position, values).contains(field_encoding(value)) <==> (position
                < values.len() && field_encoding(values[position as int]) == field_encoding(value)),
{
    assert forall|values: Seq<FieldValue>| #[trigger]
        keys_in_sorted(position, values).contains(field_encoding(value)) <==> (position
            < values.len() && field_encoding(values[position as int]) == field_encoding(
            value,
        )) by {
        let fields = seq![position];
        assert(fields.drop_last() =~= Seq::<usize>::empty());
        assert(fields.last() == position);
        assert(picked(fields.drop_last(), values) =~= Seq::<FieldValue>::empty());
        let chosen = picked(fields, values);
        let keys = keys_in_sorted(position, values);
        assert(keys[0] == sorted_inverted_key(fields, values));
        if position < values.len() {
            assert(chosen =~= seq![values[position as int]]);
        } else {
            assert(chosen =~= Seq::<FieldValue>::empty());
            assert(field_encoding(value)[0] == crate::field::type_prefix(value));
        }
        if keys.contains(field_encoding(value)) {
            let k = choose|k: int| 0 <= k < keys.len() && keys[k] == field_encoding(value);
            assert(k == 0);
        }
    }
}

/// The full-text index of a field answers the search for a word in that
/// field with the key of the word.
pub proof fn lemma_word_is_answered(
    index: IndexDefinition,
    position: usize,
    filter: FilterExpression,
    word: Seq<char>,
)
    requires
        index == IndexDefinition::FullText(position),
        filter matches FilterExpression::Simple(p, op, value) && p == position && op
            == Operator::Contains && crate::expression::text_in(value@) == Some(word),
    ensures
        answers(index, crate::index::full_text_key(word), filter),
{
    let key = crate::index::full_text_key(word);
    assert forall|values: Seq<FieldValue>| #[trigger]
        meets(filter, values) <==> keys_in(index, values).contains(key) by {
        let keys = keys_in(index, values);
        if position < values.len() {
            match values[position as int] {
                FieldValue::String(s) => {},
                FieldValue::Text(s) => {},
                _ => {
                    assert(keys =~= Seq::<Seq<u8>>::empty());
                },
            }
        } else {
            assert(keys =~= Seq::<Seq<u8>>::empty());
        }
    }
}

/// The key under which an index serves a filter, if it does: a sorted
/// inverted index over one field serves an equality on that field under the
/// encoding of the value, and a full-text index serves the search for a
/// word in its field under the key of the word.
pub open spec fn serving_key(index: IndexDefinition, filter: FilterExpression) -> Option<Seq<u8>> {
    match filter {
        FilterExpression::Simple(position, op, value) => match index {
            IndexDefinition::SortedInverted(fields) => if op == Operator::EQ && fields@
                == seq![position] {
                Some(field_encoding(value@))
            } else {
                None
            },
            IndexDefinition::FullText(field) => if op == Operator::Contains && field == position {
                match crate::expression::text_in(value@) {
                    Some(word) => Some(crate::index::full_text_key(word)),
                    None => None,
                }
            } else {
                None
            },
        },
        FilterExpression::And(_, _) => None,
    }
}

/// The first index, from position `from` on, that serves the filter, and
/// the key under which it does.
pub open spec fn planned(indexes: Seq<IndexDefinition>, filter: FilterExpression, from: int) -> Option<
    (int, Seq<u8>),
>
    decreases indexes.len() - from,
{
    if from < 0 || from >= indexes.len() {
        None
    } else {
        match serving_key(indexes[from], filter) {
            Some(key) => Some((from, key)),
            None => planned(indexes, filter, from + 1),
        }
    }
}

/// The key under which an index serves a filter, if it does. Under that
/// key the index answers the filter.
fn serve(index: &IndexDefinition, filter: &FilterExpression) -> (r: Option<Vec<u8>>)
    ensures
        match serving_key(*index, *filter) {
            Some(key) => r matches Some(found) && found@ == key && answers(*index, key, *filter),
            None => r.is_none(),
        },
{
    let (position, op, value) = match filter {
        FilterExpression::Simple(position, op, value) => (*position, *op, value),
        FilterExpression::And(_, _) => {
            return None;
        },
    };
    match (index, op) {
        (IndexDefinition::SortedInverted(fields), Operator::EQ) => {
            if fields.len() == 1 && fields[0] == position {
                let key = value.encode();
                proof {
                    assert(fields@ =~= seq![position]);
                    lemma_equality_is_answered(position, value@);
                    assert forall|values: Seq<FieldValue>| #[trigger]
                        meets(*filter, values) <==> keys_in(*index, values).contains(key@) by {
                        assert(keys_in(*index, values) == keys_in_sorted(position, values));
                    }
                }
                Some(key)
            } else {
                proof {
                    if fields@ == seq![position] {
                        assert(fields@.len() == 1);
                        assert(fields@[0] == position);
                    }
                }
                None
            }
        },
        (IndexDefinition::FullText(field), Operator::Contains) => {
            if *field == position {
                match value {
                    Field::String(word) => {
                        proof {
                            lemma_word_is_answered(*index, position, *filter, word@);
                        }
                        Some(crate::index::get_full_text_secondary_index(word.as_str()))
                    },
                    Field::Text(word) => {
                        proof {
                            lemma_word_is_answered(*index, position, *filter, word@);
                        }
                        Some(crate::index::get_full_text_secondary_index(word.as_str()))
                    },
                    _ => None,
                }
            } else {
                None
            }
        },
        _ => None,
    }
}

/// The keys of a record in the sorted inverted index over one field.
pub open spec fn keys_in_sorted(position: usize, values: Seq<FieldValue>) -> Seq<Seq<u8>> {
    seq![sorted_inverted_key(seq![position], values)]
}

/// The first record with an id stands where no record before it has the id.
pub proof fn lemma_first_with_id(s: Seq<(u64, RecordView)>, id: u64, p: int)
    requires
        0 <= p <= s.len(),
        forall|j: int| 0 <= j < p ==> (#[trigger] s[j]).0 != id,
        p < s.len() ==> s[p].0 == id,
    ensures
        first_with_id(s, id) == p,
    decreases s.len(),
{
    if s.len() > 0 && p > 0 {
        assert(s[0].0 != id);
        let rest = s.drop_first();
        assert forall|j: int| 0 <= j < p - 1 implies (#[trigger] rest[j]).0 != id by {
            assert(rest[j] == s[j + 1]);
        }
        lemma_first_with_id(rest, id, p - 1);
    }
}

impl Cache {
    /// The index that answers the filter, by its position, and the key to
    /// look up in it: the first index that serves the filter, which is a
    /// sorted inverted index over the one field of an equality, or the
    /// full-text index of the field in which a word is looked for.
    fn plan(&self, filter: &FilterExpression) -> (r: Option<(usize, Vec<u8>)>)
        ensures
            match planned(self.secondary_indexes@, *filter, 0) {
                Some((j, key)) => r matches Some((at, found)) && at == j && found@ == key && j
                    < self.secondary_indexes@.len() && answers(
                    self.secondary_indexes@[j],
                    key,
                    *filter,
                ),
                None => r.is_none(),
            },
    {
        let mut j: usize = 0;
        while j < self.secondary_indexes.len()
            invariant
                j <= self.secondary_indexes@.len(),
                planned(self.secondary_indexes@, *filter, 0) == planned(
                    self.secondary_indexes@,
                    *filter,
                    j as int,
                ),
            decreases self.secondary_indexes@.len() - j,
        {
            match serve(&self.secondary_indexes[j], filter) {
                Some(key) => {
                    return Some((j, key));
                },
                None => {},
            }
            j += 1;
        }
        None
    }

    fn scan(&self, filter: &Option<FilterExpression>) -> (r: Vec<RecordWithId>)
        ensures
            image_of(r@) == matching(self.image(), *filter),
    {
        let mut found: Vec<RecordWithId> = Vec::new();
        let mut i: usize = 0;
        while i < self.records.len()
            invariant
                i <= self.records@.len(),
                image_of(found@) == matching(self.image().subrange(0, i as int), *filter),
            decreases self.records@.len() - i,
        {
            proof {
                let next = self.image().subrange(0, i + 1);
                assert(next.drop_last() =~= self.image().subrange(0, i as int));
                assert(next.last() == self.image()[i as int]);
                assert(self.image()[i as int].1.values == value_views(
                    self.records@[i as int].record.values@,
                ));
            }
            if filter_accepts(filter, &self.records[i].record.values) {
                let ghost before = image_of(found@);
                found.push(self.records[i].clone());
                assert(image_of(found@) =~= before.push(self.image()[i as int]));
            }
            i += 1;
        }
        assert(self.image().subrange(0, i as int) =~= self.image());
        found
    }

    /// The records that have an entry under `key` in the index at position
    /// `j`, which are those that the filter accepts.
    fn lookup(&self, j: usize, key: &Vec<u8>, Ghost(filter): Ghost<FilterExpression>) -> (r: Vec<
        RecordWithId,
    >)
        requires
            self.wf(),
            j < self.secondary_indexes@.len(),
            answers(self.secondary_indexes@[j as int], key@, filter),
        ensures
            image_of(r@) == matching(self.image(), Some(filter)),
    {
        let mut found: Vec<RecordWithId> = Vec::new();
        let mut i: usize = 0;
        while i < self.records.len()
            invariant
                self.wf(),
                j < self.secondary_indexes@.len(),
                answers(self.secondary_indexes@[j as int], key@, filter),
                i <= self.records@.len(),
                image_of(found@) == matching(self.image().subrange(0, i as int), Some(filter)),
            decreases self.records@.len() - i,
        {
            proof {
                let next = self.image().subrange(0, i + 1);
                assert(next.drop_last() =~= self.image().subrange(0, i as int));
                assert(next.last() == self.image()[i as int]);
                self.lemma_entry_of_record(j as int, i as int, key@);
            }
            if self.indexer.secondary_indexes[j].contains(key.as_slice(), self.records[i].id) {
                let ghost before = image_of(found@);
                found.push(self.records[i].clone());
                assert(image_of(found@) =~= before.push(self.image()[i as int]));
            }
            i += 1;
        }
        assert(self.image().subrange(0, i as int) =~= self.image());
        found
    }

    /// A record has an entry under a key in an index where the key is one
    /// of its keys in the index.
    pub proof fn lemma_entry_of_record(&self, j: int, i: int, key: Seq<u8>)
        requires
            self.wf(),
            0 <= j < self.secondary_indexes@.len(),
            0 <= i < self.image().len(),
        ensures
            self.indexer.entries(j).contains((key, self.image()[i].0)) <==> keys_in(
                self.secondary_indexes@[j],
                self.image()[i].1.values,
            ).contains(key),
    {
        let image = self.image();
        let index = self.secondary_indexes@[j];
        assert(self.indexer.entries(j) == expected_entries(image, index));
        if expected_entries(image, index).contains((key, image[i].0)) {
            let k = choose|k: int|
                0 <= k < image.len() && (#[trigger] image[k]).0 == image[i].0 && keys_in(
                    index,
                    image[k].1.values,
                ).contains(key);
            if k < i {
                assert(image[k].0 < image[i].0);
            } else if i < k {
                assert(image[i].0 < image[k].0);
            }
        }
    }

    /// A word that occurs in the text of a record, however often, has one
    /// entry in a full-text index over the field of the text: the id of the
    /// record under the key of the word. The entries of an index are a set,
    /// so the word has no second entry for the record.
    pub proof fn lemma_full_text_entry(&self, j: int, i: int, text: Seq<char>, w: int)
        requires
            self.wf(),
            0 <= j < self.secondary_indexes@.len(),
            0 <= i < self.image().len(),
            self.secondary_indexes@[j] matches IndexDefinition::FullText(field) && field
                < self.image()[i].1.values.len() && crate::expression::text_in(
                self.image()[i].1.values[field as int],
            ) == Some(text),
            0 <= w < crate::index::words_of(text).len(),
        ensures
            self.indexer.entries(j).contains(
                (crate::index::full_text_key(crate::index::words_of(text)[w]), self.image()[i].0),
            ),
    {
        crate::index::lemma_full_text_keys_once(text);
        self.lemma_entry_of_record(
            j,
            i,
            crate::index::full_text_key(crate::index::words_of(text)[w]),
        );
    }

    fn matching_records(&self, filter: &Option<FilterExpression>) -> (r: Vec<RecordWithId>)
        requires
            self.wf(),
        ensures
            image_of(r@) == matching(self.image(), *filter),
    {
        match filter {
            Some(f) => match self.plan(f) {
                Some((j, key)) => self.lookup(j, &key, Ghost(*f)),
                None => self.scan(filter),
            },
            None => self.scan(filter),
        }
    }

    fn sort_records(all: Vec<RecordWithId>, order: &Vec<SortOption>) -> (r: Vec<RecordWithId>)
        ensures
            image_of(r@) == sorted_by(image_of(all@), order@),
    {
        if order.len() == 0 {
            proof {
                assert(order@ =~= Seq::<SortOption>::empty());
                lemma_sorted_by_nothing(image_of(all@));
            }
            return all;
        }
        let mut out: Vec<RecordWithId> = Vec::new();
        let mut i: usize = 0;
        assert(image_of(all@).subrange(0, 0) =~= Seq::<(u64, RecordView)>::empty());
        while i < all.len()
            invariant
                i <= all@.len(),
                image_of(out@) == sorted_by(image_of(all@).subrange(0, i as int), order@),
            decreases all@.len() - i,
        {
            let ghost x = image_of(all@)[i as int];
            let ghost held = image_of(out@);
            proof {
                let next = image_of(all@).subrange(0, i + 1);
                assert(next.drop_last() =~= image_of(all@).subrange(0, i as int));
                assert(next.last() == x);
                assert(held.subrange(0, held.len() as int) =~= held);
            }
            let mut p: usize = out.len();
            while p > 0 && values_precede(order, &all[i].record.values, &out[p - 1].record.values)
                invariant
                    p <= out@.len(),
                    i < all@.len(),
                    held == image_of(out@),
                    x == image_of(all@)[i as int],
                    insert_position(held, x, order@) == insert_position(
                        held.subrange(0, p as int),
                        x,
                        order@,
                    ),
                decreases p,
            {
                proof {
                    let front = held.subrange(0, p as int);
                    assert(front.last() == held[p - 1]);
                    assert(front.drop_last() =~= held.subrange(0, p - 1));
                    assert(held[p - 1].1.values == value_views(
                        out@[p - 1].record.values@,
                    ));
                }
                p -= 1;
            }
            proof {
                let front = held.subrange(0, p as int);
                if p > 0 {
                    assert(front.last() == held[p - 1]);
                    assert(held[p - 1].1.values == value_views(out@[p - 1].record.values@));
                }
                assert(insert_position(held, x, order@) == p);
            }
            out.insert(p, all[i].clone());
            proof {
                assert(image_of(out@) =~= held.insert(p as int, x));
            }
            i += 1;
        }
        assert(image_of(all@).subrange(0, i as int) =~= image_of(all@));
        out
    }

    /// The records that the query asks for, in the order that it asks for,
    /// and the schema that they follow.
    pub fn query(&self, schema_name: &str, query: &QueryExpression) -> (r: Result<
        (&Schema, Vec<RecordWithId>),
        CacheError,
    >)
        requires
            self.wf(),
        ensures
            schema_name@ != self.schema_name@ ==> r == Err::<
                (&Schema, Vec<RecordWithId>),
                CacheError,
            >(CacheError::SchemaNotFound),
            schema_name@ == self.schema_name@ ==> (r matches Ok(found) && *found.0 == self.schema
                && image_of(found.1@) == query_result(
                self.image(),
                query.filter,
                query.order_by@,
                query.skip,
                query.limit,
            )),
    {
        if !str_eq(schema_name, self.schema_name.as_str()) {
            return Err(CacheError::SchemaNotFound);
        }
        let all = Self::sort_records(self.matching_records(&query.filter), &query.order_by);
        let ghost m = image_of(all@);
        let start: usize = match query.skip {
            Skip::Skip(n) => if n <= all.len() {
                n
            } else {
                all.len()
            },
            Skip::After(id) => {
                let mut p: usize = 0;
                while p < all.len() && all[p].id != id
                    invariant
                        p <= all@.len(),
                        forall|j: int| 0 <= j < p ==> (#[trigger] image_of(all@)[j]).0 != id,
                    decreases all@.len() - p,
                {
                    p += 1;
                }
                proof {
                    if p < all@.len() {
                        assert(image_of(all@)[p as int].0 == id);
                    }
                    lemma_first_with_id(m, id, p as int);
                }
                if p < all.len() {
                    p + 1
                } else {
                    all.len()
                }
            },
        };
        assert(skipped(m, query.skip) =~= m.subrange(start as int, m.len() as int));
        let rest = all.len() - start;
        let count: usize = match query.limit {
            Some(n) => if n <= rest {
                n
            } else {
                rest
            },
            None => rest,
        };
        let mut found: Vec<RecordWithId> = Vec::new();
        let mut i: usize = 0;
        while i < count
            invariant
                i <= count,
                start + count <= all@.len(),
                all@.len() <= usize::MAX,
                image_of(found@) == image_of(all@).subrange(start as int, start + i),
            decreases count - i,
        {
            let ghost before = image_of(found@);
            found.push(all[start + i].clone());
            assert(image_of(found@) =~= before.push(image_of(all@)[start + i]));
            i += 1;
            assert(image_of(found@) =~= image_of(all@).subrange(start as int, start + i));
        }
        proof {
            let s = skipped(m, query.skip);
            assert(limited(s, query.limit) =~= m.subrange(start as int, start + count));
        }
        Ok((&self.schema, found))
    }

    /// The number of records that the query asks for.
    pub fn count(&self, schema_name: &str, query: &QueryExpression) -> (r: Result<
        usize,
        CacheError,
    >)
        requires
            self.wf(),
        ensures
            schema_name@ != self.schema_name@ ==> r == Err::<usize, CacheError>(
                CacheError::SchemaNotFound,
            ),
            schema_name@ == self.schema_name@ ==> (r matches Ok(c) && c == query_result(
                self.image(),
                query.filter,
                query.order_by@,
                query.skip,
                query.limit,
            ).len()),
    {
        match self.query(schema_name, query) {
            Ok(found) => Ok(found.1.len()),
            Err(e) => Err(e),
        }
    }
}

/// Runs a query, and the same query without skip and limit, and holds the
/// first against the second: the count and the records of the first are
/// those of the second without the records that are passed over, cut to
/// the limit. Returns the query without skip and limit and its records.
pub fn validate(cache: &Cache, schema_name: &str, query: QueryExpression) -> (r: (
    QueryExpression,
    Vec<Record>,
))
    requires
        cache.wf(),
        schema_name@ == cache.schema_name@,
    ensures
        r.0.filter == query.filter,
        r.0.order_by == query.order_by,
        r.0.skip == Skip::Skip(0),
        r.0.limit.is_none(),
        r.1@.len() == matching(cache.image(), query.filter).len(),
        forall|i: int|
            0 <= i < r.1@.len() ==> (#[trigger] r.1@[i])@ == sorted_by(
                matching(cache.image(), query.filter),
                query.order_by@,
            )[i].1,
{
    let count = match cache.count(schema_name, &query) {
        Ok(c) => c,
        Err(_) => 0,
    };
    let records = match cache.query(schema_name, &query) {
        Ok(found) => found.1,
        Err(_) => Vec::new(),
    };
    let skip = query.skip;
    let limit = query.limit;
    let query = QueryExpression {
        filter: query.filter,
        order_by: query.order_by,
        skip: Skip::Skip(0),
        limit: None,
    };
    let all_count = match cache.count(schema_name, &query) {
        Ok(c) => c,
        Err(_) => 0,
    };
    let all_records = match cache.query(schema_name, &query) {
        Ok(found) => found.1,
        Err(_) => Vec::new(),
    };
    proof {
        lemma_skip_limit(cache.image(), query.filter, query.order_by@, skip, limit);
        lemma_sorted_by(matching(cache.image(), query.filter), query.order_by@);
        let all = image_of(all_records@);
        let expected = limited(skipped(all, skip), limit);
        assert(all == sorted_by(matching(cache.image(), query.filter), query.order_by@));
        assert(all_count == all.len());
        // The count of the query is that of its records, and both are what is
        // left of all the records.
        assert(count == expected.len());
        assert(image_of(records@) == expected);
        if let Skip::Skip(n) = skip {
            let left = if n <= all_count { all_count - n } else { 0 };
            assert(count == (match limit {
                Some(l) => if l <= left { l as int } else { left },
                None => left,
            }));
        }
    }
    let mut out: Vec<Record> = Vec::new();
    let mut i: usize = 0;
    while i < all_records.len()
        invariant
            i <= all_records@.len(),
            out@.len() == i,
            forall|k: int| 0 <= k < i ==> (#[trigger] out@[k])@ == image_of(all_records@)[k].1,
        decreases all_records@.len() - i,
    {
        out.push(all_records[i].record.clone());
        i += 1;
    }
    (query, out)
}

} // verus!
