//! The keys under which a record stands in its secondary indexes.

use vstd::prelude::*;
use crate::bigendian::{be, encode_be};
use crate::bytes::bytes_to_vec;
use crate::errors::IndexError;
use crate::field::{field_encoding, text_bytes, Field, FieldValue};
use crate::types::IndexDefinition;

verus! {

/// The words of a text, split at the word boundaries of Unicode.
pub uninterp spec fn words_of(text: Seq<char>) -> Seq<Seq<char>>;

/// What each text of a sequence holds.
pub open spec fn text_views(s: Seq<String>) -> Seq<Seq<char>> {
    s.map_values(|w: String| w@)
}

/// What each byte string of a sequence holds.
pub open spec fn key_views(s: Seq<Vec<u8>>) -> Seq<Seq<u8>> {
    s.map_values(|k: Vec<u8>| k@)
}

/// What each field of a sequence holds.
pub open spec fn field_views(s: Seq<&Field>) -> Seq<FieldValue> {
    s.map_values(|f: &Field| f@)
}

/// The sequence without the items that occurred before in it.
pub open spec fn first_occurrences(s: Seq<Seq<u8>>) -> Seq<Seq<u8>>
    decreases s.len(),
{
    if s.len() == 0 {
        Seq::<Seq<u8>>::empty()
    } else if s.drop_last().contains(s.last()) {
        first_occurrences(s.drop_last())
    } else {
        first_occurrences(s.drop_last()).push(s.last())
    }
}

/// Splits a text with `unicode_segmentation::UnicodeSegmentation::unicode_words`
/// and copies each word. The words depend on the text alone.
#[verifier::external_body]
pub(crate) fn split_words(text: &str) -> (r: Vec<String>)
    ensures
        text_views(r@) == words_of(text@),
{
    unicode_segmentation::UnicodeSegmentation::unicode_words(text).map(|w| w.to_string()).collect()
}

/// Passes the keys through `itertools::Itertools::unique`, which keeps the
/// first of equal items and the order of those that it keeps.
#[verifier::external_body]
fn unique(keys: Vec<Vec<u8>>) -> (r: Vec<Vec<u8>>)
    ensures
        key_views(r@) == first_occurrences(key_views(keys@)),
{
    itertools::Itertools::unique(keys.into_iter()).collect()
}

/// The values at the positions `fields` that the record has.
pub open spec fn picked(fields: Seq<usize>, values: Seq<FieldValue>) -> Seq<FieldValue>
    decreases fields.len(),
{
    if fields.len() == 0 {
        Seq::<FieldValue>::empty()
    } else if fields.last() < values.len() {
        picked(fields.drop_last(), values).push(values[fields.last() as int])
    } else {
        picked(fields.drop_last(), values)
    }
}

/// The key of several values: for each its length, on eight bytes and
/// counted with those eight, and then its encoding.
pub open spec fn composite_key(values: Seq<FieldValue>) -> Seq<u8>
    decreases values.len(),
{
    if values.len() == 0 {
        Seq::<u8>::empty()
    } else {
        composite_key(values.drop_last()) + be(
            8 + field_encoding(values.last()).len(),
            8,
        ) + field_encoding(values.last())
    }
}

/// The key of the values of an index: the bare encoding for an index over
/// one field, the composite key else.
pub open spec fn secondary_key(values: Seq<FieldValue>, is_single_field_index: bool) -> Seq<u8> {
    if is_single_field_index {
        field_encoding(values[0])
    } else {
        composite_key(values)
    }
}

/// The key of a record in the sorted inverted index over `fields`.
pub open spec fn sorted_inverted_key(fields: Seq<usize>, values: Seq<FieldValue>) -> Seq<u8> {
    let chosen = picked(fields, values);
    secondary_key(chosen, chosen.len() == 1)
}

/// The key of a word in a full-text index.
pub open spec fn full_text_key(word: Seq<char>) -> Seq<u8> {
    text_bytes(word)
}

/// The keys of the words, each once, in the order in which the words first
/// occur.
pub open spec fn keys_of_words(words: Seq<Seq<char>>) -> Seq<Seq<u8>> {
    first_occurrences(words.map_values(|w: Seq<char>| full_text_key(w)))
}

/// The keys of a text in a full-text index.
pub open spec fn full_text_keys(text: Seq<char>) -> Seq<Seq<u8>> {
    keys_of_words(words_of(text))
}

/// The keys of a record in a full-text index over the field at `field_index`.
pub open spec fn full_text_index_keys(field_index: usize, values: Seq<FieldValue>) -> Result<
    Seq<Seq<u8>>,
    IndexError,
> {
    if field_index >= values.len() {
        Err(IndexError::FieldIndexOutOfRange)
    } else {
        match values[field_index as int] {
            FieldValue::String(s) => Ok(full_text_keys(s)),
            FieldValue::Text(s) => Ok(full_text_keys(s)),
            FieldValue::Null => Ok(Seq::<Seq<u8>>::empty()),
            _ => Err(IndexError::FieldNotCompatibleIndex(field_index)),
        }
    }
}

/// The keys under which a record with the values `values` stands in the
/// index `index`.
pub open spec fn index_keys(index: IndexDefinition, values: Seq<FieldValue>) -> Result<
    Seq<Seq<u8>>,
    IndexError,
> {
    match index {
        IndexDefinition::SortedInverted(fields) => Ok(seq![sorted_inverted_key(fields@, values)]),
        IndexDefinition::FullText(field_index) => full_text_index_keys(field_index, values),
    }
}

/// What is kept of a sequence holds each of its items, and none twice.
pub proof fn lemma_first_occurrences(s: Seq<Seq<u8>>)
    ensures
        first_occurrences(s).no_duplicates(),
        forall|k: Seq<u8>| #[trigger] s.contains(k) ==> first_occurrences(s).contains(k),
        forall|k: Seq<u8>| #[trigger] first_occurrences(s).contains(k) ==> s.contains(k),
    decreases s.len(),
{
    if s.len() > 0 {
        let dl = s.drop_last();
        let last = s.last();
        lemma_first_occurrences(dl);
        let kept = first_occurrences(dl);
        let out = first_occurrences(s);
        assert forall|k: Seq<u8>| s.contains(k) <==> #[trigger] out.contains(k) by {
            if s.contains(k) {
                let i = choose|i: int| 0 <= i < s.len() && s[i] == k;
                if i < dl.len() {
                    assert(dl[i] == k);
                    assert(dl.contains(k));
                    let j = choose|j: int| 0 <= j < kept.len() && kept[j] == k;
                    assert(out[j] == k);
                } else if dl.contains(last) {
                    let j = choose|j: int| 0 <= j < kept.len() && kept[j] == k;
                    assert(out[j] == k);
                } else {
                    assert(out[kept.len() as int] == k);
                }
            }
            if out.contains(k) {
                let j = choose|j: int| 0 <= j < out.len() && out[j] == k;
                if j < kept.len() {
                    assert(kept[j] == k);
                    assert(kept.contains(k));
                    let i = choose|i: int| 0 <= i < dl.len() && dl[i] == k;
                    assert(s[i] == k);
                } else {
                    assert(s[s.len() - 1] == k);
                }
            }
        }
        if !dl.contains(last) {
            crate::storage::lemma_push_to_set(kept, last);
        }
    }
}

/// A word that occurs several times in a text has one key among the keys of
/// the text, and every word has its key there.
pub proof fn lemma_full_text_keys_once(text: Seq<char>)
    ensures
        full_text_keys(text).no_duplicates(),
        forall|i: int|
            0 <= i < words_of(text).len() ==> full_text_keys(text).contains(
                full_text_key(#[trigger] words_of(text)[i]),
            ),
{
    let keys = words_of(text).map_values(|w: Seq<char>| full_text_key(w));
    lemma_first_occurrences(keys);
    assert forall|i: int| 0 <= i < words_of(text).len() implies full_text_keys(text).contains(
        full_text_key(#[trigger] words_of(text)[i]),
    ) by {
        assert(keys[i] == full_text_key(words_of(text)[i]));
        assert(keys.contains(keys[i]));
    }
}

/// The key of a word in a full-text index: its bytes.
pub fn get_full_text_secondary_index(token: &str) -> (r: Vec<u8>)
    ensures
        r@ == full_text_key(token@),
{
    bytes_to_vec(token.as_bytes())
}

/// The key of several values in a sorted inverted index over several fields.
pub fn get_composite_secondary_index(fields: &[&Field]) -> (r: Vec<u8>)
    ensures
        r@ == composite_key(field_views(fields@)),
{
    let mut buf: Vec<u8> = Vec::new();
    let mut i: usize = 0;
    while i < fields.len()
        invariant
            i <= fields@.len(),
            buf@ == composite_key(field_views(fields@).subrange(0, i as int)),
        decreases fields@.len() - i,
    {
        let mut encoding = fields[i].encode();
        let mut prefix = encode_be(encoding.len() as u128 + 8, 8);
        proof {
            let next = field_views(fields@).subrange(0, i + 1);
            assert(next.drop_last() =~= field_views(fields@).subrange(0, i as int));
            assert(next.last() == fields@[i as int]@);
        }
        buf.append(&mut prefix);
        buf.append(&mut encoding);
        i += 1;
    }
    assert(field_views(fields@).subrange(0, i as int) =~= field_views(fields@));
    buf
}

/// The key of the values of an index: the bare encoding of the one value of
/// an index over one field, the composite key else.
pub fn get_secondary_index(fields: &[&Field], is_single_field_index: bool) -> (r: Vec<u8>)
    requires
        is_single_field_index ==> fields@.len() == 1,
    ensures
        r@ == secondary_key(field_views(fields@), is_single_field_index),
{
    if is_single_field_index {
        fields[0].encode()
    } else {
        get_composite_secondary_index(fields)
    }
}

/// The keys of the given words, each once.
pub fn full_text_keys_of(words: &Vec<String>) -> (r: Vec<Vec<u8>>)
    ensures
        key_views(r@) == keys_of_words(text_views(words@)),
{
    let mut keys: Vec<Vec<u8>> = Vec::new();
    let mut i: usize = 0;
    while i < words.len()
        invariant
            i <= words@.len(),
            keys@.len() == i,
            forall|j: int| 0 <= j < i ==> keys@[j]@ == full_text_key(words@[j]@),
        decreases words@.len() - i,
    {
        keys.push(get_full_text_secondary_index(words[i].as_str()));
        i += 1;
    }
    assert(key_views(keys@) =~= text_views(words@).map_values(|w: Seq<char>| full_text_key(w)));
    unique(keys)
}

} // verus!
