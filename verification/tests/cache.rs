use dozer::cache::Cache;
use dozer::errors::{CacheError, IndexError};
use dozer::expression::{
    values_precede, FilterExpression, Operator, QueryExpression, Skip, SortDirection, SortOption,
};
use dozer::field::{Field, FieldType};
use dozer::indexer::Indexer;
use dozer::query::validate;
use dozer::set_operator::{SetInput, SetOperator, SetProcessor};
use dozer::sink::CacheSink;
use dozer::types::{
    FieldDefinition, IndexDefinition, Operation, Record, Schema, SchemaIdentifier,
    SourceDefinition,
};

fn films_schema() -> Schema {
    let mut schema = Schema::empty();
    schema.identifier = Some(SchemaIdentifier { id: 1, version: 1 });
    schema
        .field(
            FieldDefinition::new(
                "film_id".to_string(),
                FieldType::UInt,
                false,
                SourceDefinition::Dynamic,
            ),
            true,
        )
        .field(
            FieldDefinition::new(
                "description".to_string(),
                FieldType::String,
                true,
                SourceDefinition::Dynamic,
            ),
            false,
        )
        .field(
            FieldDefinition::new(
                "rental_rate".to_string(),
                FieldType::Int,
                true,
                SourceDefinition::Dynamic,
            ),
            false,
        );
    schema
}

fn film(id: u64, description: &str, rate: i64) -> Record {
    Record::new(
        Some(SchemaIdentifier { id: 1, version: 1 }),
        vec![Field::UInt(id), Field::String(description.to_string()), Field::Int(rate)],
        None,
    )
}

fn films() -> Cache {
    let indexes = vec![
        IndexDefinition::SortedInverted(vec![0]),
        IndexDefinition::SortedInverted(vec![1, 2]),
        IndexDefinition::FullText(1),
    ];
    let mut cache = Cache::create("films".to_string(), films_schema(), indexes).unwrap();
    for (id, description, rate) in [
        (1, "a drama of a dog", 3),
        (2, "a tale of a cat", 4),
        (3, "an epic drama", 5),
        (4, "a tale of a dog and a dog", 4),
        (5, "a documentary", 1),
    ] {
        cache.insert(&film(id, description, rate)).unwrap();
    }
    cache
}

fn ids(cache: &Cache, query: &QueryExpression) -> Vec<u64> {
    cache.query("films", query).unwrap().1.iter().map(|r| r.id).collect()
}

#[test]
fn query_skip_and_limit() {
    let cache = films();
    let all = QueryExpression::new(None, Skip::Skip(0), None);
    assert_eq!(ids(&cache, &all), vec![0, 1, 2, 3, 4]);
    for skip in 0..7usize {
        for limit in [None, Some(0), Some(2), Some(9)] {
            let query = QueryExpression::new(None, Skip::Skip(skip), limit);
            let expected: Vec<u64> = (0..5u64)
                .skip(skip)
                .take(limit.unwrap_or(usize::MAX))
                .collect();
            assert_eq!(ids(&cache, &query), expected);
            assert_eq!(cache.count("films", &query), Ok(expected.len()));
        }
    }
    assert_eq!(ids(&cache, &QueryExpression::new(None, Skip::After(1), Some(2))), vec![2, 3]);
    assert_eq!(ids(&cache, &QueryExpression::new(None, Skip::After(4), None)), Vec::<u64>::new());
    assert_eq!(ids(&cache, &QueryExpression::new(None, Skip::After(77), None)), Vec::<u64>::new());
    assert_eq!(cache.count("other", &all), Err(CacheError::SchemaNotFound));
}

#[test]
fn query_filters() {
    let cache = films();
    let rate = |op, v| FilterExpression::Simple(2, op, Field::Int(v));
    let find = |filter| ids(&cache, &QueryExpression::new(Some(filter), Skip::Skip(0), None));
    assert_eq!(find(rate(Operator::EQ, 4)), vec![1, 3]);
    assert_eq!(find(rate(Operator::LT, 4)), vec![0, 4]);
    assert_eq!(find(rate(Operator::LTE, 4)), vec![0, 1, 3, 4]);
    assert_eq!(find(rate(Operator::GT, 4)), vec![2]);
    assert_eq!(find(rate(Operator::GTE, 4)), vec![1, 2, 3]);
    let word = |w: &str| FilterExpression::Simple(1, Operator::Contains, Field::String(w.into()));
    assert_eq!(find(word("dog")), vec![0, 3]);
    assert_eq!(find(word("do")), Vec::<u64>::new());
    assert_eq!(
        find(FilterExpression::And(Box::new(word("tale")), Box::new(word("dog")))),
        vec![3]
    );
    assert_eq!(
        find(FilterExpression::Simple(9, Operator::EQ, Field::Int(1))),
        Vec::<u64>::new()
    );
    // An equality on an indexed field and a search for a word are answered
    // by the indexes.
    assert_eq!(find(FilterExpression::Simple(0, Operator::EQ, Field::UInt(3))), vec![2]);
    assert_eq!(find(FilterExpression::Simple(0, Operator::EQ, Field::Int(3))), Vec::<u64>::new());
    assert_eq!(
        find(FilterExpression::Simple(1, Operator::Contains, Field::Text("epic".into()))),
        vec![2]
    );
    assert_eq!(
        find(FilterExpression::Simple(1, Operator::Contains, Field::Int(1))),
        Vec::<u64>::new()
    );
}

#[test]
fn validate_returns_the_records_of_the_query_without_skip_and_limit() {
    let cache = films();
    let filter = FilterExpression::Simple(2, Operator::GTE, Field::Int(4));
    let (query, records) =
        validate(&cache, "films", QueryExpression::new(Some(filter), Skip::After(1), Some(1)));
    assert_eq!(query.skip, Skip::Skip(0));
    assert_eq!(query.limit, None);
    let found: Vec<Field> = records.iter().map(|r| r.values[0].clone()).collect();
    assert_eq!(found, vec![Field::UInt(2), Field::UInt(3), Field::UInt(4)]);
}

#[test]
fn cache_refuses_and_stays() {
    let mut cache = films();
    assert_eq!(cache.insert(&film(1, "again", 1)), Err(CacheError::PrimaryKeyExists));
    assert_eq!(
        cache.insert(&Record::new(None, vec![Field::UInt(9)], None)),
        Err(CacheError::SchemaMismatch)
    );
    let not_a_text = Record::new(None, vec![Field::UInt(9), Field::Int(1), Field::Int(1)], None);
    assert_eq!(
        cache.insert(&not_a_text),
        Err(CacheError::Index(IndexError::FieldNotCompatibleIndex(1)))
    );
    assert_eq!(cache.delete(&Field::UInt(9).encode()), Err(CacheError::PrimaryKeyNotFound));
    assert_eq!(
        cache.update(&Field::UInt(9).encode(), &film(9, "x", 1)),
        Err(CacheError::PrimaryKeyNotFound)
    );
    assert_eq!(
        cache.update(&Field::UInt(1).encode(), &film(2, "x", 1)),
        Err(CacheError::PrimaryKeyExists)
    );
    assert_eq!(cache.len(), 5);
    let entries: usize = cache.get_indexes().iter().map(|i| i.len()).sum();
    // One entry in each sorted inverted index, and one for each different word.
    assert_eq!(entries, 5 + 5 + (4 + 4 + 3 + 5 + 2));

    let mut no_indexes = Cache::create("films".to_string(), films_schema(), vec![]).unwrap();
    assert_eq!(
        no_indexes.insert(&film(1, "a", 1)),
        Err(CacheError::Index(IndexError::MissingSecondaryIndexes))
    );
    let mut no_identifier = films_schema();
    no_identifier.identifier = None;
    assert!(matches!(
        Cache::create("films".to_string(), no_identifier, vec![]),
        Err(CacheError::SchemaHasNoIdentifier)
    ));
}

#[test]
fn update_rewrites_the_indexes_and_the_version() {
    let mut cache = films();
    let key = Field::UInt(2).encode();
    assert_eq!(cache.get(&key).unwrap().record.version, Some(1));
    let id = cache.update(&key, &film(2, "a tale", 9)).unwrap();
    assert_eq!(id, 5);
    let found = cache.get(&key).unwrap();
    assert_eq!(found.id, 5);
    assert_eq!(found.record.version, Some(2));
    assert_eq!(found.record.values[2], Field::Int(9));
    let indexes = cache.get_indexes();
    assert_eq!(indexes[0].len(), 5);
    assert!(!indexes[2].iter().any(|(k, _)| k == b"cat"));
    assert!(indexes[2].iter().any(|(k, id)| k == b"tale" && *id == 5));
    // The key may change with the record.
    cache.update(&key, &film(20, "a tale", 9)).unwrap();
    assert!(cache.get(&key).is_err());
    assert_eq!(cache.get(&Field::UInt(20).encode()).unwrap().record.version, Some(3));
}

#[test]
fn sink_replaces_what_comes_twice() {
    let indexes = vec![IndexDefinition::SortedInverted(vec![0])];
    let mut sink = CacheSink::new("films".to_string(), films_schema(), indexes).unwrap();
    sink.process(&Operation::Insert { new: film(1, "one", 1) }).unwrap();
    sink.process(&Operation::Insert { new: film(2, "two", 2) }).unwrap();
    sink.process(&Operation::Insert { new: film(1, "one", 1) }).unwrap();
    assert_eq!(sink.cache().len(), 2);
    sink.process(&Operation::Update { old: film(2, "", 0), new: film(2, "zwei", 2) }).unwrap();
    sink.process(&Operation::Delete { old: film(1, "", 0) }).unwrap();
    assert_eq!(
        sink.process(&Operation::Delete { old: film(1, "", 0) }),
        Err(CacheError::PrimaryKeyNotFound)
    );
    sink.commit(&dozer::epoch::Epoch::new(1, vec![])).unwrap();
    let left = sink.cache().query("films", &QueryExpression::new(None, Skip::Skip(0), None));
    let left: Vec<Field> = left.unwrap().1.iter().map(|r| r.record.values[1].clone()).collect();
    assert_eq!(left, vec![Field::String("zwei".to_string())]);
}

fn supplier(id: i64) -> Operation {
    Operation::Insert { new: Record::new(None, vec![Field::Int(id)], None) }
}

#[test]
fn union_keeps_each_tuple_once() {
    let mut union = SetProcessor::new(SetOperator::Union);
    let mut out = Vec::new();
    for id in [1000, 2000, 3000, 4000] {
        out.extend(union.process(SetInput::Left, supplier(id)).unwrap());
    }
    for id in [2000, 6000, 7000, 8000] {
        out.extend(union.process(SetInput::Right, supplier(id)).unwrap());
    }
    assert_eq!(out.len(), 7);
    assert!(out.iter().all(|op| matches!(op, Operation::Insert { .. })));
    // A tuple leaves the union when the last input lets go of it.
    let gone = |id| Operation::Delete { old: Record::new(None, vec![Field::Int(id)], None) };
    assert_eq!(union.process(SetInput::Left, gone(2000)).unwrap(), vec![]);
    assert_eq!(union.process(SetInput::Right, gone(2000)).unwrap(), vec![gone(2000)]);
}

#[test]
fn union_all_intersect_and_except() {
    let mut all = SetProcessor::new(SetOperator::UnionAll);
    assert_eq!(all.process(SetInput::Left, supplier(1)).unwrap().len(), 1);
    assert_eq!(all.process(SetInput::Right, supplier(1)).unwrap().len(), 1);

    let mut both = SetProcessor::new(SetOperator::Intersect);
    assert_eq!(both.process(SetInput::Left, supplier(1)).unwrap(), vec![]);
    assert_eq!(both.process(SetInput::Right, supplier(1)).unwrap(), vec![supplier(1)]);
    assert_eq!(both.process(SetInput::Right, supplier(1)).unwrap(), vec![]);

    let gone = Operation::Delete { old: Record::new(None, vec![Field::Int(1)], None) };
    let mut except = SetProcessor::new(SetOperator::Except);
    assert_eq!(except.process(SetInput::Left, supplier(1)).unwrap(), vec![supplier(1)]);
    assert_eq!(except.process(SetInput::Right, supplier(1)).unwrap(), vec![gone]);
    assert!(SetProcessor::is_present(SetOperator::Except, 2, 1));
    assert!(!SetProcessor::is_present(SetOperator::Intersect, 2, 0));
}

#[test]
fn schema_fields_by_name() {
    let mut schema = films_schema();
    let (position, field) = schema.get_field_index("description").unwrap();
    assert_eq!(position, 1);
    assert_eq!(field.typ, FieldType::String);
    assert!(schema.get_field_index("nothing").is_err());
    schema.set_identifier(None).unwrap();
    assert_eq!(schema.identifier, None);
    assert_eq!(schema.primary_index, vec![0]);
    let mut record = Record::from_schema(&schema);
    assert_eq!(record.values, vec![Field::Null, Field::Null, Field::Null]);
    record.set_value(1, Field::Int(3));
    record.push_value(Field::Boolean(true));
    assert_eq!(record.get_value(1), Ok(&Field::Int(3)));
    assert!(record.get_value(4).is_err());
    assert_eq!(record.iter().len(), 4);
    assert_eq!(Record::nulls(None, 2, Some(3)).values.len(), 2);
    assert_eq!(record.get_values_hash(), record.clone().get_values_hash());
    assert_ne!(record.get_values_hash(), Record::nulls(None, 4, None).get_values_hash());
}

#[test]
fn schema_without_primary_key_takes_inserts_only() {
    let mut schema = films_schema();
    schema.primary_index = vec![];
    let indexes = vec![IndexDefinition::SortedInverted(vec![0])];
    let mut sink = CacheSink::new("films".to_string(), schema, indexes).unwrap();
    sink.process(&Operation::Insert { new: film(1, "one", 1) }).unwrap();
    sink.process(&Operation::Insert { new: film(1, "one", 1) }).unwrap();
    assert_eq!(sink.cache().len(), 2);
    assert_eq!(
        sink.process(&Operation::Delete { old: film(1, "one", 1) }),
        Err(CacheError::PrimaryKeyNotFound)
    );
    assert_eq!(
        sink.process(&Operation::Update { old: film(1, "one", 1), new: film(1, "uno", 1) }),
        Err(CacheError::PrimaryKeyNotFound)
    );
    assert_eq!(sink.cache().len(), 2);
}

#[test]
fn cache_is_full_when_the_ids_are_used_up() {
    let mut cache = films();
    cache.next_id = u64::MAX;
    assert_eq!(cache.insert(&film(9, "nine", 9)), Err(CacheError::StoreFull));
    assert_eq!(
        cache.update(&Field::UInt(1).encode(), &film(1, "one", 1)),
        Err(CacheError::StoreFull)
    );
    assert_eq!(cache.len(), 5);
}

#[test]
fn index_errors() {
    use_indexer_errors();
}

fn use_indexer_errors() {
    let schema = films_schema();
    let record = film(1, "one", 1);
    let mut none = Indexer::new(0);
    assert_eq!(
        none.build_indexes(&record, &schema, &[IndexDefinition::SortedInverted(vec![0])], 1),
        Err(CacheError::SecondaryIndexDatabaseNotFound)
    );
    assert_eq!(
        none.build_indexes(&record, &schema, &[], 1),
        Err(CacheError::Index(IndexError::MissingSecondaryIndexes))
    );
    assert_eq!(none.delete_indexes(&record, &schema, &[], 1), Ok(()));
    let mut no_identifier = films_schema();
    no_identifier.identifier = None;
    assert_eq!(
        none.delete_indexes(&record, &no_identifier, &[], 1),
        Err(CacheError::SchemaHasNoIdentifier)
    );
    assert_eq!(
        Indexer::_build_indices_full_text(7, &record.values),
        Err(CacheError::Index(IndexError::FieldIndexOutOfRange))
    );
    assert_eq!(
        Indexer::_build_indices_full_text(0, &record.values),
        Err(CacheError::Index(IndexError::FieldNotCompatibleIndex(0)))
    );
    assert_eq!(Indexer::_build_indices_full_text(0, &[Field::Null]), Ok(vec![]));
    let mut one = Indexer::new(1);
    let full_text = [IndexDefinition::FullText(1)];
    one.build_indexes(&film(1, "to be or not to be", 1), &schema, &full_text, 4).unwrap();
    assert_eq!(one.secondary_indexes[0].count(), 4);
    assert!(one.secondary_indexes[0].contains(b"be", 4));
    one.delete_indexes(&film(1, "to be or not to be", 1), &schema, &full_text, 4).unwrap();
    assert_eq!(one.secondary_indexes[0].count(), 0);
}

#[test]
fn query_orders_the_records() {
    let cache = films();
    let by = |field, direction| SortOption { field, direction };
    let ordered = |order: Vec<SortOption>, skip, limit| {
        ids(&cache, &QueryExpression::new(None, skip, limit).ordered_by(order))
    };
    // By rate; films of one rate keep the order of their ids.
    assert_eq!(
        ordered(vec![by(2, SortDirection::Ascending)], Skip::Skip(0), None),
        vec![4, 0, 1, 3, 2]
    );
    assert_eq!(
        ordered(vec![by(2, SortDirection::Descending)], Skip::Skip(0), None),
        vec![2, 1, 3, 0, 4]
    );
    // By rate, and by id from the greatest among films of one rate.
    assert_eq!(
        ordered(
            vec![by(2, SortDirection::Ascending), by(0, SortDirection::Descending)],
            Skip::Skip(0),
            None
        ),
        vec![4, 0, 3, 1, 2]
    );
    // Skip and limit count in the order of the query.
    assert_eq!(ordered(vec![by(2, SortDirection::Descending)], Skip::Skip(1), Some(2)), vec![1, 3]);
    assert_eq!(ordered(vec![by(2, SortDirection::Descending)], Skip::After(3), None), vec![0, 4]);
    // A field that no record has tells no records apart.
    assert_eq!(
        ordered(vec![by(9, SortDirection::Descending)], Skip::Skip(0), None),
        vec![0, 1, 2, 3, 4]
    );
    let filter = FilterExpression::Simple(1, Operator::Contains, Field::String("a".into()));
    let query = QueryExpression::new(Some(filter), Skip::Skip(1), Some(2))
        .ordered_by(vec![by(1, SortDirection::Descending)]);
    assert_eq!(ids(&cache, &query), vec![1, 0]);
    let (all, records) = validate(&cache, "films", query);
    assert_eq!(all.order_by, vec![by(1, SortDirection::Descending)]);
    let found: Vec<Field> = records.iter().map(|r| r.values[0].clone()).collect();
    assert_eq!(found, vec![Field::UInt(4), Field::UInt(2), Field::UInt(1), Field::UInt(5)]);

    let order = vec![by(0, SortDirection::Ascending)];
    assert!(values_precede(&order, &vec![Field::Int(1)], &vec![Field::Int(2)]));
    assert!(!values_precede(&order, &vec![Field::Int(2)], &vec![Field::Int(2)]));
    assert!(values_precede(&order, &vec![], &vec![Field::Int(2)]));
    assert!(!values_precede(&vec![], &vec![Field::Int(1)], &vec![Field::Int(2)]));
}

#[test]
fn hash_depends_on_the_values_alone() {
    let supplier = Record::new(
        Some(SchemaIdentifier { id: 1, version: 1 }),
        vec![Field::Int(2000)],
        Some(4),
    );
    let order = Record::new(None, vec![Field::Int(2000)], None);
    assert_eq!(supplier.get_values_hash(), order.get_values_hash());
    assert_eq!(supplier.get_values_hash(), supplier.get_values_hash());
    let other = Record::new(None, vec![Field::Int(6000)], None);
    assert_ne!(supplier.get_values_hash(), other.get_values_hash());
    let unsigned = Record::new(None, vec![Field::UInt(2000)], None);
    assert_ne!(supplier.get_values_hash(), unsigned.get_values_hash());
}
