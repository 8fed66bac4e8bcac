use dozer::cache::Cache;
use dozer::field::{Field, FieldType};
use dozer::index::get_full_text_secondary_index;
use dozer::indexer::Indexer;
use dozer::types::{
    FieldDefinition, IndexDefinition, Record, Schema, SchemaIdentifier, SourceDefinition,
};

fn schema_1() -> (Schema, Vec<IndexDefinition>) {
    let mut schema = Schema::empty();
    schema.identifier = Some(SchemaIdentifier { id: 1, version: 1 });
    schema
        .field(
            FieldDefinition::new("a".to_string(), FieldType::Int, true, SourceDefinition::Dynamic),
            true,
        )
        .field(
            FieldDefinition::new(
                "b".to_string(),
                FieldType::String,
                true,
                SourceDefinition::Dynamic,
            ),
            false,
        )
        .field(
            FieldDefinition::new("c".to_string(), FieldType::Int, true, SourceDefinition::Dynamic),
            false,
        );
    let indexes = vec![
        IndexDefinition::SortedInverted(vec![0]),
        IndexDefinition::SortedInverted(vec![2]),
        // composite index
        IndexDefinition::SortedInverted(vec![1, 2]),
    ];
    (schema, indexes)
}

fn schema_full_text() -> (Schema, Vec<IndexDefinition>) {
    let mut schema = Schema::empty();
    schema.identifier = Some(SchemaIdentifier { id: 2, version: 1 });
    schema
        .field(
            FieldDefinition::new(
                "foo".to_string(),
                FieldType::String,
                false,
                SourceDefinition::Dynamic,
            ),
            true,
        )
        .field(
            FieldDefinition::new(
                "bar".to_string(),
                FieldType::String,
                false,
                SourceDefinition::Dynamic,
            ),
            false,
        );
    let indexes = vec![IndexDefinition::FullText(0), IndexDefinition::FullText(1)];
    (schema, indexes)
}

fn insert_rec_1(cache: &mut Cache, schema: &Schema, (a, b, c): (i64, Option<String>, Option<i64>)) {
    let record = Record::new(
        schema.identifier,
        vec![
            Field::Int(a),
            b.map_or(Field::Null, Field::String),
            c.map_or(Field::Null, Field::Int),
        ],
        None,
    );
    cache.insert(&record).unwrap();
}

fn insert_full_text(cache: &mut Cache, schema: &Schema, (a, b): (Option<String>, Option<String>)) {
    let record = Record::new(
        schema.identifier,
        vec![
            a.map_or(Field::Null, Field::String),
            b.map_or(Field::Null, Field::String),
        ],
        None,
    );
    cache.insert(&record).unwrap();
}

fn schema_copy(schema: &Schema) -> Schema {
    Schema {
        identifier: schema.identifier,
        fields: schema.fields.clone(),
        primary_index: schema.primary_index.clone(),
    }
}

#[test]
fn test_secondary_indexes() {
    let schema_name = "sample";
    let (schema, secondary_indexes) = schema_1();
    let expected_count = secondary_indexes.len();
    let mut cache =
        Cache::create(schema_name.to_string(), schema_copy(&schema), secondary_indexes).unwrap();

    let items = vec![
        (1, Some("a".to_string()), Some(521)),
        (2, Some("a".to_string()), None),
        (3, None, Some(521)),
        (4, None, None),
    ];

    for val in items.clone() {
        insert_rec_1(&mut cache, &schema, val);
    }
    // No of index dbs
    let indexes = cache.get_indexes();

    let index_count = indexes.iter().flatten().count();
    // 3 columns, 1 compound, 1 descending
    assert_eq!(indexes.len(), expected_count, "Must create db for each index");

    assert_eq!(index_count, items.len() * expected_count, "Must index each field");

    for a in [1i64, 2, 3, 4] {
        cache.delete(&Field::Int(a).encode()).unwrap();
    }

    assert_eq!(
        cache.get_indexes().into_iter().flatten().count(),
        0,
        "Must delete every index"
    );
}

#[test]
fn test_build_indices_full_text() {
    let field_index = 0;
    assert_eq!(
        Indexer::_build_indices_full_text(
            field_index,
            &[Field::String("today is a good day".into())]
        )
        .unwrap(),
        vec![
            get_full_text_secondary_index("today"),
            get_full_text_secondary_index("is"),
            get_full_text_secondary_index("a"),
            get_full_text_secondary_index("good"),
            get_full_text_secondary_index("day"),
        ]
    );
}

#[test]
fn test_full_text_secondary_index_with_duplicated_words() {
    let schema_name = "sample";
    let (schema, secondary_indexes) = schema_full_text();
    let mut cache =
        Cache::create(schema_name.to_string(), schema_copy(&schema), secondary_indexes).unwrap();

    let items = vec![(
        Some("another test".to_string()),
        Some("regular test regular".to_string()),
    )];

    for val in items {
        insert_full_text(&mut cache, &schema, val);
    }

    {
        let a = "another test".to_string();
        cache.delete(&Field::String(a).encode()).unwrap();
    }

    assert_eq!(
        cache.get_indexes().into_iter().flatten().count(),
        0,
        "Must delete every index"
    );
}

#[test]
fn full_text_words_are_indexed_once() {
    let keys = Indexer::_build_indices_full_text(
        0,
        &[Field::String("regular test regular".to_string())],
    )
    .unwrap();
    assert_eq!(keys, vec![b"regular".to_vec(), b"test".to_vec()]);
}
