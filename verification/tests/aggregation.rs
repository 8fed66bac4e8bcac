use dozer::aggregator::{update_aggregator_db, AggregationResult};
use dozer::errors::{PipelineError, TypeError};
use dozer::field::{Field, FieldType};
use dozer::max::MaxAggregator;
use dozer::processor::{AggregationProcessor, AggregatorKind, CountAggregator};
use dozer::storage::Database;
use dozer::sum::SumAggregator;
use dozer::types::{Operation, Record};

fn row(values: Vec<Field>) -> Record {
    Record::new(None, values, None)
}

fn insert_field(country: &str, salary: i64) -> Operation {
    Operation::Insert {
        new: row(vec![
            Field::Int(0),
            Field::String(country.to_string()),
            Field::Int(salary),
            Field::Int(salary),
        ]),
    }
}

fn delete_field(country: &str, salary: i64) -> Operation {
    Operation::Delete {
        old: row(vec![
            Field::Int(0),
            Field::String(country.to_string()),
            Field::Int(salary),
            Field::Int(salary),
        ]),
    }
}

fn insert_exp(country: &str, value: i64) -> Operation {
    Operation::Insert { new: row(vec![Field::String(country.to_string()), Field::Int(value)]) }
}

fn delete_exp(country: &str, value: i64) -> Operation {
    Operation::Delete { old: row(vec![Field::String(country.to_string()), Field::Int(value)]) }
}

fn update_exp(country: &str, old: i64, new: i64) -> Operation {
    Operation::Update {
        old: row(vec![Field::String(country.to_string()), Field::Int(old)]),
        new: row(vec![Field::String(country.to_string()), Field::Int(new)]),
    }
}

const ITALY: &str = "Italy";

#[test]
fn test_sum_aggregation_del_and_insert() {
    let mut processor =
        AggregationProcessor::new(AggregatorKind::Count, vec![1], 3, FieldType::Int);

    // Insert 100 for segment Italy
    let inp = insert_field(ITALY, 100);
    let out = processor.process(inp).unwrap();
    assert_eq!(out, vec![insert_exp(ITALY, 1)]);

    // Delete last record
    let inp = delete_field(ITALY, 100);
    let out = processor.process(inp).unwrap();
    assert_eq!(out, vec![delete_exp(ITALY, 1)]);

    // Insert 100 for segment Italy
    let inp = insert_field(ITALY, 100);
    let out = processor.process(inp).unwrap();
    assert_eq!(out, vec![insert_exp(ITALY, 1)]);
}

#[test]
fn max_over_integers_with_retraction() {
    let mut processor = AggregationProcessor::new(AggregatorKind::Max, vec![1], 3, FieldType::Int);

    assert_eq!(processor.process(insert_field(ITALY, 10)).unwrap(), vec![insert_exp(ITALY, 10)]);
    assert_eq!(
        processor.process(insert_field(ITALY, 20)).unwrap(),
        vec![update_exp(ITALY, 10, 20)]
    );
    assert_eq!(processor.process(insert_field(ITALY, 5)).unwrap(), vec![]);

    assert_eq!(
        processor.process(delete_field(ITALY, 20)).unwrap(),
        vec![update_exp(ITALY, 20, 10)]
    );
    assert_eq!(
        processor.process(delete_field(ITALY, 10)).unwrap(),
        vec![update_exp(ITALY, 10, 5)]
    );
    assert_eq!(processor.process(delete_field(ITALY, 5)).unwrap(), vec![delete_exp(ITALY, 5)]);
    assert!(processor.groups.is_empty());
}

#[test]
fn max_of_negative_and_positive_numbers() {
    let mut db: Database<u64> = Database::new();
    let r = MaxAggregator::insert(None, &Field::Int(-7), FieldType::Int, &mut db).unwrap();
    assert_eq!(r.value, Field::Int(-7));
    let r = MaxAggregator::insert(None, &Field::Int(3), FieldType::Int, &mut db).unwrap();
    assert_eq!(r.value, Field::Int(3));
    let r = MaxAggregator::insert(None, &Field::Int(-1), FieldType::Int, &mut db).unwrap();
    assert_eq!(r.value, Field::Int(3));
    let r = MaxAggregator::delete(None, &Field::Int(3), FieldType::Int, &mut db).unwrap();
    assert_eq!(r.value, Field::Int(-1));
    assert_eq!(r.state, Some(Field::Int(-1).encode_data()));
}

#[test]
fn max_round_trip_ends_with_null() {
    let mut db: Database<u64> = Database::new();
    for v in [4u64, 9, 4, 1] {
        MaxAggregator::insert(None, &Field::UInt(v), FieldType::UInt, &mut db).unwrap();
    }
    let mut last = AggregationResult::new(Field::UInt(0), None);
    for v in [9u64, 1, 4, 4] {
        last = MaxAggregator::delete(None, &Field::UInt(v), FieldType::UInt, &mut db).unwrap();
    }
    assert_eq!(last.value, Field::Null);
    assert_eq!(last.state, None);
    assert_eq!(db.len(), 0);
}

#[test]
fn max_counts_equal_values() {
    let mut db: Database<u64> = Database::new();
    MaxAggregator::insert(None, &Field::UInt(9), FieldType::UInt, &mut db).unwrap();
    MaxAggregator::insert(None, &Field::UInt(9), FieldType::UInt, &mut db).unwrap();
    MaxAggregator::insert(None, &Field::UInt(2), FieldType::UInt, &mut db).unwrap();
    let r = MaxAggregator::delete(None, &Field::UInt(9), FieldType::UInt, &mut db).unwrap();
    assert_eq!(r.value, Field::UInt(9));
    let r = MaxAggregator::delete(None, &Field::UInt(9), FieldType::UInt, &mut db).unwrap();
    assert_eq!(r.value, Field::UInt(2));
}

#[test]
fn max_update_moves_one_count() {
    let mut db: Database<u64> = Database::new();
    MaxAggregator::insert(None, &Field::Decimal(150), FieldType::Decimal, &mut db).unwrap();
    let r = MaxAggregator::update(
        None,
        &Field::Decimal(150),
        &Field::Decimal(-20),
        FieldType::Decimal,
        &mut db,
    )
    .unwrap();
    assert_eq!(r.value, Field::Decimal(-20));
    assert_eq!(db.len(), 1);
}

#[test]
fn max_refuses_other_types() {
    let mut db: Database<u64> = Database::new();
    assert_eq!(
        MaxAggregator::insert(None, &Field::Int(1), FieldType::String, &mut db),
        Err(PipelineError::InvalidOperandType("MAX".to_string()))
    );
    assert_eq!(
        MaxAggregator::insert(None, &Field::UInt(1), FieldType::Int, &mut db),
        Err(PipelineError::InvalidOperandType("MAX".to_string()))
    );
    assert_eq!(db.len(), 0);
}

#[test]
fn max_of_dates_and_timestamps() {
    let mut db: Database<u64> = Database::new();
    MaxAggregator::insert(None, &Field::Date(738000), FieldType::Date, &mut db).unwrap();
    let r = MaxAggregator::insert(None, &Field::Date(-5), FieldType::Date, &mut db).unwrap();
    assert_eq!(r.value, Field::Date(738000));

    let mut db: Database<u64> = Database::new();
    let r = MaxAggregator::insert(
        None,
        &Field::Timestamp(1_431_648_000_000),
        FieldType::Timestamp,
        &mut db,
    )
    .unwrap();
    assert_eq!(r.value, Field::Timestamp(1_431_648_000_000));
}

#[test]
fn timestamp_out_of_range_is_invalid() {
    let bytes = Field::Timestamp(i64::MAX).encode_data();
    assert_eq!(
        MaxAggregator::get_value(&bytes, FieldType::Timestamp),
        Err(PipelineError::InternalTypeError(TypeError::InvalidTimestamp))
    );
    let bytes = Field::Timestamp(0).encode_data();
    assert_eq!(MaxAggregator::get_value(&bytes, FieldType::Timestamp), Ok(Field::Timestamp(0)));
}

#[test]
fn get_value_reads_what_was_encoded() {
    for f in [Field::Int(i64::MIN), Field::Int(-1), Field::Int(0), Field::Int(i64::MAX)] {
        assert_eq!(MaxAggregator::get_value(&f.encode_data(), FieldType::Int), Ok(f));
    }
    for f in [Field::Decimal(i128::MIN), Field::Decimal(12345), Field::Decimal(i128::MAX)] {
        assert_eq!(MaxAggregator::get_value(&f.encode_data(), FieldType::Decimal), Ok(f));
    }
    assert_eq!(
        MaxAggregator::get_value(&[1, 2, 3], FieldType::Int),
        Err(PipelineError::InternalTypeError(TypeError::DeserializationError))
    );
    assert_eq!(MaxAggregator::get_value(&[1, 2, 3], FieldType::String), Ok(Field::Null));
}

#[test]
fn counts_saturate_and_overflow() {
    let mut db: Database<u64> = Database::new();
    update_aggregator_db(b"k", u64::MAX, false, &mut db).unwrap();
    assert_eq!(
        update_aggregator_db(b"k", 1, false, &mut db),
        Err(PipelineError::NumericOverflow)
    );
    update_aggregator_db(b"k", 5, true, &mut db).unwrap();
    assert_eq!(db.get(b"k"), Some(&(u64::MAX - 5)));
    update_aggregator_db(b"absent", 1, true, &mut db).unwrap();
    assert_eq!(db.len(), 1);
}

#[test]
fn count_aggregator_reads_its_state() {
    let one = CountAggregator::insert(None).unwrap();
    assert_eq!(one.value, Field::Int(1));
    let two = CountAggregator::insert(one.state.as_deref()).unwrap();
    assert_eq!(two.value, Field::Int(2));
    let back = CountAggregator::delete(two.state.as_deref()).unwrap();
    assert_eq!(back.value, Field::Int(1));
    assert_eq!(back.state, Some(vec![0, 0, 0, 0, 0, 0, 0, 1]));
}

fn film_rows() -> Vec<(i64, &'static str)> {
    vec![(1, "film"), (2, "film"), (1, "actor"), (3, "film"), (1, "film"), (2, "actor")]
}

fn expected_counts(ids: &[i64]) -> Vec<(i64, i64)> {
    let mut counts: Vec<(i64, i64)> = Vec::new();
    for id in ids {
        match counts.iter_mut().find(|c| c.0 == *id) {
            Some(c) => c.1 += 1,
            None => counts.push((*id, 1)),
        }
    }
    counts
}

fn apply(view: &mut Vec<Record>, op: Operation) {
    match op {
        Operation::Insert { new } => view.push(new),
        Operation::Delete { old } => {
            let p = view.iter().position(|r| *r == old).unwrap();
            view.remove(p);
        }
        Operation::Update { old, new } => {
            let p = view.iter().position(|r| *r == old).unwrap();
            view[p] = new;
        }
    }
}

fn count_by_first_column(table: &str) -> (Vec<Record>, Vec<(i64, i64)>) {
    let mut processor =
        AggregationProcessor::new(AggregatorKind::Count, vec![0], 0, FieldType::Int);
    let mut view: Vec<Record> = Vec::new();
    let mut ids = Vec::new();
    for (id, source) in film_rows() {
        if source != table {
            continue;
        }
        ids.push(id);
        let op = Operation::Insert {
            new: row(vec![Field::Int(id), Field::String(source.to_string())]),
        };
        for out in processor.process(op).unwrap() {
            apply(&mut view, out);
        }
    }
    (view, expected_counts(&ids))
}

#[test]
fn agg_query() {
    for table in ["film", "actor"] {
        let (view, expected) = count_by_first_column(table);
        let rows: Vec<(i64, i64)> = view
            .iter()
            .map(|r| match (&r.values[0], &r.values[1]) {
                (Field::Int(a), Field::Int(b)) => (*a, *b),
                _ => panic!("a row of two numbers is expected"),
            })
            .collect();
        assert_eq!(rows, expected);
    }
}

#[test]
fn agg_updates_query() {
    let mut processor =
        AggregationProcessor::new(AggregatorKind::Count, vec![0], 0, FieldType::Int);
    let mut view: Vec<Record> = Vec::new();
    let actor = |id: i64, name: &str| row(vec![Field::Int(id), Field::String(name.to_string())]);
    let ops = vec![
        Operation::Insert { new: actor(1, "actor") },
        Operation::Insert { new: actor(2, "actor") },
        Operation::Insert { new: actor(1, "actor") },
        Operation::Update { old: actor(2, "actor"), new: actor(1, "actor") },
        Operation::Delete { old: actor(1, "actor") },
        Operation::Update { old: actor(1, "actor"), new: actor(3, "actor") },
    ];
    for op in ops {
        for out in processor.process(op).unwrap() {
            apply(&mut view, out);
        }
    }
    assert_eq!(
        view,
        vec![
            row(vec![Field::Int(1), Field::Int(1)]),
            row(vec![Field::Int(3), Field::Int(1)]),
        ]
    );
}

#[test]
fn test_sum_aggregation_null() {
    let mut processor = AggregationProcessor::new(AggregatorKind::Sum, vec![1], 3, FieldType::Int);

    // Insert 100 for the segment without a country.
    let inp = Operation::Insert {
        new: Record::new(
            None,
            vec![Field::Int(0), Field::Null, Field::Int(100), Field::Int(100)],
            None,
        ),
    };
    let out = processor.process(inp).unwrap();
    let exp = vec![Operation::Insert {
        new: Record::new(None, vec![Field::Null, Field::Int(100)], None),
    }];
    assert_eq!(out, exp);
}

#[test]
fn sum_follows_inserts_and_deletes() {
    let mut processor = AggregationProcessor::new(AggregatorKind::Sum, vec![1], 3, FieldType::Int);
    assert_eq!(processor.process(insert_field(ITALY, 100)).unwrap(), vec![insert_exp(ITALY, 100)]);
    assert_eq!(
        processor.process(insert_field(ITALY, -30)).unwrap(),
        vec![update_exp(ITALY, 100, 70)]
    );
    assert_eq!(processor.process(insert_field(ITALY, 0)).unwrap(), vec![]);
    assert_eq!(
        processor.process(delete_field(ITALY, 100)).unwrap(),
        vec![update_exp(ITALY, 70, -30)]
    );
    assert_eq!(processor.process(delete_field(ITALY, 0)).unwrap(), vec![]);
    assert_eq!(processor.process(delete_field(ITALY, -30)).unwrap(), vec![delete_exp(ITALY, -30)]);
}

#[test]
fn sum_overflows() {
    let max = SumAggregator::insert(None, &Field::Int(i64::MAX), FieldType::Int).unwrap();
    assert_eq!(max.value, Field::Int(i64::MAX));
    assert_eq!(
        SumAggregator::insert(max.state.as_deref(), &Field::Int(1), FieldType::Int),
        Err(PipelineError::NumericOverflow)
    );
    assert_eq!(
        SumAggregator::delete(None, &Field::UInt(1), FieldType::UInt),
        Err(PipelineError::NumericOverflow)
    );
    // The sum fits although the first step does not.
    let updated = SumAggregator::update(
        max.state.as_deref(),
        &Field::Int(-1),
        &Field::Int(-2),
        FieldType::Int,
    )
    .unwrap();
    assert_eq!(updated.value, Field::Int(i64::MAX - 1));
    let top = SumAggregator::insert(None, &Field::Decimal(i128::MAX), FieldType::Decimal).unwrap();
    assert_eq!(
        SumAggregator::update(
            top.state.as_deref(),
            &Field::Decimal(-1),
            &Field::Decimal(-2),
            FieldType::Decimal
        )
        .unwrap()
        .value,
        Field::Decimal(i128::MAX - 1)
    );
    assert_eq!(
        SumAggregator::insert(None, &Field::Float(1), FieldType::Float),
        Err(PipelineError::InvalidOperandType("SUM".to_string()))
    );
    assert_eq!(
        SumAggregator::insert(Some(&[1, 2]), &Field::Int(1), FieldType::Int),
        Err(PipelineError::InternalTypeError(TypeError::DeserializationError))
    );
}

#[test]
fn min_over_integers_with_retraction() {
    let mut processor = AggregationProcessor::new(AggregatorKind::Min, vec![1], 3, FieldType::Int);
    assert_eq!(processor.process(insert_field(ITALY, 10)).unwrap(), vec![insert_exp(ITALY, 10)]);
    assert_eq!(processor.process(insert_field(ITALY, 20)).unwrap(), vec![]);
    assert_eq!(
        processor.process(insert_field(ITALY, -5)).unwrap(),
        vec![update_exp(ITALY, 10, -5)]
    );
    assert_eq!(
        processor.process(delete_field(ITALY, -5)).unwrap(),
        vec![update_exp(ITALY, -5, 10)]
    );
    let mut db: Database<u64> = Database::new();
    dozer::min::MinAggregator::insert(None, &Field::UInt(7), FieldType::UInt, &mut db).unwrap();
    let r =
        dozer::min::MinAggregator::update(None, &Field::UInt(7), &Field::UInt(9), FieldType::UInt, &mut db)
            .unwrap();
    assert_eq!(r.value, Field::UInt(9));
    let r = dozer::min::MinAggregator::delete(None, &Field::UInt(9), FieldType::UInt, &mut db).unwrap();
    assert_eq!(r.value, Field::Null);
    assert_eq!(
        dozer::min::MinAggregator::insert(None, &Field::UInt(9), FieldType::Text, &mut db),
        Err(PipelineError::InvalidOperandType("MIN".to_string()))
    );
}

#[test]
fn processor_refuses_what_it_cannot_take() {
    let mut processor =
        AggregationProcessor::new(AggregatorKind::Count, vec![1], 3, FieldType::Int);
    let short = Operation::Insert { new: row(vec![Field::Int(0)]) };
    assert_eq!(
        processor.process(short),
        Err(PipelineError::InvalidOperandType("COUNT".to_string()))
    );
    assert_eq!(
        processor.process(delete_field(ITALY, 1)),
        Err(PipelineError::InvalidOperandType("COUNT".to_string()))
    );
    assert!(processor.groups.is_empty());

    let mut max = AggregationProcessor::new(AggregatorKind::Max, vec![1], 3, FieldType::Int);
    assert_eq!(
        max.process(delete_field(ITALY, 1)),
        Err(PipelineError::InvalidOperandType("MAX".to_string()))
    );
    // A value of another type than the aggregate is refused by the aggregator.
    let text = Operation::Insert {
        new: row(vec![Field::Int(0), Field::Null, Field::Null, Field::String("x".into())]),
    };
    assert_eq!(max.process(text), Err(PipelineError::InvalidOperandType("MAX".to_string())));
    assert!(max.groups.is_empty());
    // A timestamp that is no instant: the group is not kept.
    let mut latest =
        AggregationProcessor::new(AggregatorKind::Max, vec![], 0, FieldType::Timestamp);
    assert_eq!(
        latest.process(Operation::Insert { new: row(vec![Field::Timestamp(i64::MAX)]) }),
        Err(PipelineError::InternalTypeError(TypeError::InvalidTimestamp))
    );
    assert!(latest.groups.is_empty());
    assert_eq!(
        latest
            .process(Operation::Update {
                old: row(vec![Field::Timestamp(1)]),
                new: row(vec![Field::Timestamp(2)])
            })
            .err(),
        Some(PipelineError::InvalidOperandType("MAX".to_string()))
    );
}
