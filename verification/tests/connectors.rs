use std::hash::{Hash, Hasher};

use dozer::connector::{ColumnInfo, TableInfo};
use dozer::errors::{
    ConnectorError, PostgresConnectorError, PostgresSchemaError,
};
use dozer::field::{Field, FieldType};
use dozer::grpc::{GrpcIngestMessage, GrpcIngestor, IngestAdapter, IngestRequest, OperationType};
use dozer::ingestion::{IngestionMessage, IngestionMessageKind, Ingestor};
use dozer::models::{ApiConfig, Config, Flags, GrpcApiOptions};
use dozer::postgres_schema::{
    hash_table_name, postgres_type_to_dozer_type, PostgresRow, PostgresTable, SchemaHelper,
};
use dozer::snapshotter::{
    snapshot_query, PostgresSnapshotter, SnapshotAction, SnapshotEvent, SnapshotState,
};
use dozer::types::{
    FieldDefinition, Operation, ReplicationChangesTrackingType, Schema, SchemaIdentifier,
    SourceDefinition, SourceSchema,
};
use dozer::utils::{
    get_api_dir, get_api_security_config, get_app_grpc_config, get_cache_dir,
    get_cache_manager_options, get_executor_options, get_flags, get_grpc_config,
    get_pipeline_dir, get_repl_history_path, get_rest_config, get_sql_history_path, join_path,
    ExecutorOptions,
};

fn row(table: &str, column: &str, in_index: bool, oid: u32) -> PostgresRow {
    PostgresRow {
        table_name: table.to_string(),
        column_name: column.to_string(),
        is_nullable: false,
        is_column_used_in_index: in_index,
        rel_id: Some(77),
        replication_type: b'd' as i8,
        type_oid: oid,
        table_type: Some("BASE TABLE".to_string()),
    }
}

fn table(name: &str, columns: Option<Vec<&str>>) -> TableInfo {
    TableInfo {
        name: name.to_string(),
        table_name: name.to_string(),
        id: 0,
        columns: columns.map(|c| {
            c.into_iter().map(|n| ColumnInfo { name: n.to_string(), data_type: None }).collect()
        }),
    }
}

fn field(name: &str, typ: FieldType) -> FieldDefinition {
    FieldDefinition::new(name.to_string(), typ, false, SourceDefinition::Dynamic)
}

#[test]
fn convert_row_reads_a_column() {
    let helper = SchemaHelper::new(None);
    assert_eq!(helper.schema, "public");
    let read = helper.convert_row(&row("users", "id", true, 23)).unwrap();
    assert_eq!(read.table_name, "users");
    assert_eq!(read.column_name, "id");
    assert_eq!(read.field, field("id", FieldType::Int));
    assert!(read.is_column_used_in_index);
    assert_eq!(read.table_id, 77);
    assert_eq!(read.replication_type, "d");
}

#[test]
fn convert_row_errors() {
    let helper = SchemaHelper::new(Some("other".to_string()));
    assert_eq!(helper.schema, "other");
    let mut view = row("users", "id", true, 23);
    view.table_type = Some("VIEW".to_string());
    assert_eq!(
        helper.convert_row(&view).err(),
        Some(PostgresSchemaError::UnsupportedTableType("VIEW".to_string(), "users".to_string()))
    );
    view.table_type = None;
    assert_eq!(helper.convert_row(&view).err(), Some(PostgresSchemaError::TableTypeNotFound));
    // No built-in type has this oid.
    assert_eq!(
        helper.convert_row(&row("users", "id", true, 1)).err(),
        Some(PostgresSchemaError::InvalidColumnType)
    );
    // A built-in type that has no field type: xml.
    assert_eq!(
        helper.convert_row(&row("users", "id", true, 142)).err(),
        Some(PostgresSchemaError::ColumnTypeNotSupported(142))
    );
    let mut bad = row("users", "id", true, 23);
    bad.replication_type = -1;
    assert_eq!(
        helper.convert_row(&bad).err(),
        Some(PostgresSchemaError::ValueConversionError("Replication type".to_string()))
    );
}

#[test]
fn postgres_types_map_to_field_types() {
    assert_eq!(postgres_type_to_dozer_type(16), Some(FieldType::Boolean));
    assert_eq!(postgres_type_to_dozer_type(20), Some(FieldType::Int));
    assert_eq!(postgres_type_to_dozer_type(25), Some(FieldType::String));
    assert_eq!(postgres_type_to_dozer_type(701), Some(FieldType::Float));
    assert_eq!(postgres_type_to_dozer_type(17), Some(FieldType::Binary));
    assert_eq!(postgres_type_to_dozer_type(1184), Some(FieldType::Timestamp));
    assert_eq!(postgres_type_to_dozer_type(1700), Some(FieldType::Decimal));
    assert_eq!(postgres_type_to_dozer_type(3802), Some(FieldType::Bson));
    assert_eq!(postgres_type_to_dozer_type(1082), Some(FieldType::Date));
    assert_eq!(postgres_type_to_dozer_type(600), Some(FieldType::Point));
    assert_eq!(postgres_type_to_dozer_type(142), None);
}

#[test]
fn table_without_id_gets_the_hash_of_its_name() {
    let mut s = std::collections::hash_map::DefaultHasher::new();
    "users".to_string().hash(&mut s);
    assert_eq!(hash_table_name("users"), s.finish() as u32);
    let mut no_id = row("users", "id", true, 23);
    no_id.rel_id = None;
    let read = SchemaHelper::new(None).convert_row(&no_id).unwrap();
    assert_eq!(read.table_id, s.finish() as u32);
}

#[test]
fn get_tables_groups_the_columns() {
    let helper = SchemaHelper::new(None);
    let rows = vec![
        row("users", "id", true, 23),
        row("orders", "id", true, 23),
        row("users", "name", false, 25),
        row("orders", "total", false, 1700),
    ];
    let all = helper.get_tables(&rows, None).unwrap();
    assert_eq!(all.len(), 2);
    assert_eq!(all[0].name, "users");
    assert_eq!(all[0].table_name, "users");
    assert_eq!(all[0].id, 77);
    assert_eq!(
        all[0].columns,
        Some(vec![
            ColumnInfo { name: "id".to_string(), data_type: None },
            ColumnInfo { name: "name".to_string(), data_type: None },
        ])
    );
    let asked = [table("users", Some(vec!["name"])), table("orders", Some(vec![]))];
    let some = helper.get_tables(&rows, Some(&asked)).unwrap();
    assert_eq!(some[0].name, "orders");
    assert_eq!(some[0].columns.as_ref().unwrap().len(), 2);
    assert_eq!(some[1].columns.as_ref().unwrap().len(), 1);
}

#[test]
fn get_schemas_follows_the_order_that_is_asked_for() {
    let helper = SchemaHelper::new(None);
    let rows = vec![
        row("users", "id", true, 23),
        row("orders", "id", true, 23),
        row("users", "name", false, 25),
    ];
    let schemas = helper.get_schemas(&rows, None).unwrap();
    assert_eq!(schemas.len(), 2);
    assert_eq!(schemas[0].name, "users");
    assert_eq!(
        schemas[0].schema,
        Schema {
            identifier: Some(SchemaIdentifier { id: 77, version: 1 }),
            fields: vec![field("id", FieldType::Int), field("name", FieldType::String)],
            primary_index: vec![0],
        }
    );
    assert_eq!(schemas[0].replication_type, ReplicationChangesTrackingType::OnlyPK);

    let asked = [table("orders", None), table("users", None)];
    let schemas = helper.get_schemas(&rows, Some(&asked)).unwrap();
    assert_eq!(schemas[0].name, "orders");
    assert_eq!(schemas[1].name, "users");

    let asked = [table("products", None)];
    assert_eq!(
        helper.get_schemas(&rows, Some(&asked)),
        Err(PostgresConnectorError::PostgresSchemaError(PostgresSchemaError::TableNotFound(
            "products".to_string()
        )))
    );
    let mut rows = rows;
    rows[1].type_oid = 1;
    assert_eq!(
        helper.get_schemas(&rows, None),
        Err(PostgresConnectorError::PostgresSchemaError(PostgresSchemaError::InvalidColumnType))
    );
}

#[test]
fn map_columns_to_schemas_checks_the_identity() {
    let with = |replication: &str, in_index: bool| {
        let mut t = PostgresTable::new(5, replication.to_string());
        t.add_field(field("id", FieldType::Int), in_index);
        t.add_field(field("name", FieldType::String), false);
        assert_eq!(t.fields().len(), 2);
        assert_eq!(t.is_index_field(0), Some(&in_index));
        assert_eq!(t.is_index_field(2), None);
        assert_eq!(t.get_field(1), Some(&field("name", FieldType::String)));
        assert_eq!(*t.table_id(), 5);
        assert_eq!(t.replication_type(), replication);
        t
    };
    let ok = SchemaHelper::map_columns_to_schemas(vec![
        ("a".to_string(), with("i", true)),
        ("b".to_string(), with("f", true)),
        ("c".to_string(), with("n", true)),
    ])
    .unwrap();
    assert_eq!(ok[0].replication_type, ReplicationChangesTrackingType::OnlyPK);
    assert_eq!(ok[1].replication_type, ReplicationChangesTrackingType::FullChanges);
    assert_eq!(ok[2].replication_type, ReplicationChangesTrackingType::Nothing);
    assert_eq!(ok[2].schema.primary_index, vec![0]);
    assert_eq!(
        SchemaHelper::map_columns_to_schemas(vec![
            ("a".to_string(), with("d", true)),
            ("b".to_string(), with("d", false)),
        ]),
        Err(PostgresSchemaError::PrimaryKeyIsMissingInSchema("b".to_string()))
    );
    assert_eq!(
        SchemaHelper::map_columns_to_schemas(vec![
            ("a".to_string(), with("d", false)),
            ("b".to_string(), with("x", true)),
        ]),
        Err(PostgresSchemaError::UnsupportedReplicationType("x".to_string()))
    );
    let empty: Vec<SourceSchema> = vec![];
    assert_eq!(SchemaHelper::validate_schema_replication_identity(&empty), Ok(()));
}

#[test]
fn validate_finds_what_is_wrong_and_what_is_missing() {
    let helper = SchemaHelper::new(None);
    let rows = vec![
        row("users", "id", true, 23),
        row("users", "name", false, 1),
        row("users", "other", false, 23),
    ];
    let asked = [
        table("users", Some(vec!["id", "name", "email", "phone"])),
        table("ghosts", Some(vec!["a", "b"])),
    ];
    let found = helper.validate(&rows, &asked).unwrap();
    let missing = |column: &str, table: &str| {
        (
            None,
            Err(ConnectorError::PostgresConnectorError(PostgresConnectorError::ColumnNotFound(
                column.to_string(),
                table.to_string(),
            ))),
        )
    };
    assert_eq!(
        found,
        vec![
            (
                "users".to_string(),
                vec![
                    (Some("id".to_string()), Ok(())),
                    (
                        Some("name".to_string()),
                        Err(ConnectorError::PostgresConnectorError(
                            PostgresConnectorError::PostgresSchemaError(
                                PostgresSchemaError::InvalidColumnType
                            )
                        ))
                    ),
                    missing("email", "users"),
                    missing("phone", "users"),
                ]
            ),
            // A table without rows gets its findings from its second column on.
            ("ghosts".to_string(), vec![missing("b", "ghosts")]),
        ]
    );
}

#[test]
fn columns_query_names_the_tables() {
    let helper = SchemaHelper::new(None);
    let (sql, names) = helper.get_columns(None);
    assert!(sql.contains("WHERE t.table_schema = $1 AND t.table_type = 'BASE TABLE'\nORDER BY"));
    assert_eq!(names, None);
    let asked = [table("users", None), table("orders", None)];
    let (sql, names) = helper.get_columns(Some(&asked));
    assert!(sql.contains("AND t.table_name = ANY($2)\nORDER BY"));
    assert_eq!(names, Some(vec!["users".to_string(), "orders".to_string()]));
}

#[test]
fn snapshot_reads_table_after_table() {
    let tables = vec![table("users", Some(vec!["id", "name"])), table("orders", Some(vec!["id"]))];
    assert_eq!(snapshot_query(&tables[0]), Ok("select \"id\",\"name\" from users".to_string()));
    assert_eq!(snapshot_query(&table("t", None)), Err(ConnectorError::ColumnsNotFound));
    assert_eq!(snapshot_query(&table("t", Some(vec![]))), Ok("select  from t".to_string()));

    let snapshotter = PostgresSnapshotter { tables: Some(vec![table("users", None)]), conn_str: String::new() };
    assert_eq!(snapshotter.get_tables(&vec![]).unwrap(), vec![table("users", None)]);
    let everything = PostgresSnapshotter { tables: None, conn_str: String::new() };
    assert_eq!(everything.get_tables(&vec![row("users", "id", true, 23)]).unwrap().len(), 1);

    let mut ingestor = Ingestor::new();
    let mut state = SnapshotState::new();
    let mut schema = Schema::empty();
    schema.identifier = Some(SchemaIdentifier { id: 3, version: 1 });
    let step = |state: &mut SnapshotState, event, ingestor: &mut Ingestor| {
        snapshotter.sync_tables(&tables, state, event, ingestor)
    };
    assert_eq!(
        step(&mut state, SnapshotEvent::Start, &mut ingestor),
        SnapshotAction::Query("select \"id\",\"name\" from users".to_string())
    );
    assert_eq!(
        step(&mut state, SnapshotEvent::Row(vec![]), &mut ingestor),
        SnapshotAction::Fail(ConnectorError::InvalidQueryError)
    );
    let prepared = |schema: &Schema| {
        SnapshotEvent::Prepared(Schema {
            identifier: schema.identifier,
            fields: vec![],
            primary_index: vec![],
        })
    };
    assert_eq!(step(&mut state, prepared(&schema), &mut ingestor), SnapshotAction::NextRow);
    for id in 0..2 {
        assert_eq!(
            step(&mut state, SnapshotEvent::Row(vec![Field::Int(id)]), &mut ingestor),
            SnapshotAction::NextRow
        );
    }
    assert_eq!(
        step(&mut state, SnapshotEvent::EndOfRows, &mut ingestor),
        SnapshotAction::Query("select \"id\" from orders".to_string())
    );
    assert_eq!(step(&mut state, prepared(&schema), &mut ingestor), SnapshotAction::NextRow);
    assert_eq!(
        step(&mut state, SnapshotEvent::Row(vec![Field::Int(9)]), &mut ingestor),
        SnapshotAction::NextRow
    );
    assert_eq!(
        step(&mut state, SnapshotEvent::EndOfRows, &mut ingestor),
        SnapshotAction::Done(vec!["users".to_string(), "orders".to_string()])
    );
    assert_eq!(ingestor.messages.len(), 4);
    assert_eq!(ingestor.messages[2].identifier.seq_in_tx, 2);
    match &ingestor.messages[2].kind {
        IngestionMessageKind::OperationEvent(Operation::Insert { new }) => {
            assert_eq!(new.schema_id, Some(SchemaIdentifier { id: 3, version: 1 }));
            assert_eq!(new.values, vec![Field::Int(9)]);
        }
        _ => panic!("an insert is expected"),
    }
    assert_eq!(ingestor.messages[3], IngestionMessage::new_snapshotting_done(0, 3));

    // Without a table the snapshot is done at once, and its end is handed over.
    let mut nothing = Ingestor::new();
    let mut state = SnapshotState::new();
    assert_eq!(
        snapshotter.sync_tables(&vec![], &mut state, SnapshotEvent::Start, &mut nothing),
        SnapshotAction::Done(vec![])
    );
    assert_eq!(nothing.messages, vec![IngestionMessage::new_snapshotting_done(0, 0)]);

    let mut state = SnapshotState::new();
    step(&mut state, SnapshotEvent::Start, &mut ingestor);
    assert_eq!(
        step(&mut state, prepared(&Schema::empty()), &mut ingestor),
        SnapshotAction::Fail(ConnectorError::SchemaIdentifierNotFound)
    );
    assert_eq!(
        step(&mut state, SnapshotEvent::QueryFailed, &mut ingestor),
        SnapshotAction::Fail(ConnectorError::InvalidQueryError)
    );
}

struct TwoSchemas;

impl IngestAdapter for TwoSchemas {
    fn new() -> Self {
        TwoSchemas
    }

    fn get_schemas(&self, schemas_str: &str) -> Result<Vec<SourceSchema>, ConnectorError> {
        if schemas_str.is_empty() {
            return Err(ConnectorError::InitializationError("no schemas".to_string()));
        }
        Ok(schemas_str
            .split(',')
            .map(|name| {
                SourceSchema::new(
                    name.to_string(),
                    Schema::empty(),
                    ReplicationChangesTrackingType::Nothing,
                )
            })
            .collect())
    }

    fn handle_message(
        &self,
        msg: GrpcIngestMessage,
        schema_map: &Vec<(String, Schema)>,
        ingestor: &mut Ingestor,
    ) -> Result<(), ConnectorError> {
        match msg {
            GrpcIngestMessage::Default(request) => {
                if !schema_map.iter().any(|(name, _)| *name == request.schema_name) {
                    return Err(ConnectorError::InitializationError(request.schema_name));
                }
                let new = request.new.ok_or(ConnectorError::ColumnsNotFound)?;
                ingestor.handle_message(IngestionMessage::new_op(
                    0,
                    request.seq_no as u64,
                    Operation::Insert { new },
                ));
                Ok(())
            }
            GrpcIngestMessage::Arrow(_) => Err(ConnectorError::ColumnsNotFound),
        }
    }
}

#[test]
fn grpc_ingestor_registers_the_schemas() {
    let ingestor: GrpcIngestor<TwoSchemas> = GrpcIngestor::new("a,b,a".to_string()).unwrap();
    let names: Vec<&str> = ingestor.schema_map.iter().map(|(n, _)| n.as_str()).collect();
    assert_eq!(names, vec!["a", "b"]);
    // Of two schemas of one name the last counts.
    assert_eq!(ingestor.schema_map[0].1.identifier, Some(SchemaIdentifier { id: 2, version: 1 }));
    assert_eq!(ingestor.schema_map[1].1.identifier, Some(SchemaIdentifier { id: 1, version: 1 }));
    assert_eq!(ingestor.get_schemas().unwrap().len(), 3);
    assert!(GrpcIngestor::<TwoSchemas>::new(String::new()).is_err());

    let mut queue = Ingestor::new();
    let request = IngestRequest {
        schema_name: "b".to_string(),
        typ: OperationType::Insert,
        old: None,
        new: Some(dozer::types::Record::new(None, vec![Field::Int(1)], None)),
        seq_no: 4,
    };
    ingestor.handle_message(GrpcIngestMessage::Default(request), &mut queue).unwrap();
    assert_eq!(queue.messages.len(), 1);
}

fn config(home_dir: &str) -> Config {
    Config {
        app_name: "app".to_string(),
        home_dir: home_dir.to_string(),
        api: None,
        flags: None,
        cache_max_map_size: None,
        app_max_map_size: None,
        app_buffer_size: None,
        commit_size: None,
        commit_timeout: None,
    }
}

#[test]
fn paths_are_under_the_home_directory() {
    assert_eq!(get_pipeline_dir(&config("./.dozer")), "./.dozer/pipeline");
    assert_eq!(get_cache_dir(&config("/var/dozer/")), "/var/dozer/cache");
    assert_eq!(get_api_dir(&config("")), "api");
    assert_eq!(get_repl_history_path(&config("h")), "h/history.txt");
    assert_eq!(get_sql_history_path(&config("h")), "h/sql_history.txt");
    assert_eq!(join_path("é", "x"), "é/x");
}

#[test]
fn options_have_their_defaults() {
    assert_eq!(
        get_executor_options(&config("h")),
        ExecutorOptions {
            commit_sz: 10000,
            channel_buffer_sz: 20000,
            commit_time_threshold: 5000,
            max_map_size: 1 << 40,
        }
    );
    let mut set = config("h");
    set.commit_size = Some(5);
    set.app_buffer_size = Some(6);
    set.commit_timeout = Some(7);
    set.app_max_map_size = Some(8);
    set.cache_max_map_size = Some(9);
    set.flags = Some(Flags {
        dynamic: true,
        grpc_web: false,
        push_events: true,
        authenticate_server_reflection: false,
    });
    assert_eq!(
        get_executor_options(&set),
        ExecutorOptions {
            commit_sz: 5,
            channel_buffer_sz: 6,
            commit_time_threshold: 7,
            max_map_size: 8,
        }
    );
    let cache = get_cache_manager_options(&set);
    assert_eq!(cache.path, Some("h/cache".to_string()));
    assert_eq!(cache.max_size, 9);
    assert_eq!(get_flags(set).unwrap().dynamic, true);
    assert_eq!(get_grpc_config(config("h")).port, 50051);
    assert_eq!(get_rest_config(config("h")).port, 8080);
    assert_eq!(get_api_security_config(config("h")), None);
    let mut with_api = config("h");
    with_api.api = Some(ApiConfig {
        api_security: None,
        rest: None,
        grpc: None,
        app_grpc: Some(GrpcApiOptions {
            port: 1,
            host: "h".to_string(),
            cors: false,
            web: false,
        }),
    });
    assert_eq!(get_app_grpc_config(with_api).port, 1);
}
