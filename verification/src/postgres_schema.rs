//! The schemas of the tables of a Postgres source, from the rows that its
//! catalog gives for their columns.

use vstd::prelude::*;
use vstd::string::StringExecFns;
use crate::connector::{column_names, ColumnInfo, ColumnValidation, TableInfo, TableView, ValidationResults};
use crate::errors::{ConnectorError, PostgresConnectorError, PostgresSchemaError};
use std::hash::Hasher;
use crate::field::FieldType;
use crate::types::{
    str_eq, FieldDefinition, ReplicationChangesTrackingType, Schema, SchemaIdentifier,
    SourceDefinition, SourceSchema,
};

verus! {

/// What one row of the catalog tells of a column, once read.
#[derive(Debug)]
pub struct PostgresTableRow {
    pub table_name: String,
    pub column_name: String,
    pub field: FieldDefinition,
    pub is_column_used_in_index: bool,
    pub table_id: u32,
    pub replication_type: String,
}

/// The columns of a table, in the order of the catalog.
#[derive(Debug)]
pub struct PostgresTable {
    fields: Vec<FieldDefinition>,
    // Tells of each field whether it is used for the replication identity:
    // the primary key by default, the fields of a chosen index, every field
    // for a full identity, and none where the table has no identity.
    index_keys: Vec<bool>,
    table_id: u32,
    replication_type: String,
}

impl Clone for PostgresTable {
    fn clone(&self) -> (r: Self)
        ensures
            r.columns() == self.columns(),
            r.index_flags() == self.index_flags(),
            r.id() == self.id(),
            r.replication() == self.replication(),
    {
        PostgresTable {
            fields: self.fields.clone(),
            index_keys: self.index_keys.clone(),
            table_id: self.table_id,
            replication_type: self.replication_type.clone(),
        }
    }
}

/// The positions at which `flags` is set, in ascending order.
pub open spec fn true_positions(flags: Seq<bool>) -> Seq<usize>
    decreases flags.len(),
{
    if flags.len() == 0 {
        Seq::<usize>::empty()
    } else if flags.last() {
        true_positions(flags.drop_last()).push((flags.len() - 1) as usize)
    } else {
        true_positions(flags.drop_last())
    }
}

/// What Postgres tells of the changes of a table with the given identity.
pub open spec fn tracking_of(replication_type: Seq<char>) -> Option<
    ReplicationChangesTrackingType,
> {
    if replication_type == "d"@ || replication_type == "i"@ {
        Some(ReplicationChangesTrackingType::OnlyPK)
    } else if replication_type == "n"@ {
        Some(ReplicationChangesTrackingType::Nothing)
    } else if replication_type == "f"@ {
        Some(ReplicationChangesTrackingType::FullChanges)
    } else {
        None
    }
}

impl PostgresTable {
    /// The fields.
    pub closed spec fn columns(&self) -> Seq<FieldDefinition> {
        self.fields@
    }

    /// For each field, whether it is used for the replication identity.
    pub closed spec fn index_flags(&self) -> Seq<bool> {
        self.index_keys@
    }

    /// The id of the table.
    pub closed spec fn id(&self) -> u32 {
        self.table_id
    }

    /// The replication identity of the table, as Postgres names it.
    pub closed spec fn replication(&self) -> Seq<char> {
        self.replication_type@
    }

    pub fn new(table_id: u32, replication_type: String) -> (r: Self)
        ensures
            r.columns() == Seq::<FieldDefinition>::empty(),
            r.index_flags() == Seq::<bool>::empty(),
            r.id() == table_id,
            r.replication() == replication_type@,
    {
        Self { fields: Vec::new(), index_keys: Vec::new(), table_id, replication_type }
    }

    pub fn add_field(&mut self, field: FieldDefinition, is_column_used_in_index: bool)
        ensures
            final(self).columns() == old(self).columns().push(field),
            final(self).index_flags() == old(self).index_flags().push(is_column_used_in_index),
            final(self).id() == old(self).id(),
            final(self).replication() == old(self).replication(),
    {
        self.fields.push(field);
        self.index_keys.push(is_column_used_in_index);
    }

    pub fn fields(&self) -> (r: &Vec<FieldDefinition>)
        ensures
            r@ == self.columns(),
    {
        &self.fields
    }

    pub fn is_index_field(&self, index: usize) -> (r: Option<&bool>)
        ensures
            index < self.index_flags().len() ==> r == Some(&self.index_flags()[index as int]),
            index >= self.index_flags().len() ==> r.is_none(),
    {
        if index < self.index_keys.len() {
            Some(&self.index_keys[index])
        } else {
            None
        }
    }

    pub fn get_field(&self, index: usize) -> (r: Option<&FieldDefinition>)
        ensures
            index < self.columns().len() ==> r == Some(&self.columns()[index as int]),
            index >= self.columns().len() ==> r.is_none(),
    {
        if index < self.fields.len() {
            Some(&self.fields[index])
        } else {
            None
        }
    }

    pub fn table_id(&self) -> (r: &u32)
        ensures
            *r == self.id(),
    {
        &self.table_id
    }

    pub fn replication_type(&self) -> (r: &String)
        ensures
            r@ == self.replication(),
    {
        &self.replication_type
    }

    /// The positions of the fields that are used for the replication
    /// identity.
    pub fn primary_index(&self) -> (r: Vec<usize>)
        ensures
            r@ == true_positions(self.index_flags()),
    {
        let mut r: Vec<usize> = Vec::new();
        let mut i: usize = 0;
        while i < self.index_keys.len()
            invariant
                i <= self.index_keys@.len(),
                r@ == true_positions(self.index_keys@.subrange(0, i as int)),
            decreases self.index_keys@.len() - i,
        {
            proof {
                let next = self.index_keys@.subrange(0, i + 1);
                assert(next.drop_last() =~= self.index_keys@.subrange(0, i as int));
            }
            if self.index_keys[i] {
                r.push(i);
            }
            i += 1;
        }
        assert(self.index_keys@.subrange(0, i as int) =~= self.index_keys@);
        r
    }
}

/// What Postgres tells of the changes of a table with the given identity.
pub fn tracking_type(replication_type: &str) -> (r: Option<ReplicationChangesTrackingType>)
    ensures
        r == tracking_of(replication_type@),
{
    if str_eq(replication_type, "d") || str_eq(replication_type, "i") {
        Some(ReplicationChangesTrackingType::OnlyPK)
    } else if str_eq(replication_type, "n") {
        Some(ReplicationChangesTrackingType::Nothing)
    } else if str_eq(replication_type, "f") {
        Some(ReplicationChangesTrackingType::FullChanges)
    } else {
        None
    }
}

/// The schema of a table: its id at version 1, its fields, and as primary
/// key the fields of its replication identity.
pub open spec fn schema_matches(schema: Schema, table: PostgresTable) -> bool {
    &&& schema.identifier == Some(SchemaIdentifier { id: table.id(), version: 1 })
    &&& schema.fields@ == table.columns()
    &&& schema.primary_index@ == true_positions(table.index_flags())
}

/// The source schema of a named table.
pub open spec fn source_schema_matches(s: SourceSchema, name: String, table: PostgresTable) -> bool {
    &&& s.name@ == name@
    &&& schema_matches(s.schema, table)
    &&& tracking_of(table.replication()) == Some(s.replication_type)
}

/// What `map_columns_to_schemas` answers for the given tables.
pub open spec fn schemas_mapped(
    postgres_tables: Seq<(String, PostgresTable)>,
    r: Result<Vec<SourceSchema>, PostgresSchemaError>,
) -> bool {
    match r {
                Ok(schemas) => schemas@.len() == postgres_tables.len() && (forall|i: int|
                    0 <= i < schemas@.len() ==> source_schema_matches(
                        #[trigger] schemas@[i],
                        postgres_tables[i].0,
                        postgres_tables[i].1,
                    )) && (forall|i: int|
                    0 <= i < schemas@.len() ==> true_positions(
                        (#[trigger] postgres_tables[i]).1.index_flags(),
                    ).len() > 0),
                Err(PostgresSchemaError::UnsupportedReplicationType(typ)) => exists|i: int|
                    0 <= i < postgres_tables.len() && tracking_of(
                        (#[trigger] postgres_tables[i]).1.replication(),
                    ).is_none() && typ@ == postgres_tables[i].1.replication() && forall|j: int|
                        0 <= j < i ==> tracking_of(
                            (#[trigger] postgres_tables[j]).1.replication(),
                        ).is_some(),
                Err(PostgresSchemaError::PrimaryKeyIsMissingInSchema(name)) => (forall|i: int|
                    0 <= i < postgres_tables.len() ==> tracking_of(
                        (#[trigger] postgres_tables[i]).1.replication(),
                    ).is_some()) && exists|i: int|
                    0 <= i < postgres_tables.len() && true_positions(
                        (#[trigger] postgres_tables[i]).1.index_flags(),
                    ).len() == 0 && name@ == postgres_tables[i].0@ && forall|j: int|
                        0 <= j < i ==> true_positions(
                            (#[trigger] postgres_tables[j]).1.index_flags(),
                        ).len() > 0,
                Err(_) => false,
            }
}

/// What reads the catalog of a Postgres source, in one of its schemas.
#[derive(Debug)]
pub struct SchemaHelper {
    pub schema: String,
}

impl SchemaHelper {
    /// Every table must have a replication identity: the name of the first
    /// one without is the error.
    pub fn validate_schema_replication_identity(schemas: &[SourceSchema]) -> (r: Result<
        (),
        PostgresSchemaError,
    >)
        ensures
            match r {
                Ok(()) => forall|i: int|
                    0 <= i < schemas@.len() ==> (#[trigger] schemas@[i]).schema.primary_index@.len()
                        > 0,
                Err(e) => exists|i: int|
                    0 <= i < schemas@.len() && (#[trigger] schemas@[i]).schema.primary_index@.len()
                        == 0 && (forall|j: int|
                        0 <= j < i ==> (#[trigger] schemas@[j]).schema.primary_index@.len() > 0)
                        && e == PostgresSchemaError::PrimaryKeyIsMissingInSchema(schemas@[i].name),
            },
    {
        let mut i: usize = 0;
        while i < schemas.len()
            invariant
                i <= schemas@.len(),
                forall|j: int|
                    0 <= j < i ==> (#[trigger] schemas@[j]).schema.primary_index@.len() > 0,
            decreases schemas@.len() - i,
        {
            if schemas[i].schema.primary_index.len() == 0 {
                return Err(
                    PostgresSchemaError::PrimaryKeyIsMissingInSchema(schemas[i].name.clone()),
                );
            }
            i += 1;
        }
        Ok(())
    }

    /// The source schemas of the tables, in their order. The first table
    /// with an unknown replication identity is an error, and else the first
    /// without a replication identity.
    pub fn map_columns_to_schemas(postgres_tables: Vec<(String, PostgresTable)>) -> (r: Result<
        Vec<SourceSchema>,
        PostgresSchemaError,
    >)
        ensures
            schemas_mapped(postgres_tables@, r),
    {
        let mut schemas: Vec<SourceSchema> = Vec::new();
        let mut i: usize = 0;
        while i < postgres_tables.len()
            invariant
                i <= postgres_tables@.len(),
                schemas@.len() == i,
                forall|k: int|
                    0 <= k < i ==> source_schema_matches(
                        #[trigger] schemas@[k],
                        postgres_tables@[k].0,
                        postgres_tables@[k].1,
                    ),
                forall|k: int|
                    0 <= k < i ==> tracking_of(
                        (#[trigger] postgres_tables@[k]).1.replication(),
                    ).is_some(),
            decreases postgres_tables@.len() - i,
        {
            let table = &postgres_tables[i].1;
            let schema = Schema {
                identifier: Some(SchemaIdentifier { id: table.table_id, version: 1 }),
                fields: table.fields.clone(),
                primary_index: table.primary_index(),
            };
            let replication_type = match tracking_type(table.replication_type.as_str()) {
                Some(t) => t,
                None => {
                    return Err(
                        PostgresSchemaError::UnsupportedReplicationType(
                            table.replication_type.clone(),
                        ),
                    );
                },
            };
            let ghost before = schemas@;
            schemas.push(SourceSchema::new(postgres_tables[i].0.clone(), schema, replication_type));
            proof {
                assert forall|k: int| 0 <= k < i + 1 implies source_schema_matches(
                    #[trigger] schemas@[k],
                    postgres_tables@[k].0,
                    postgres_tables@[k].1,
                ) by {
                    if k < i {
                        assert(schemas@[k] == before[k]);
                    }
                }
            }
            i += 1;
        }
        match Self::validate_schema_replication_identity(schemas.as_slice()) {
            Ok(()) => {
                proof {
                    assert forall|k: int| 0 <= k < schemas@.len() implies true_positions(
                        (#[trigger] postgres_tables@[k]).1.index_flags(),
                    ).len() > 0 by {
                        assert(source_schema_matches(
                            schemas@[k],
                            postgres_tables@[k].0,
                            postgres_tables@[k].1,
                        ));
                    }
                }
                Ok(schemas)
            },
            Err(e) => {
                proof {
                    let p = choose|p: int|
                        0 <= p < schemas@.len()
                            && (#[trigger] schemas@[p]).schema.primary_index@.len()
                            == 0 && (forall|j: int|
                            0 <= j < p ==> (#[trigger] schemas@[j]).schema.primary_index@.len() > 0)
                            && e == PostgresSchemaError::PrimaryKeyIsMissingInSchema(
                            schemas@[p].name,
                        );
                    assert(source_schema_matches(
                        schemas@[p],
                        postgres_tables@[p].0,
                        postgres_tables@[p].1,
                    ));
                    assert forall|j: int| 0 <= j < p implies true_positions(
                        (#[trigger] postgres_tables@[j]).1.index_flags(),
                    ).len() > 0 by {
                        assert(source_schema_matches(
                            schemas@[j],
                            postgres_tables@[j].0,
                            postgres_tables@[j].1,
                        ));
                    }
                    assert(true_positions(postgres_tables@[p].1.index_flags()).len() == 0);
                }
                Err(e)
            },
        }
    }
}

/// One row of the catalog: a column of a table.
#[derive(Debug, PartialEq, Eq)]
pub struct PostgresRow {
    pub table_name: String,
    pub column_name: String,
    pub is_nullable: bool,
    pub is_column_used_in_index: bool,
    pub rel_id: Option<u32>,
    pub replication_type: i8,
    pub type_oid: u32,
    pub table_type: Option<String>,
}

/// Whether Postgres has a built-in type with the given oid.
pub uninterp spec fn is_builtin_type(oid: u32) -> bool;

/// Asks `postgres_types::Type::from_oid` whether it knows the oid. The
/// answer depends on the oid alone.
#[verifier::external_body]
fn builtin_type(oid: u32) -> (r: bool)
    ensures
        r == is_builtin_type(oid),
{
    match postgres_types::Type::from_oid(oid) {
        Some(_) => true,
        None => false,
    }
}

/// The text that the bytes spell in UTF-8, if they spell one.
pub open spec fn text_of(bytes: Seq<u8>) -> Option<Seq<char>> {
    if vstd::utf8::valid_utf8(bytes) {
        Some(vstd::utf8::decode_utf8(bytes))
    } else {
        None
    }
}

/// Reads a text with `String::from_utf8`, which takes the bytes that are
/// valid UTF-8 and gives the text that they spell.
#[verifier::external_body]
fn string_from_utf8(bytes: Vec<u8>) -> (r: Option<String>)
    ensures
        match r {
            Some(s) => text_of(bytes@) == Some(s@),
            None => text_of(bytes@).is_none(),
        },
{
    match String::from_utf8(bytes) {
        Ok(s) => Some(s),
        Err(_) => None,
    }
}

/// The type of the fields of a column with the given built-in type.
pub open spec fn field_type_of(oid: u32) -> Option<FieldType> {
    if oid == 16 {
        Some(FieldType::Boolean)
    } else if oid == 21 || oid == 23 || oid == 20 {
        Some(FieldType::Int)
    } else if oid == 18 || oid == 25 || oid == 1043 || oid == 1042 || oid == 2950 || oid == 3500 {
        Some(FieldType::String)
    } else if oid == 700 || oid == 701 {
        Some(FieldType::Float)
    } else if oid == 17 {
        Some(FieldType::Binary)
    } else if oid == 1114 || oid == 1184 {
        Some(FieldType::Timestamp)
    } else if oid == 1700 {
        Some(FieldType::Decimal)
    } else if oid == 3802 || oid == 114 || oid == 3807 || oid == 199 || oid == 1009 || oid == 1002
        || oid == 1015 || oid == 1014 {
        Some(FieldType::Bson)
    } else if oid == 1082 {
        Some(FieldType::Date)
    } else if oid == 600 {
        Some(FieldType::Point)
    } else {
        None
    }
}

/// The type of the fields of a column, given whether Postgres has a
/// built-in type with its oid.
pub open spec fn column_type_of(oid: u32, builtin: bool) -> Result<FieldType, PostgresSchemaError> {
    if !builtin {
        Err(PostgresSchemaError::InvalidColumnType)
    } else {
        match field_type_of(oid) {
            Some(t) => Ok(t),
            None => Err(PostgresSchemaError::ColumnTypeNotSupported(oid)),
        }
    }
}

/// The byte of a signed byte.
pub open spec fn byte_of(v: i8) -> u8 {
    if v >= 0 {
        v as u8
    } else {
        (v + 256) as u8
    }
}

/// The id of a table that has none in the catalog: the low 32 bits of the
/// hash of its name.
pub open spec fn name_hash(name: Seq<char>) -> u32 {
    (<std::collections::hash_map::DefaultHasher as vstd::std_specs::hash::DefaultHasherAdditionalSpecFns>::spec_finish(
        seq![vstd::utf8::encode_utf8(name), seq![0xffu8]],
    ) % 0x1_0000_0000) as u32
}

/// The id of the table of a row.
pub open spec fn table_id_of(row: PostgresRow) -> u32 {
    match row.rel_id {
        Some(id) => id,
        None => name_hash(row.table_name@),
    }
}

/// The type of the fields of a column with the given built-in type.
pub fn postgres_type_to_dozer_type(oid: u32) -> (r: Option<FieldType>)
    ensures
        r == field_type_of(oid),
{
    if oid == 16 {
        Some(FieldType::Boolean)
    } else if oid == 21 || oid == 23 || oid == 20 {
        Some(FieldType::Int)
    } else if oid == 18 || oid == 25 || oid == 1043 || oid == 1042 || oid == 2950 || oid == 3500 {
        Some(FieldType::String)
    } else if oid == 700 || oid == 701 {
        Some(FieldType::Float)
    } else if oid == 17 {
        Some(FieldType::Binary)
    } else if oid == 1114 || oid == 1184 {
        Some(FieldType::Timestamp)
    } else if oid == 1700 {
        Some(FieldType::Decimal)
    } else if oid == 3802 || oid == 114 || oid == 3807 || oid == 199 || oid == 1009 || oid == 1002
        || oid == 1015 || oid == 1014 {
        Some(FieldType::Bson)
    } else if oid == 1082 {
        Some(FieldType::Date)
    } else if oid == 600 {
        Some(FieldType::Point)
    } else {
        None
    }
}

/// The type of the fields of a column, given whether Postgres has a
/// built-in type with its oid.
pub fn column_type(oid: u32, builtin: bool) -> (r: Result<FieldType, PostgresSchemaError>)
    ensures
        r == column_type_of(oid, builtin),
{
    if !builtin {
        return Err(PostgresSchemaError::InvalidColumnType);
    }
    match postgres_type_to_dozer_type(oid) {
        Some(t) => Ok(t),
        None => Err(PostgresSchemaError::ColumnTypeNotSupported(oid)),
    }
}

/// The id of a table that has none in the catalog.
pub fn hash_table_name(table_name: &str) -> (r: u32)
    ensures
        r == name_hash(table_name@),
{
    let mut s = std::collections::hash_map::DefaultHasher::new();
    s.write(table_name.as_bytes());
    let mark: [u8; 1] = [0xffu8];
    s.write(mark.as_slice());
    proof {
        assert(mark@ =~= seq![0xffu8]);
        assert(s@ =~= seq![vstd::utf8::encode_utf8(table_name@), seq![0xffu8]]);
    }
    (s.finish() % 0x1_0000_0000) as u32
}

/// The id of the table of a row.
pub fn row_table_id(row: &PostgresRow) -> (r: u32)
    ensures
        r == table_id_of(*row),
{
    match row.rel_id {
        Some(rel_id) => rel_id,
        None => hash_table_name(row.table_name.as_str()),
    }
}

/// What `convert_row` answers for a row, given whether Postgres has a
/// built-in type with the oid of its column.
pub open spec fn row_converts(
    row: PostgresRow,
    builtin: bool,
    r: Result<PostgresTableRow, PostgresSchemaError>,
) -> bool {
    match row.table_type {
        None => r matches Err(PostgresSchemaError::TableTypeNotFound),
        Some(typ) => if typ@ != "BASE TABLE"@ {
            r matches Err(PostgresSchemaError::UnsupportedTableType(t, n)) && t@ == typ@ && n@
                == row.table_name@
        } else {
            match column_type_of(row.type_oid, builtin) {
                Err(e) => r == Err::<PostgresTableRow, PostgresSchemaError>(e),
                Ok(typ) => match text_of(seq![byte_of(row.replication_type)]) {
                    None => r matches Err(PostgresSchemaError::ValueConversionError(what))
                        && what@ == "Replication type"@,
                    Some(replication) => r matches Ok(t) && t.table_name@ == row.table_name@
                        && t.column_name@ == row.column_name@ && t.field.name@ == row.column_name@
                        && t.field.typ == typ && t.field.nullable == row.is_nullable
                        && t.field.source == SourceDefinition::Dynamic
                        && t.is_column_used_in_index == row.is_column_used_in_index && t.table_id
                        == table_id_of(row) && t.replication_type@ == replication,
                },
            }
        },
    }
}

impl SchemaHelper {
    /// A helper for the given schema of the database, and for `public`
    /// where none is given.
    pub fn new(schema: Option<String>) -> (r: SchemaHelper)
        ensures
            r.schema@ == (match schema {
                Some(s) => s@,
                None => "public"@,
            }),
    {
        let schema = match schema {
            Some(s) => s,
            None => "public".to_owned(),
        };
        Self { schema }
    }

    /// Reads a row of the catalog, given whether Postgres has a built-in
    /// type with the oid of its column.
    pub fn convert_row_with(&self, row: &PostgresRow, builtin: bool) -> (r: Result<
        PostgresTableRow,
        PostgresSchemaError,
    >)
        ensures
            row_converts(*row, builtin, r),
    {
        match &row.table_type {
            Some(typ) => {
                if !str_eq(typ.as_str(), "BASE TABLE") {
                    return Err(
                        PostgresSchemaError::UnsupportedTableType(
                            typ.clone(),
                            row.table_name.clone(),
                        ),
                    );
                }
            },
            None => {
                return Err(PostgresSchemaError::TableTypeNotFound);
            },
        }
        let table_id = row_table_id(row);
        let typ = match column_type(row.type_oid, builtin) {
            Ok(typ) => typ,
            Err(e) => {
                return Err(e);
            },
        };
        let byte: u8 = if row.replication_type >= 0 {
            row.replication_type as u8
        } else {
            ((row.replication_type + 127 + 1) as u8) + 128
        };
        let mut bytes: Vec<u8> = Vec::new();
        bytes.push(byte);
        assert(bytes@ =~= seq![byte_of(row.replication_type)]);
        let replication_type = match string_from_utf8(bytes) {
            Some(s) => s,
            None => {
                return Err(
                    PostgresSchemaError::ValueConversionError("Replication type".to_owned()),
                );
            },
        };
        Ok(
            PostgresTableRow {
                table_name: row.table_name.clone(),
                column_name: row.column_name.clone(),
                field: FieldDefinition::new(
                    row.column_name.clone(),
                    typ,
                    row.is_nullable,
                    SourceDefinition::Dynamic,
                ),
                is_column_used_in_index: row.is_column_used_in_index,
                table_id,
                replication_type,
            },
        )
    }

    /// Reads a row of the catalog: the column, its field, the id of its
    /// table and the replication identity of that table.
    pub fn convert_row(&self, row: &PostgresRow) -> (r: Result<
        PostgresTableRow,
        PostgresSchemaError,
    >)
        ensures
            row_converts(*row, is_builtin_type(row.type_oid), r),
    {
        self.convert_row_with(row, builtin_type(row.type_oid))
    }
}

/// The columns that are asked for of the table `name`: those of the last
/// of `tables` with that name that names its columns.
pub open spec fn wanted_columns(tables: Seq<TableInfo>, name: Seq<char>) -> Option<Seq<Seq<char>>>
    decreases tables.len(),
{
    if tables.len() == 0 {
        None
    } else if tables.last().table_name@ == name && tables.last().columns.is_some() {
        Some(column_names(tables.last().columns.unwrap()@))
    } else {
        wanted_columns(tables.drop_last(), name)
    }
}

/// Whether a column of a table is read. Every column is where no tables
/// are given or the table does not name its columns; with `all_if_empty`,
/// also where it names none.
pub open spec fn column_selected(
    tables: Option<Seq<TableInfo>>,
    table: Seq<char>,
    column: Seq<char>,
    all_if_empty: bool,
) -> bool {
    match tables {
        None => true,
        Some(ts) => match wanted_columns(ts, table) {
            None => true,
            Some(columns) => (all_if_empty && columns.len() == 0) || columns.contains(column),
        },
    }
}

/// What the tables given to a function hold.
pub open spec fn tables_view(tables: Option<&[TableInfo]>) -> Option<Seq<TableInfo>> {
    match tables {
        Some(ts) => Some(ts@),
        None => None,
    }
}

/// The position of the table `name` among `tables`, and their number where
/// it is not among them.
pub open spec fn position_named(tables: Seq<TableView>, name: Seq<char>) -> int
    decreases tables.len(),
{
    if tables.len() == 0 {
        0
    } else if tables.first().name == name {
        0
    } else {
        1 + position_named(tables.drop_first(), name)
    }
}

/// The tables with one column more: at the end of its table, which gets
/// the given id, or in a new table at the end.
pub open spec fn with_column(tables: Seq<TableView>, name: Seq<char>, id: u32, column: Seq<char>) -> Seq<
    TableView,
> {
    let p = position_named(tables, name);
    if p < tables.len() {
        tables.update(p, TableView { name, id, columns: tables[p].columns.push(column) })
    } else {
        tables.push(TableView { name, id, columns: seq![column] })
    }
}

/// The tables of the rows that are read, each with its columns in the order
/// of the rows.
pub open spec fn grouped(rows: Seq<PostgresRow>, tables: Option<Seq<TableInfo>>) -> Seq<TableView>
    decreases rows.len(),
{
    if rows.len() == 0 {
        Seq::<TableView>::empty()
    } else {
        let before = grouped(rows.drop_last(), tables);
        let row = rows.last();
        if column_selected(tables, row.table_name@, row.column_name@, true) {
            with_column(before, row.table_name@, table_id_of(row), row.column_name@)
        } else {
            before
        }
    }
}

/// A table as the catalog gives it: it goes by the name that the catalog
/// has for it, it names its columns, and no column has a type.
pub open spec fn is_catalog_table(t: TableInfo) -> bool {
    &&& t.name@ == t.table_name@
    &&& t.columns matches Some(columns)
    &&& forall|k: int| 0 <= k < columns@.len() ==> (#[trigger] columns@[k]).data_type.is_none()
}

/// What a table that `get_tables` answers holds.
pub open spec fn table_view(t: TableInfo) -> TableView {
    TableView {
        name: t.table_name@,
        id: t.id,
        columns: match t.columns {
            Some(c) => column_names(c@),
            None => Seq::<Seq<char>>::empty(),
        },
    }
}

/// What each of the tables holds.
pub open spec fn table_views(tables: Seq<TableInfo>) -> Seq<TableView> {
    tables.map_values(|t: TableInfo| table_view(t))
}

/// The position of a table is that of the first table of its name.
pub proof fn lemma_position_named(tables: Seq<TableView>, name: Seq<char>, p: int)
    requires
        0 <= p <= tables.len(),
        forall|j: int| 0 <= j < p ==> (#[trigger] tables[j]).name != name,
        p < tables.len() ==> tables[p].name == name,
    ensures
        position_named(tables, name) == p,
    decreases tables.len(),
{
    if tables.len() > 0 && p > 0 {
        assert(tables[0].name != name);
        let rest = tables.drop_first();
        assert forall|j: int| 0 <= j < p - 1 implies (#[trigger] rest[j]).name != name by {
            assert(rest[j] == tables[j + 1]);
        }
        lemma_position_named(rest, name, p - 1);
    }
}

/// Tells whether a column of a table is read.
#[verifier::loop_isolation(false)]
pub fn is_column_selected(
    tables: Option<&[TableInfo]>,
    table: &str,
    column: &str,
    all_if_empty: bool,
) -> (r: bool)
    ensures
        r == column_selected(tables_view(tables), table@, column@, all_if_empty),
{
    let ts = match tables {
        Some(ts) => ts,
        None => {
            return true;
        },
    };
    let mut i: usize = ts.len();
    assert(ts@.subrange(0, i as int) =~= ts@);
    while i > 0
        invariant
            i <= ts@.len(),
            wanted_columns(ts@, table@) == wanted_columns(ts@.subrange(0, i as int), table@),
        decreases i,
    {
        i -= 1;
        proof {
            let head = ts@.subrange(0, i + 1);
            assert(head.drop_last() =~= ts@.subrange(0, i as int));
            assert(head.last() == ts@[i as int]);
        }
        if str_eq(ts[i].table_name.as_str(), table) {
            match &ts[i].columns {
                Some(columns) => {
                    if all_if_empty && columns.len() == 0 {
                        return true;
                    }
                    let mut k: usize = 0;
                    while k < columns.len()
                        invariant
                            k <= columns@.len(),
                            forall|j: int| 0 <= j < k ==> column_names(columns@)[j] != column@,
                        decreases columns@.len() - k,
                    {
                        if str_eq(columns[k].name.as_str(), column) {
                            assert(column_names(columns@)[k as int] == column@);
                            assert(column_names(columns@).contains(column@));
                            return true;
                        }
                        k += 1;
                    }
                    assert(!column_names(columns@).contains(column@));
                    return false;
                },
                None => {},
            }
        }
    }
    assert(ts@.subrange(0, 0) =~= Seq::<TableInfo>::empty());
    true
}

impl SchemaHelper {
    /// The tables of the source with the columns that are read from each,
    /// from the rows of its catalog.
    pub fn get_tables(&self, rows: &Vec<PostgresRow>, tables: Option<&[TableInfo]>) -> (r: Result<
        Vec<TableInfo>,
        ConnectorError,
    >)
        ensures
            r matches Ok(found) && table_views(found@) == grouped(rows@, tables_view(tables)),
            r matches Ok(found) ==> forall|i: int|
                0 <= i < found@.len() ==> is_catalog_table(#[trigger] found@[i]),
    {
        let mut found: Vec<TableInfo> = Vec::new();
        let mut n: usize = 0;
        while n < rows.len()
            invariant
                n <= rows@.len(),
                table_views(found@) == grouped(rows@.subrange(0, n as int), tables_view(tables)),
                forall|i: int| 0 <= i < found@.len() ==> is_catalog_table(#[trigger] found@[i]),
            decreases rows@.len() - n,
        {
            let row = &rows[n];
            proof {
                let head = rows@.subrange(0, n + 1);
                assert(head.drop_last() =~= rows@.subrange(0, n as int));
                assert(head.last() == rows@[n as int]);
            }
            if is_column_selected(
                tables,
                row.table_name.as_str(),
                row.column_name.as_str(),
                true,
            ) {
                let table_id = row_table_id(row);
                let column = ColumnInfo { name: row.column_name.clone(), data_type: None };
                let ghost before = found@;
                let mut p: usize = 0;
                while p < found.len() && !str_eq(
                    found[p].table_name.as_str(),
                    row.table_name.as_str(),
                )
                    invariant
                        p <= found@.len(),
                        forall|j: int|
                            0 <= j < p ==> (#[trigger] table_views(found@)[j]).name
                                != row.table_name@,
                    decreases found@.len() - p,
                {
                    p += 1;
                }
                proof {
                    if p < found@.len() {
                        assert(table_views(found@)[p as int].name == row.table_name@);
                    }
                    lemma_position_named(table_views(found@), row.table_name@, p as int);
                }
                if p < found.len() {
                    let old_table = found.remove(p);
                    let mut columns = match old_table.columns {
                        Some(c) => c,
                        None => Vec::new(),
                    };
                    let ghost old_names = column_names(columns@);
                    columns.push(column);
                    assert(column_names(columns@) =~= old_names.push(row.column_name@));
                    found.insert(
                        p,
                        TableInfo {
                            name: old_table.name,
                            table_name: old_table.table_name,
                            id: table_id,
                            columns: Some(columns),
                        },
                    );
                    proof {
                        assert(table_views(found@) =~= with_column(
                            table_views(before),
                            row.table_name@,
                            table_id,
                            row.column_name@,
                        ));
                    }
                } else {
                    let mut columns: Vec<ColumnInfo> = Vec::new();
                    columns.push(column);
                    assert(column_names(columns@) =~= seq![row.column_name@]);
                    found.push(
                        TableInfo {
                            name: row.table_name.clone(),
                            table_name: row.table_name.clone(),
                            id: table_id,
                            columns: Some(columns),
                        },
                    );
                    proof {
                        assert(table_views(found@) =~= with_column(
                            table_views(before),
                            row.table_name@,
                            table_id,
                            row.column_name@,
                        ));
                    }
                }
            }
            n += 1;
        }
        assert(rows@.subrange(0, n as int) =~= rows@);
        Ok(found)
    }
}

/// Whether a row of the catalog cannot be read, given whether Postgres has
/// a built-in type with the oid of its column.
pub open spec fn row_fails(row: PostgresRow, builtin: bool) -> bool {
    match row.table_type {
        None => true,
        Some(typ) => typ@ != "BASE TABLE"@ || column_type_of(row.type_oid, builtin).is_err()
            || text_of(seq![byte_of(row.replication_type)]).is_none(),
    }
}

/// `out` holds what the rows that are read tell, in their order.
pub open spec fn rows_read(
    rows: Seq<PostgresRow>,
    tables: Option<Seq<TableInfo>>,
    out: Seq<PostgresTableRow>,
) -> bool
    decreases rows.len(),
{
    if rows.len() == 0 {
        out.len() == 0
    } else if column_selected(tables, rows.last().table_name@, rows.last().column_name@, true) {
        out.len() > 0 && rows_read(rows.drop_last(), tables, out.drop_last()) && row_converts(
            rows.last(),
            is_builtin_type(rows.last().type_oid),
            Ok(out.last()),
        )
    } else {
        rows_read(rows.drop_last(), tables, out)
    }
}

/// The row at position `n` is the first that is read and cannot be, with
/// the error `e`.
pub open spec fn first_failure(
    rows: Seq<PostgresRow>,
    tables: Option<Seq<TableInfo>>,
    n: int,
    e: PostgresSchemaError,
) -> bool {
    &&& 0 <= n < rows.len()
    &&& column_selected(tables, rows[n].table_name@, rows[n].column_name@, true)
    &&& row_converts(
        rows[n],
        is_builtin_type(rows[n].type_oid),
        Err::<PostgresTableRow, PostgresSchemaError>(e),
    )
    &&& forall|j: int|
        0 <= j < n && column_selected(
            tables,
            (#[trigger] rows[j]).table_name@,
            rows[j].column_name@,
            true,
        ) ==> !row_fails(rows[j], is_builtin_type(rows[j].type_oid))
}

/// What the rows of a table tell, once put together.
pub struct TableGroup {
    pub name: Seq<char>,
    pub fields: Seq<FieldDefinition>,
    pub flags: Seq<bool>,
    pub id: u32,
    pub replication: Seq<char>,
}

/// The position of the table `name` among the groups, and their number
/// where it is not among them.
pub open spec fn group_position(groups: Seq<TableGroup>, name: Seq<char>) -> int
    decreases groups.len(),
{
    if groups.len() == 0 {
        0
    } else if groups.first().name == name {
        0
    } else {
        1 + group_position(groups.drop_first(), name)
    }
}

/// The groups with one row more: its column joins its table, and a table
/// that is new takes its id and its replication identity from the row.
pub open spec fn with_row(groups: Seq<TableGroup>, row: PostgresTableRow) -> Seq<TableGroup> {
    let p = group_position(groups, row.table_name@);
    if p < groups.len() {
        groups.update(
            p,
            TableGroup {
                name: groups[p].name,
                fields: groups[p].fields.push(row.field),
                flags: groups[p].flags.push(row.is_column_used_in_index),
                id: groups[p].id,
                replication: groups[p].replication,
            },
        )
    } else {
        groups.push(
            TableGroup {
                name: row.table_name@,
                fields: seq![row.field],
                flags: seq![row.is_column_used_in_index],
                id: row.table_id,
                replication: row.replication_type@,
            },
        )
    }
}

/// The tables of the rows, in the order in which they first occur, each
/// with its columns in the order of the rows.
pub open spec fn grouped_tables(rows: Seq<PostgresTableRow>) -> Seq<TableGroup>
    decreases rows.len(),
{
    if rows.len() == 0 {
        Seq::<TableGroup>::empty()
    } else {
        with_row(grouped_tables(rows.drop_last()), rows.last())
    }
}

/// What a named table holds.
pub open spec fn group_view(t: (String, PostgresTable)) -> TableGroup {
    TableGroup {
        name: t.0@,
        fields: t.1.columns(),
        flags: t.1.index_flags(),
        id: t.1.id(),
        replication: t.1.replication(),
    }
}

/// What each of the named tables holds.
pub open spec fn group_views(tables: Seq<(String, PostgresTable)>) -> Seq<TableGroup> {
    tables.map_values(|t: (String, PostgresTable)| group_view(t))
}

/// The groups in the order of the tables that are asked for, or the name
/// of the first of these that has no group; the groups as they are where
/// no tables are asked for.
pub open spec fn sorted_groups(tables: Seq<TableInfo>, groups: Seq<TableGroup>) -> Result<
    Seq<TableGroup>,
    Seq<char>,
>
    decreases tables.len(),
{
    if tables.len() == 0 {
        Ok(Seq::<TableGroup>::empty())
    } else {
        match sorted_groups(tables.drop_last(), groups) {
            Err(name) => Err(name),
            Ok(before) => {
                let p = group_position(groups, tables.last().table_name@);
                if p < groups.len() {
                    Ok(before.push(groups[p]))
                } else {
                    Err(tables.last().table_name@)
                }
            },
        }
    }
}

/// The position of a table is that of the first group of its name.
pub proof fn lemma_group_position(groups: Seq<TableGroup>, name: Seq<char>, p: int)
    requires
        0 <= p <= groups.len(),
        forall|j: int| 0 <= j < p ==> (#[trigger] groups[j]).name != name,
        p < groups.len() ==> groups[p].name == name,
    ensures
        group_position(groups, name) == p,
    decreases groups.len(),
{
    if groups.len() > 0 && p > 0 {
        assert(groups[0].name != name);
        let rest = groups.drop_first();
        assert forall|j: int| 0 <= j < p - 1 implies (#[trigger] rest[j]).name != name by {
            assert(rest[j] == groups[j + 1]);
        }
        lemma_group_position(rest, name, p - 1);
    }
}

fn find_group(tables: &Vec<(String, PostgresTable)>, name: &str) -> (p: usize)
    ensures
        p == group_position(group_views(tables@), name@),
        p <= tables@.len(),
{
    let mut p: usize = 0;
    while p < tables.len() && !str_eq(tables[p].0.as_str(), name)
        invariant
            p <= tables@.len(),
            forall|j: int| 0 <= j < p ==> (#[trigger] group_views(tables@)[j]).name != name@,
        decreases tables@.len() - p,
    {
        p += 1;
    }
    proof {
        if p < tables@.len() {
            assert(group_views(tables@)[p as int].name == name@);
        }
        lemma_group_position(group_views(tables@), name@, p as int);
    }
    p
}

impl SchemaHelper {
    /// Reads the rows of the catalog that are asked for. The first row that
    /// cannot be read is the error.
    pub fn read_rows(&self, rows: &Vec<PostgresRow>, tables: Option<&[TableInfo]>) -> (r: Result<
        Vec<PostgresTableRow>,
        PostgresSchemaError,
    >)
        ensures
            match r {
                Ok(out) => rows_read(rows@, tables_view(tables), out@),
                Err(e) => exists|n: int| #[trigger] first_failure(rows@, tables_view(tables), n, e),
            },
    {
        let mut out: Vec<PostgresTableRow> = Vec::new();
        let mut n: usize = 0;
        while n < rows.len()
            invariant
                n <= rows@.len(),
                rows_read(rows@.subrange(0, n as int), tables_view(tables), out@),
                forall|j: int|
                    0 <= j < n && column_selected(
                        tables_view(tables),
                        (#[trigger] rows@[j]).table_name@,
                        rows@[j].column_name@,
                        true,
                    ) ==> !row_fails(rows@[j], is_builtin_type(rows@[j].type_oid)),
            decreases rows@.len() - n,
        {
            let row = &rows[n];
            proof {
                let head = rows@.subrange(0, n + 1);
                assert(head.drop_last() =~= rows@.subrange(0, n as int));
                assert(head.last() == rows@[n as int]);
            }
            if is_column_selected(
                tables,
                row.table_name.as_str(),
                row.column_name.as_str(),
                true,
            ) {
                match self.convert_row(row) {
                    Ok(read) => {
                        let ghost before = out@;
                        out.push(read);
                        assert(out@.drop_last() =~= before);
                    },
                    Err(e) => {
                        assert(first_failure(rows@, tables_view(tables), n as int, e));
                        return Err(e);
                    },
                }
            }
            n += 1;
        }
        assert(rows@.subrange(0, n as int) =~= rows@);
        Ok(out)
    }

    /// Puts the rows of each table together.
    pub fn group_rows(read: Vec<PostgresTableRow>) -> (r: Vec<(String, PostgresTable)>)
        ensures
            group_views(r@) == grouped_tables(read@),
    {
        let mut tables: Vec<(String, PostgresTable)> = Vec::new();
        let mut n: usize = 0;
        while n < read.len()
            invariant
                n <= read@.len(),
                group_views(tables@) == grouped_tables(read@.subrange(0, n as int)),
            decreases read@.len() - n,
        {
            let row = &read[n];
            proof {
                let head = read@.subrange(0, n + 1);
                assert(head.drop_last() =~= read@.subrange(0, n as int));
                assert(head.last() == read@[n as int]);
            }
            let ghost before = group_views(tables@);
            let p = find_group(&tables, row.table_name.as_str());
            if p < tables.len() {
                let (name, mut table) = tables.remove(p);
                table.add_field(row.field.clone(), row.is_column_used_in_index);
                tables.insert(p, (name, table));
                assert(group_views(tables@) =~= with_row(before, *row));
            } else {
                let mut table = PostgresTable::new(row.table_id, row.replication_type.clone());
                table.add_field(row.field.clone(), row.is_column_used_in_index);
                tables.push((row.table_name.clone(), table));
                assert(group_views(tables@) =~= with_row(before, *row));
            }
            n += 1;
        }
        assert(read@.subrange(0, n as int) =~= read@);
        tables
    }

    /// Puts the tables in the order in which they are asked for. A table
    /// that is asked for and has no columns in the catalog is an error.
    #[verifier::loop_isolation(false)]
    pub fn sort_schemas(tables: Option<&[TableInfo]>, mapped: &Vec<(String, PostgresTable)>) -> (r:
        Result<Vec<(String, PostgresTable)>, PostgresSchemaError>)
        ensures
            match tables {
                None => r matches Ok(out) && group_views(out@) == group_views(mapped@),
                Some(ts) => match sorted_groups(ts@, group_views(mapped@)) {
                    Ok(groups) => r matches Ok(out) && group_views(out@) == groups,
                    Err(name) => r matches Err(PostgresSchemaError::TableNotFound(n)) && n@
                        == name,
                },
            },
    {
        let mut out: Vec<(String, PostgresTable)> = Vec::new();
        match tables {
            None => {
                let mut i: usize = 0;
                while i < mapped.len()
                    invariant
                        i <= mapped@.len(),
                        group_views(out@) == group_views(mapped@).subrange(0, i as int),
                    decreases mapped@.len() - i,
                {
                    let ghost before = group_views(out@);
                    out.push((mapped[i].0.clone(), mapped[i].1.clone()));
                    assert(group_views(out@) =~= before.push(group_view(mapped@[i as int])));
                    i += 1;
                    assert(group_views(out@) =~= group_views(mapped@).subrange(0, i as int));
                }
                assert(group_views(mapped@).subrange(0, i as int) =~= group_views(mapped@));
                Ok(out)
            },
            Some(ts) => {
                let mut i: usize = 0;
                assert(ts@.subrange(0, 0) =~= Seq::<TableInfo>::empty());
                assert(group_views(out@) =~= Seq::<TableGroup>::empty());
                while i < ts.len()
                    invariant
                        i <= ts@.len(),
                        sorted_groups(ts@.subrange(0, i as int), group_views(mapped@)) == Ok::<
                            Seq<TableGroup>,
                            Seq<char>,
                        >(group_views(out@)),
                    decreases ts@.len() - i,
                {
                    proof {
                        let head = ts@.subrange(0, i + 1);
                        assert(head.drop_last() =~= ts@.subrange(0, i as int));
                        assert(head.last() == ts@[i as int]);
                    }
                    let p = find_group(mapped, ts[i].table_name.as_str());
                    if p >= mapped.len() {
                        proof {
                            lemma_sorted_groups_error(ts@, group_views(mapped@), i as int);
                        }
                        return Err(
                            PostgresSchemaError::TableNotFound(ts[i].table_name.clone()),
                        );
                    }
                    let ghost before = group_views(out@);
                    out.push((mapped[p].0.clone(), mapped[p].1.clone()));
                    assert(group_views(out@) =~= before.push(group_views(mapped@)[p as int]));
                    i += 1;
                }
                assert(ts@.subrange(0, i as int) =~= ts@);
                Ok(out)
            },
        }
    }
}

/// The first table without a group is the error of the whole order.
pub proof fn lemma_sorted_groups_error(tables: Seq<TableInfo>, groups: Seq<TableGroup>, i: int)
    requires
        0 <= i < tables.len(),
        sorted_groups(tables.subrange(0, i), groups).is_ok(),
        group_position(groups, tables[i].table_name@) >= groups.len(),
    ensures
        sorted_groups(tables, groups) == Err::<Seq<TableGroup>, Seq<char>>(tables[i].table_name@),
    decreases tables.len() - i,
{
    let head = tables.subrange(0, i + 1);
    assert(head.drop_last() =~= tables.subrange(0, i));
    assert(head.last() == tables[i]);
    assert(sorted_groups(head, groups) == Err::<Seq<TableGroup>, Seq<char>>(
        tables[i].table_name@,
    ));
    lemma_sorted_groups_error_stays(tables, groups, i + 1);
}

/// An error of the order of the first tables is the error of the order of
/// all of them.
pub proof fn lemma_sorted_groups_error_stays(
    tables: Seq<TableInfo>,
    groups: Seq<TableGroup>,
    n: int,
)
    requires
        0 <= n <= tables.len(),
        sorted_groups(tables.subrange(0, n), groups).is_err(),
    ensures
        sorted_groups(tables, groups) == sorted_groups(tables.subrange(0, n), groups),
    decreases tables.len() - n,
{
    if n < tables.len() {
        let head = tables.subrange(0, n + 1);
        assert(head.drop_last() =~= tables.subrange(0, n));
        lemma_sorted_groups_error_stays(tables, groups, n + 1);
    } else {
        assert(tables.subrange(0, n) =~= tables);
    }
}

/// What `get_schemas` answers where every row that is asked for can be
/// read, `read` being what the rows tell and `sorted` the tables in the
/// order in which they are asked for.
pub open spec fn schemas_of(
    rows: Seq<PostgresRow>,
    tables: Option<Seq<TableInfo>>,
    read: Seq<PostgresTableRow>,
    sorted: Seq<(String, PostgresTable)>,
    r: Result<Vec<SourceSchema>, PostgresConnectorError>,
) -> bool {
    &&& rows_read(rows, tables, read)
    &&& match tables {
        None => group_views(sorted) == grouped_tables(read) && schemas_wrapped(sorted, r),
        Some(ts) => match sorted_groups(ts, grouped_tables(read)) {
            Ok(groups) => group_views(sorted) == groups && schemas_wrapped(sorted, r),
            Err(name) => r matches Err(
                PostgresConnectorError::PostgresSchemaError(PostgresSchemaError::TableNotFound(n)),
            ) && n@ == name,
        },
    }
}

/// The answer of `map_columns_to_schemas`, as the error of a connector
/// where it is one.
pub open spec fn schemas_wrapped(
    sorted: Seq<(String, PostgresTable)>,
    r: Result<Vec<SourceSchema>, PostgresConnectorError>,
) -> bool {
    match r {
        Ok(schemas) => schemas_mapped(sorted, Ok(schemas)),
        Err(PostgresConnectorError::PostgresSchemaError(e)) => schemas_mapped(sorted, Err(e)),
        Err(_) => false,
    }
}

/// What `get_schemas` answers for the rows of the catalog: the error of the
/// first row that is asked for and cannot be read, and else the schemas of
/// the tables of the rows.
pub open spec fn schemas_read(
    rows: Seq<PostgresRow>,
    tables: Option<Seq<TableInfo>>,
    r: Result<Vec<SourceSchema>, PostgresConnectorError>,
) -> bool {
    ||| exists|n: int, e: PostgresSchemaError| #[trigger]
        first_failure(rows, tables, n, e) && r == Err::<
            Vec<SourceSchema>,
            PostgresConnectorError,
        >(PostgresConnectorError::PostgresSchemaError(e))
    ||| exists|read: Seq<PostgresTableRow>, sorted: Seq<(String, PostgresTable)>| #[trigger]
        schemas_of(rows, tables, read, sorted, r)
}

impl SchemaHelper {
    /// The schemas of the tables of the source, from the rows of its
    /// catalog: the rows that are asked for are read and put together table
    /// by table, the tables are put in the order in which they are asked
    /// for, and each gets its schema.
    pub fn get_schemas(&self, rows: &Vec<PostgresRow>, tables: Option<&[TableInfo]>) -> (r: Result<
        Vec<SourceSchema>,
        PostgresConnectorError,
    >)
        ensures
            schemas_read(rows@, tables_view(tables), r),
    {
        let read = match self.read_rows(rows, tables) {
            Ok(read) => read,
            Err(e) => {
                let r = Err(PostgresConnectorError::PostgresSchemaError(e));
                proof {
                    let n = choose|n: int| #[trigger]
                        first_failure(rows@, tables_view(tables), n, e);
                    assert(first_failure(rows@, tables_view(tables), n, e));
                }
                return r;
            },
        };
        let ghost read_view = read@;
        let columns_map = Self::group_rows(read);
        let sorted = match Self::sort_schemas(tables, &columns_map) {
            Ok(sorted) => sorted,
            Err(e) => {
                let r = Err(PostgresConnectorError::PostgresSchemaError(e));
                assert(schemas_of(
                    rows@,
                    tables_view(tables),
                    read_view,
                    Seq::<(String, PostgresTable)>::empty(),
                    r,
                ));
                return r;
            },
        };
        let ghost sorted_view = sorted@;
        let r = match Self::map_columns_to_schemas(sorted) {
            Ok(schemas) => Ok(schemas),
            Err(e) => Err(PostgresConnectorError::PostgresSchemaError(e)),
        };
        assert(schemas_of(rows@, tables_view(tables), read_view, sorted_view, r));
        r
    }
}

/// What a validation finds: a row of the catalog, by its position, or a
/// column that is asked for and that the catalog lacks.
pub enum Finding {
    Row(int),
    Missing(Seq<char>),
}

/// The position of the table `name` among the findings, and their number
/// where it is not among them.
pub open spec fn finding_position(found: Seq<(Seq<char>, Seq<Finding>)>, name: Seq<char>) -> int
    decreases found.len(),
{
    if found.len() == 0 {
        0
    } else if found.first().0 == name {
        0
    } else {
        1 + finding_position(found.drop_first(), name)
    }
}

/// The findings with the row at position `n` as one more finding of its
/// table, which is new where it had none.
pub open spec fn with_row_finding(
    found: Seq<(Seq<char>, Seq<Finding>)>,
    table: Seq<char>,
    n: int,
) -> Seq<(Seq<char>, Seq<Finding>)> {
    let p = finding_position(found, table);
    if p < found.len() {
        found.update(p, (table, found[p].1.push(Finding::Row(n))))
    } else {
        found.push((table, seq![Finding::Row(n)]))
    }
}

/// The findings with a column that the catalog lacks: it is one more
/// finding of its table; a table without findings gets none, and becomes
/// one with none.
pub open spec fn with_missing(
    found: Seq<(Seq<char>, Seq<Finding>)>,
    table: Seq<char>,
    column: Seq<char>,
) -> Seq<(Seq<char>, Seq<Finding>)> {
    let p = finding_position(found, table);
    if p < found.len() {
        found.update(p, (table, found[p].1.push(Finding::Missing(column))))
    } else {
        found.push((table, Seq::<Finding>::empty()))
    }
}

/// The findings of the rows of the catalog: each row of a column that is
/// asked for, under its table.
pub open spec fn row_findings(rows: Seq<PostgresRow>, tables: Seq<TableInfo>) -> Seq<
    (Seq<char>, Seq<Finding>),
>
    decreases rows.len(),
{
    if rows.len() == 0 {
        Seq::empty()
    } else {
        let before = row_findings(rows.drop_last(), tables);
        let row = rows.last();
        if column_selected(Some(tables), row.table_name@, row.column_name@, false) {
            with_row_finding(before, row.table_name@, rows.len() - 1)
        } else {
            before
        }
    }
}

/// Whether one of the findings is a row of the column `column`.
pub open spec fn has_row_of(rows: Seq<PostgresRow>, findings: Seq<Finding>, column: Seq<char>) -> bool {
    exists|i: int|
        0 <= i < findings.len() && (#[trigger] findings[i] matches Finding::Row(n) && 0 <= n
            < rows.len() && rows[n].column_name@ == column)
}

/// The rows found for the table `table`.
pub open spec fn findings_of(found: Seq<(Seq<char>, Seq<Finding>)>, table: Seq<char>) -> Seq<
    Finding,
> {
    let p = finding_position(found, table);
    if p < found.len() {
        found[p].1
    } else {
        Seq::<Finding>::empty()
    }
}

/// The findings with those of the columns `columns` of the table `table`
/// that are not among the rows `known`.
pub open spec fn with_missing_columns(
    rows: Seq<PostgresRow>,
    found: Seq<(Seq<char>, Seq<Finding>)>,
    table: Seq<char>,
    known: Seq<Finding>,
    columns: Seq<Seq<char>>,
) -> Seq<(Seq<char>, Seq<Finding>)>
    decreases columns.len(),
{
    if columns.len() == 0 {
        found
    } else {
        let before = with_missing_columns(rows, found, table, known, columns.drop_last());
        if has_row_of(rows, known, columns.last()) {
            before
        } else {
            with_missing(before, table, columns.last())
        }
    }
}

/// The findings with the columns that each table asks for and the catalog
/// lacks, table by table.
pub open spec fn with_missing_of_tables(
    rows: Seq<PostgresRow>,
    found: Seq<(Seq<char>, Seq<Finding>)>,
    tables: Seq<TableInfo>,
) -> Seq<(Seq<char>, Seq<Finding>)>
    decreases tables.len(),
{
    if tables.len() == 0 {
        found
    } else {
        let before = with_missing_of_tables(rows, found, tables.drop_last());
        let table = tables.last();
        match table.columns {
            None => before,
            Some(columns) => with_missing_columns(
                rows,
                before,
                table.table_name@,
                findings_of(before, table.table_name@),
                column_names(columns@),
            ),
        }
    }
}

/// What a validation of the tables finds in the rows of the catalog.
pub open spec fn validated(rows: Seq<PostgresRow>, tables: Seq<TableInfo>) -> Seq<
    (Seq<char>, Seq<Finding>),
> {
    with_missing_of_tables(rows, row_findings(rows, tables), tables)
}

/// The entry of a result tells the finding.
pub open spec fn tells(
    entry: ColumnValidation,
    finding: Finding,
    rows: Seq<PostgresRow>,
    table: Seq<char>,
) -> bool {
    match finding {
        Finding::Row(n) => {
            &&& 0 <= n < rows.len()
            &&& entry.0 matches Some(name)
            &&& name@ == rows[n].column_name@
            &&& match entry.1 {
                Ok(()) => !row_fails(rows[n], is_builtin_type(rows[n].type_oid)),
                Err(ConnectorError::PostgresConnectorError(
                    PostgresConnectorError::PostgresSchemaError(e),
                )) => row_converts(
                    rows[n],
                    is_builtin_type(rows[n].type_oid),
                    Err::<PostgresTableRow, PostgresSchemaError>(e),
                ),
                Err(_) => false,
            }
        },
        Finding::Missing(column) => {
            &&& entry.0.is_none()
            &&& entry.1 matches Err(
                ConnectorError::PostgresConnectorError(
                    PostgresConnectorError::ColumnNotFound(c, t),
                ),
            )
            &&& c@ == column
            &&& t@ == table
        },
    }
}

/// The entries of a table tell its findings, one by one.
pub open spec fn table_tells(
    result: (String, Vec<ColumnValidation>),
    found: (Seq<char>, Seq<Finding>),
    rows: Seq<PostgresRow>,
) -> bool {
    &&& result.0@ == found.0
    &&& result.1@.len() == found.1.len()
    &&& forall|i: int|
        0 <= i < found.1.len() ==> tells(#[trigger] result.1@[i], found.1[i], rows, found.0)
}

/// The results tell the findings, table by table.
pub open spec fn results_tell(
    results: Seq<(String, Vec<ColumnValidation>)>,
    found: Seq<(Seq<char>, Seq<Finding>)>,
    rows: Seq<PostgresRow>,
) -> bool {
    &&& results.len() == found.len()
    &&& forall|k: int| 0 <= k < found.len() ==> table_tells(#[trigger] results[k], found[k], rows)
}

/// The position of a table is that of its first findings.
pub proof fn lemma_finding_position(found: Seq<(Seq<char>, Seq<Finding>)>, name: Seq<char>, p: int)
    requires
        0 <= p <= found.len(),
        forall|j: int| 0 <= j < p ==> (#[trigger] found[j]).0 != name,
        p < found.len() ==> found[p].0 == name,
    ensures
        finding_position(found, name) == p,
    decreases found.len(),
{
    if found.len() > 0 && p > 0 {
        assert(found[0].0 != name);
        let rest = found.drop_first();
        assert forall|j: int| 0 <= j < p - 1 implies (#[trigger] rest[j]).0 != name by {
            assert(rest[j] == found[j + 1]);
        }
        lemma_finding_position(rest, name, p - 1);
    }
}

/// The table at the position of a name has that name, and no table before
/// it has.
pub proof fn lemma_finding_position_is_first(found: Seq<(Seq<char>, Seq<Finding>)>, name: Seq<char>)
    ensures
        0 <= finding_position(found, name) <= found.len(),
        finding_position(found, name) < found.len() ==> found[finding_position(found, name)].0
            == name,
        forall|j: int| 0 <= j < finding_position(found, name) ==> (#[trigger] found[j]).0 != name,
    decreases found.len(),
{
    if found.len() > 0 && found.first().0 != name {
        let rest = found.drop_first();
        lemma_finding_position_is_first(rest, name);
        assert forall|j: int| 0 <= j < finding_position(found, name) implies (
        #[trigger] found[j]).0 != name by {
            if j > 0 {
                assert(rest[j - 1] == found[j]);
            }
        }
    }
}

fn find_result(
    results: &Vec<(String, Vec<ColumnValidation>)>,
    name: &str,
    Ghost(found): Ghost<Seq<(Seq<char>, Seq<Finding>)>>,
    Ghost(rows): Ghost<Seq<PostgresRow>>,
) -> (p: usize)
    requires
        results_tell(results@, found, rows),
    ensures
        p == finding_position(found, name@),
        p <= results@.len(),
{
    let mut p: usize = 0;
    while p < results.len() && !str_eq(results[p].0.as_str(), name)
        invariant
            p <= results@.len(),
            results_tell(results@, found, rows),
            forall|j: int| 0 <= j < p ==> (#[trigger] found[j]).0 != name@,
        decreases results@.len() - p,
    {
        assert(table_tells(results@[p as int], found[p as int], rows));
        p += 1;
    }
    proof {
        if p < results@.len() {
            assert(table_tells(results@[p as int], found[p as int], rows));
        }
        lemma_finding_position(found, name@, p as int);
    }
    p
}

fn add_entry(
    results: &mut Vec<(String, Vec<ColumnValidation>)>,
    p: usize,
    table: &str,
    entry: Option<ColumnValidation>,
    Ghost(found): Ghost<Seq<(Seq<char>, Seq<Finding>)>>,
    Ghost(rows): Ghost<Seq<PostgresRow>>,
    Ghost(finding): Ghost<Finding>,
)
    requires
        results_tell(old(results)@, found, rows),
        p == finding_position(found, table@),
        p <= found.len(),
        entry matches Some(e) ==> tells(e, finding, rows, table@),
        p < found.len() ==> entry.is_some(),
    ensures
        results_tell(
            final(results)@,
            if p < found.len() {
                found.update(p as int, (table@, found[p as int].1.push(finding)))
            } else {
                found.push(
                    (
                        table@,
                        match entry {
                            Some(_) => seq![finding],
                            None => Seq::<Finding>::empty(),
                        },
                    ),
                )
            },
            rows,
        ),
{
    let ghost before = results@;
    let ghost given = entry.is_some();
    proof {
        lemma_finding_position_is_first(found, table@);
    }
    if p < results.len() {
        assert(table_tells(before[p as int], found[p as int], rows));
        let (name, mut entries) = results.remove(p);
        match entry {
            Some(e) => {
                entries.push(e);
            },
            None => {},
        }
        results.insert(p, (name, entries));
        proof {
            let after = found.update(p as int, (table@, found[p as int].1.push(finding)));
            assert forall|k: int| 0 <= k < after.len() implies table_tells(
                #[trigger] results@[k],
                after[k],
                rows,
            ) by {
                if k != p {
                    assert(results@[k] == before[k]);
                    assert(table_tells(before[k], found[k], rows));
                } else {
                    assert forall|i: int| 0 <= i < after[k].1.len() implies tells(
                        #[trigger] results@[k].1@[i],
                        after[k].1[i],
                        rows,
                        after[k].0,
                    ) by {
                        if i < found[p as int].1.len() {
                            assert(results@[k].1@[i] == before[p as int].1@[i]);
                        }
                    }
                }
            }
        }
    } else {
        let mut entries: Vec<ColumnValidation> = Vec::new();
        match entry {
            Some(e) => {
                entries.push(e);
            },
            None => {},
        }
        results.push((table.to_owned(), entries));
        proof {
            let after = found.push(
                (
                    table@,
                    if given {
                        seq![finding]
                    } else {
                        Seq::<Finding>::empty()
                    },
                ),
            );
            assert forall|k: int| 0 <= k < after.len() implies table_tells(
                #[trigger] results@[k],
                after[k],
                rows,
            ) by {
                if k < found.len() {
                    assert(results@[k] == before[k]);
                    assert(table_tells(before[k], found[k], rows));
                }
            }
        }
    }
}

/// Whether one of the texts is `name`.
pub open spec fn names_hold(names: Seq<String>, name: Seq<char>) -> bool {
    exists|i: int| 0 <= i < names.len() && (#[trigger] names[i])@ == name
}

fn name_in(names: &Vec<String>, name: &str) -> (r: bool)
    ensures
        r == names_hold(names@, name@),
{
    let mut i: usize = 0;
    while i < names.len()
        invariant
            i <= names@.len(),
            forall|j: int| 0 <= j < i ==> (#[trigger] names@[j])@ != name@,
        decreases names@.len() - i,
    {
        if str_eq(names[i].as_str(), name) {
            return true;
        }
        i += 1;
    }
    false
}

fn known_columns(
    entries: &Vec<ColumnValidation>,
    Ghost(findings): Ghost<Seq<Finding>>,
    Ghost(rows): Ghost<Seq<PostgresRow>>,
    Ghost(table): Ghost<Seq<char>>,
) -> (r: Vec<String>)
    requires
        entries@.len() == findings.len(),
        forall|i: int|
            0 <= i < findings.len() ==> tells(#[trigger] entries@[i], findings[i], rows, table),
    ensures
        forall|c: Seq<char>| #[trigger] names_hold(r@, c) <==> has_row_of(rows, findings, c),
{
    let mut names: Vec<String> = Vec::new();
    let mut i: usize = 0;
    while i < entries.len()
        invariant
            i <= entries@.len(),
            entries@.len() == findings.len(),
            forall|k: int|
                0 <= k < findings.len() ==> tells(#[trigger] entries@[k], findings[k], rows, table),
            forall|c: Seq<char>| #[trigger]
                names_hold(names@, c) <==> has_row_of(rows, findings.subrange(0, i as int), c),
        decreases entries@.len() - i,
    {
        let ghost before = names@;
        let ghost done = findings.subrange(0, i as int);
        let ghost next = findings.subrange(0, i + 1);
        assert(tells(entries@[i as int], findings[i as int], rows, table));
        match &entries[i].0 {
            Some(name) => {
                names.push(name.clone());
                proof {
                    assert forall|c: Seq<char>| #[trigger]
                        names_hold(names@, c) <==> has_row_of(rows, next, c) by {
                        if names_hold(names@, c) {
                            let k = choose|k: int| 0 <= k < names@.len()
                                && (#[trigger] names@[k])@ == c;
                            if k < before.len() {
                                assert(before[k]@ == c);
                                assert(names_hold(before, c));
                                let j = choose|j: int|
                                    0 <= j < done.len() && (#[trigger] done[j] matches Finding::Row(
                                        n,
                                    ) && 0 <= n < rows.len() && rows[n].column_name@ == c);
                                assert(next[j] == done[j]);
                            } else {
                                assert(next[i as int] == findings[i as int]);
                            }
                        }
                        if has_row_of(rows, next, c) {
                            let j = choose|j: int|
                                0 <= j < next.len() && (#[trigger] next[j] matches Finding::Row(n)
                                    && 0 <= n < rows.len() && rows[n].column_name@ == c);
                            if j < i {
                                assert(done[j] == next[j]);
                                assert(has_row_of(rows, done, c));
                                assert(names_hold(before, c));
                                let k = choose|k: int|
                                    0 <= k < before.len() && (#[trigger] before[k])@ == c;
                                assert(names@[k]@ == c);
                            } else {
                                assert(names@[before.len() as int]@ == c);
                            }
                        }
                    }
                }
            },
            None => {
                proof {
                    assert forall|c: Seq<char>| #[trigger]
                        names_hold(names@, c) <==> has_row_of(rows, next, c) by {
                        if names_hold(names@, c) {
                            let j = choose|j: int|
                                0 <= j < done.len() && (#[trigger] done[j] matches Finding::Row(n)
                                    && 0 <= n < rows.len() && rows[n].column_name@ == c);
                            assert(next[j] == done[j]);
                        }
                        if has_row_of(rows, next, c) {
                            let j = choose|j: int|
                                0 <= j < next.len() && (#[trigger] next[j] matches Finding::Row(n)
                                    && 0 <= n < rows.len() && rows[n].column_name@ == c);
                            assert(next[i as int] == findings[i as int]);
                            assert(j < i);
                            assert(done[j] == next[j]);
                        }
                    }
                }
            },
        }
        i += 1;
    }
    assert(findings.subrange(0, i as int) =~= findings);
    names
}

impl SchemaHelper {
    /// Holds the tables that are asked for against the rows of the
    /// catalog. Each row of a column that is asked for is read, and found
    /// valid or not; each column that is asked for and has no row is found
    /// missing, where its table has findings.
    pub fn validate(&self, rows: &Vec<PostgresRow>, tables: &[TableInfo]) -> (r: Result<
        ValidationResults,
        PostgresConnectorError,
    >)
        ensures
            r matches Ok(results) && results_tell(results@, validated(rows@, tables@), rows@),
    {
        let mut results: Vec<(String, Vec<ColumnValidation>)> = Vec::new();
        let ghost mut found: Seq<(Seq<char>, Seq<Finding>)> = Seq::empty();
        let mut n: usize = 0;
        while n < rows.len()
            invariant
                n <= rows@.len(),
                results_tell(results@, found, rows@),
                found == row_findings(rows@.subrange(0, n as int), tables@),
            decreases rows@.len() - n,
        {
            let row = &rows[n];
            proof {
                let head = rows@.subrange(0, n + 1);
                assert(head.drop_last() =~= rows@.subrange(0, n as int));
                assert(head.last() == rows@[n as int]);
            }
            if is_column_selected(
                Some(tables),
                row.table_name.as_str(),
                row.column_name.as_str(),
                false,
            ) {
                let row_result = match self.convert_row(row) {
                    Ok(_) => Ok(()),
                    Err(e) => Err(
                        ConnectorError::PostgresConnectorError(
                            PostgresConnectorError::PostgresSchemaError(e),
                        ),
                    ),
                };
                let p = find_result(&results, row.table_name.as_str(), Ghost(found), Ghost(rows@));
                add_entry(
                    &mut results,
                    p,
                    row.table_name.as_str(),
                    Some((Some(row.column_name.clone()), row_result)),
                    Ghost(found),
                    Ghost(rows@),
                    Ghost(Finding::Row(n as int)),
                );
                proof {
                    found = with_row_finding(found, row.table_name@, n as int);
                }
            }
            n += 1;
        }
        assert(rows@.subrange(0, n as int) =~= rows@);
        let mut t: usize = 0;
        while t < tables.len()
            invariant
                t <= tables@.len(),
                results_tell(results@, found, rows@),
                found == with_missing_of_tables(
                    rows@,
                    row_findings(rows@, tables@),
                    tables@.subrange(0, t as int),
                ),
            decreases tables@.len() - t,
        {
            let table = &tables[t];
            proof {
                let head = tables@.subrange(0, t + 1);
                assert(head.drop_last() =~= tables@.subrange(0, t as int));
                assert(head.last() == tables@[t as int]);
            }
            if let Some(columns) = &table.columns {
                let ghost start = found;
                let ghost known = findings_of(found, table.table_name@);
                let at = find_result(
                    &results,
                    table.table_name.as_str(),
                    Ghost(found),
                    Ghost(rows@),
                );
                let existing_columns = if at < results.len() {
                    assert(table_tells(results@[at as int], found[at as int], rows@));
                    known_columns(
                        &results[at].1,
                        Ghost(known),
                        Ghost(rows@),
                        Ghost(found[at as int].0),
                    )
                } else {
                    let none: Vec<String> = Vec::new();
                    none
                };
                assert(forall|c: Seq<char>| #[trigger]
                    names_hold(existing_columns@, c) <==> has_row_of(rows@, known, c));
                let mut c: usize = 0;
                while c < columns.len()
                    invariant
                        c <= columns@.len(),
                        results_tell(results@, found, rows@),
                        forall|name: Seq<char>| #[trigger]
                            names_hold(existing_columns@, name) <==> has_row_of(
                                rows@,
                                known,
                                name,
                            ),
                        found == with_missing_columns(
                            rows@,
                            start,
                            table.table_name@,
                            known,
                            column_names(columns@).subrange(0, c as int),
                        ),
                    decreases columns@.len() - c,
                {
                    let name = &columns[c].name;
                    proof {
                        let head = column_names(columns@).subrange(0, c + 1);
                        assert(head.drop_last() =~= column_names(columns@).subrange(0, c as int));
                        assert(head.last() == name@);
                    }
                    if !name_in(&existing_columns, name.as_str()) {
                        let p = find_result(
                            &results,
                            table.table_name.as_str(),
                            Ghost(found),
                            Ghost(rows@),
                        );
                        let entry = if p < results.len() {
                            Some(
                                (
                                    None,
                                    Err(
                                        ConnectorError::PostgresConnectorError(
                                            PostgresConnectorError::ColumnNotFound(
                                                name.clone(),
                                                table.table_name.clone(),
                                            ),
                                        ),
                                    ),
                                ),
                            )
                        } else {
                            None
                        };
                        add_entry(
                            &mut results,
                            p,
                            table.table_name.as_str(),
                            entry,
                            Ghost(found),
                            Ghost(rows@),
                            Ghost(Finding::Missing(name@)),
                        );
                        proof {
                            found = with_missing(found, table.table_name@, name@);
                        }
                    }
                    c += 1;
                }
                assert(column_names(columns@).subrange(0, c as int) =~= column_names(columns@));
            }
            t += 1;
        }
        assert(tables@.subrange(0, t as int) =~= tables@);
        Ok(results)
    }
}

/// The query for the columns of the tables of a schema, up to the
/// condition on the tables.
pub const SQL_HEAD: &'static str = "
SELECT table_info.table_name,
       table_info.column_name,
       CASE WHEN table_info.is_nullable = 'NO' THEN false ELSE true END AS is_nullable,
       CASE
           WHEN pc.relreplident = 'd' OR pc.relreplident = 'i'
               THEN pa.attrelid IS NOT NULL
           WHEN pc.relreplident = 'n' THEN false
           WHEN pc.relreplident = 'f' THEN true
           ELSE false
           END                                                          AS is_column_used_in_index,
       pc.oid,
       pc.relreplident,
       pt.oid                                                           AS type_oid,
       t.table_type
FROM information_schema.columns table_info
         LEFT JOIN information_schema.tables t ON t.table_name = table_info.table_name
         LEFT JOIN pg_class pc ON t.table_name = pc.relname
         LEFT JOIN pg_type pt ON table_info.udt_name = pt.typname
         LEFT JOIN pg_index pi ON pc.oid = pi.indrelid AND
                                  ((pi.indisreplident = true AND pc.relreplident = 'i') OR (pi.indisprimary AND pc.relreplident = 'd'))
         LEFT JOIN pg_attribute pa ON
             pa.attrelid = pi.indrelid
                 AND pa.attnum = ANY (pi.indkey)
                 AND pa.attnum > 0
                 AND pa.attname = table_info.column_name
WHERE t.table_schema = $1 AND ";

/// The query from the condition on the tables on.
pub const SQL_TAIL: &'static str = "
ORDER BY table_info.table_schema,
         table_info.table_catalog,
         table_info.table_name,
         table_info.ordinal_position;";

/// The condition for the given tables, which are the second parameter of
/// the query.
pub const GIVEN_TABLES: &'static str = "t.table_name = ANY($2)";

/// The condition for every table of the schema.
pub const BASE_TABLES: &'static str = "t.table_type = 'BASE TABLE'";

/// The names of the tables as the catalog knows them.
pub open spec fn catalog_names(tables: Seq<TableInfo>) -> Seq<Seq<char>> {
    tables.map_values(|t: TableInfo| t.table_name@)
}

impl SchemaHelper {
    /// The query for the columns, and the tables that are its second
    /// parameter where tables are given; its first parameter is the schema.
    pub fn get_columns(&self, table_name: Option<&[TableInfo]>) -> (r: (String, Option<Vec<String>>))
        ensures
            match table_name {
                Some(tables) => r.0@ == SQL_HEAD@ + GIVEN_TABLES@ + SQL_TAIL@ && (
                r.1 matches Some(names) && names@.map_values(|n: String| n@) == catalog_names(
                    tables@,
                )),
                None => r.0@ == SQL_HEAD@ + BASE_TABLES@ + SQL_TAIL@ && r.1.is_none(),
            },
    {
        let mut sql = String::from_str(SQL_HEAD);
        match table_name {
            Some(tables) => {
                sql.append(GIVEN_TABLES);
                sql.append(SQL_TAIL);
                let mut names: Vec<String> = Vec::new();
                let mut i: usize = 0;
                while i < tables.len()
                    invariant
                        i <= tables@.len(),
                        names@.len() == i,
                        forall|k: int| 0 <= k < i
                            ==> (#[trigger] names@[k])@ == tables@[k].table_name@,
                    decreases tables@.len() - i,
                {
                    names.push(tables[i].table_name.clone());
                    i += 1;
                }
                assert(names@.map_values(|n: String| n@) =~= catalog_names(tables@));
                (sql, Some(names))
            },
            None => {
                sql.append(BASE_TABLES);
                sql.append(SQL_TAIL);
                (sql, None)
            },
        }
    }
}

} // verus!
