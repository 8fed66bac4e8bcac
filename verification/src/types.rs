//! Schemas, records and the operations that change them.

use vstd::prelude::*;
use crate::bytes::bytes_eq;
use crate::errors::TypeError;
use crate::field::{field_encoding, Field, FieldType, FieldValue};

verus! {

/// Where a field comes from.
#[derive(Debug, PartialEq, Eq, PartialOrd, Ord)]
pub enum SourceDefinition {
    Table { connection: String, name: String },
    Alias { name: String },
    Dynamic,
}

impl Default for SourceDefinition {
    fn default() -> (r: Self)
        ensures
            r == SourceDefinition::Dynamic,
    {
        SourceDefinition::Dynamic
    }
}

impl Clone for SourceDefinition {
    fn clone(&self) -> (r: Self)
        ensures
            r == *self,
    {
        match self {
            SourceDefinition::Table { connection, name } => SourceDefinition::Table {
                connection: connection.clone(),
                name: name.clone(),
            },
            SourceDefinition::Alias { name } => SourceDefinition::Alias { name: name.clone() },
            SourceDefinition::Dynamic => SourceDefinition::Dynamic,
        }
    }
}

/// One column of a schema.
#[derive(Debug, PartialEq, Eq)]
pub struct FieldDefinition {
    pub name: String,
    pub typ: FieldType,
    pub nullable: bool,
    pub source: SourceDefinition,
}

impl FieldDefinition {
    pub fn new(name: String, typ: FieldType, nullable: bool, source: SourceDefinition) -> (r: Self)
        ensures
            r.name == name,
            r.typ == typ,
            r.nullable == nullable,
            r.source == source,
    {
        Self { name, typ, nullable, source }
    }
}

impl Clone for FieldDefinition {
    fn clone(&self) -> (r: Self)
        ensures
            r == *self,
    {
        FieldDefinition {
            name: self.name.clone(),
            typ: self.typ,
            nullable: self.nullable,
            source: self.source.clone(),
        }
    }
}

/// The registered identity of a schema.
#[derive(Clone, Copy, Debug, PartialEq, Eq, Structural, Hash)]
pub struct SchemaIdentifier {
    pub id: u32,
    pub version: u16,
}

/// The columns of a record and the positions of those that form its primary
/// key. Without a primary key only inserts are supported.
#[derive(Debug, PartialEq, Eq)]
pub struct Schema {
    pub identifier: Option<SchemaIdentifier>,
    pub fields: Vec<FieldDefinition>,
    pub primary_index: Vec<usize>,
}

/// What a source tells of the changes of a table.
#[derive(Clone, Copy, Debug, PartialEq, Eq, Structural)]
pub enum ReplicationChangesTrackingType {
    FullChanges,
    OnlyPK,
    Nothing,
}

impl Default for ReplicationChangesTrackingType {
    fn default() -> (r: Self)
        ensures
            r == ReplicationChangesTrackingType::Nothing,
    {
        ReplicationChangesTrackingType::Nothing
    }
}

/// The schema of one table of a source.
#[derive(Debug, PartialEq, Eq)]
pub struct SourceSchema {
    pub name: String,
    pub schema: Schema,
    pub replication_type: ReplicationChangesTrackingType,
}

impl SourceSchema {
    pub fn new(
        name: String,
        schema: Schema,
        replication_type: ReplicationChangesTrackingType,
    ) -> (r: Self)
        ensures
            r.name == name,
            r.schema == schema,
            r.replication_type == replication_type,
    {
        Self { name, schema, replication_type }
    }
}

/// The name of a type.
pub open spec fn name_of_type(typ: FieldType) -> Seq<char> {
    match typ {
        FieldType::UInt => "UInt"@,
        FieldType::Int => "Int"@,
        FieldType::Float => "Float"@,
        FieldType::Boolean => "Boolean"@,
        FieldType::String => "String"@,
        FieldType::Text => "Text"@,
        FieldType::Binary => "Binary"@,
        FieldType::Decimal => "Decimal"@,
        FieldType::Timestamp => "Timestamp"@,
        FieldType::Date => "Date"@,
        FieldType::Bson => "Bson"@,
        FieldType::Point => "Point"@,
    }
}

/// The name of a type.
pub fn field_type_name(typ: FieldType) -> (r: &'static str)
    ensures
        r@ == name_of_type(typ),
{
    match typ {
        FieldType::UInt => "UInt",
        FieldType::Int => "Int",
        FieldType::Float => "Float",
        FieldType::Boolean => "Boolean",
        FieldType::String => "String",
        FieldType::Text => "Text",
        FieldType::Binary => "Binary",
        FieldType::Decimal => "Decimal",
        FieldType::Timestamp => "Timestamp",
        FieldType::Date => "Date",
        FieldType::Bson => "Bson",
        FieldType::Point => "Point",
    }
}

/// Tells whether two texts hold the same characters.
pub fn str_eq(a: &str, b: &str) -> (r: bool)
    ensures
        r == (a@ == b@),
{
    proof {
        vstd::utf8::encode_utf8_decode_utf8(a@);
        vstd::utf8::encode_utf8_decode_utf8(b@);
    }
    bytes_eq(a.as_bytes(), b.as_bytes())
}

impl Schema {
    /// The positions of the primary key are positions of fields.
    pub open spec fn wf(&self) -> bool {
        forall|i: int|
            0 <= i < self.primary_index@.len() ==> (#[trigger] self.primary_index@[i])
                < self.fields@.len()
    }

    pub fn empty() -> (r: Schema)
        ensures
            r.identifier.is_none(),
            r.fields@ == Seq::<FieldDefinition>::empty(),
            r.primary_index@ == Seq::<usize>::empty(),
            r.wf(),
    {
        Self { identifier: None, fields: Vec::new(), primary_index: Vec::new() }
    }

    /// Appends a field; with `pk` its position joins the primary key.
    pub fn field(&mut self, f: FieldDefinition, pk: bool) -> (r: &mut Self)
        ensures
            r.identifier == old(self).identifier,
            r.fields@ == old(self).fields@.push(f),
            r.primary_index@ == (if pk {
                old(self).primary_index@.push(old(self).fields@.len() as usize)
            } else {
                old(self).primary_index@
            }),
            old(self).wf() ==> r.wf(),
            *final(self) == *final(r),
    {
        self.fields.push(f);
        if pk {
            self.primary_index.push(self.fields.len() - 1)
        }
        self
    }

    /// The first field named `name` and its position.
    pub fn get_field_index(&self, name: &str) -> (r: Result<(usize, &FieldDefinition), TypeError>)
        ensures
            match r {
                Ok((i, f)) => i < self.fields@.len() && *f == self.fields@[i as int] && f.name@
                    == name@ && forall|j: int|
                    0 <= j < i ==> (#[trigger] self.fields@[j]).name@ != name@,
                Err(e) => e matches TypeError::InvalidFieldName(n) && n@ == name@ && forall|
                    j: int,
                |
                    0 <= j < self.fields@.len() ==> (#[trigger] self.fields@[j]).name@ != name@,
            },
    {
        let mut i: usize = 0;
        while i < self.fields.len()
            invariant
                i <= self.fields@.len(),
                forall|j: int| 0 <= j < i ==> (#[trigger] self.fields@[j]).name@ != name@,
            decreases self.fields@.len() - i,
        {
            if str_eq(self.fields[i].name.as_str(), name) {
                return Ok((i, &self.fields[i]));
            }
            i += 1;
        }
        Err(TypeError::InvalidFieldName(name.to_owned()))
    }

    /// The table of the fields, row by row: a head, and for each field its
    /// name, its type and whether it may be null.
    pub fn print(&self) -> (r: Vec<Vec<String>>)
        ensures
            r@.len() == self.fields@.len() + 1,
            r@[0]@.len() == 3 && r@[0]@[0]@ == "Field"@ && r@[0]@[1]@ == "Type"@ && r@[0]@[2]@
                == "Nullable"@,
            forall|i: int|
                0 <= i < self.fields@.len() ==> (#[trigger] r@[i + 1])@.len() == 3 && r@[i
                    + 1]@[0]@ == self.fields@[i].name@ && r@[i + 1]@[1]@ == name_of_type(
                    self.fields@[i].typ,
                ) && r@[i + 1]@[2]@ == (if self.fields@[i].nullable {
                    "true"@
                } else {
                    "false"@
                }),
    {
        let mut table: Vec<Vec<String>> = Vec::new();
        let mut head: Vec<String> = Vec::new();
        head.push("Field".to_owned());
        head.push("Type".to_owned());
        head.push("Nullable".to_owned());
        table.push(head);
        let mut i: usize = 0;
        while i < self.fields.len()
            invariant
                i <= self.fields@.len(),
                table@.len() == i + 1,
                table@[0]@.len() == 3 && table@[0]@[0]@ == "Field"@ && table@[0]@[1]@ == "Type"@
                    && table@[0]@[2]@ == "Nullable"@,
                forall|k: int|
                    0 <= k < i ==> (#[trigger] table@[k + 1])@.len() == 3 && table@[k + 1]@[0]@
                        == self.fields@[k].name@ && table@[k + 1]@[1]@ == name_of_type(
                        self.fields@[k].typ,
                    ) && table@[k + 1]@[2]@ == (if self.fields@[k].nullable {
                        "true"@
                    } else {
                        "false"@
                    }),
            decreases self.fields@.len() - i,
        {
            let f = &self.fields[i];
            let mut row: Vec<String> = Vec::new();
            row.push(f.name.clone());
            row.push(field_type_name(f.typ).to_owned());
            row.push(
                if f.nullable {
                    "true".to_owned()
                } else {
                    "false".to_owned()
                },
            );
            let ghost before = table@;
            table.push(row);
            proof {
                assert forall|k: int| 0 <= k < i + 1 implies (#[trigger] table@[k + 1])@.len() == 3
                    && table@[k + 1]@[0]@ == self.fields@[k].name@ && table@[k + 1]@[1]@
                    == name_of_type(self.fields@[k].typ)
                        && table@[k + 1]@[2]@ == (if self.fields@[k].nullable {
                    "true"@
                } else {
                    "false"@
                }) by {
                    if k < i {
                        assert(table@[k + 1] == before[k + 1]);
                    }
                }
            }
            i += 1;
        }
        table
    }

    pub fn set_identifier(&mut self, identifier: Option<SchemaIdentifier>) -> (r: Result<
        (),
        TypeError,
    >)
        ensures
            r.is_ok(),
            final(self).identifier == identifier,
            final(self).fields == old(self).fields,
            final(self).primary_index == old(self).primary_index,
    {
        self.identifier = identifier;
        Ok(())
    }
}

/// An index over the records of a schema.
#[derive(Debug, PartialEq, Eq)]
pub enum IndexDefinition {
    /// The sorted inverted index, over the fields at the given positions.
    SortedInverted(Vec<usize>),
    /// The full-text index, over the words of one field.
    FullText(usize),
}

/// One row: its values follow the fields of its schema.
#[derive(Debug, PartialEq, Eq)]
pub struct Record {
    /// The schema that the record follows.
    pub schema_id: Option<SchemaIdentifier>,
    /// The values, in the order of the fields of the schema.
    pub values: Vec<Field>,
    /// Records with the same primary key have increasing versions.
    pub version: Option<u32>,
}

/// What a record holds, as a mathematical value.
pub struct RecordView {
    pub schema_id: Option<SchemaIdentifier>,
    pub values: Seq<FieldValue>,
    pub version: Option<u32>,
}

impl View for Record {
    type V = RecordView;

    open spec fn view(&self) -> RecordView {
        RecordView {
            schema_id: self.schema_id,
            values: self.values@.map_values(|f: Field| f@),
            version: self.version,
        }
    }
}

/// The encodings of the values at `indexes`, one after the other.
pub open spec fn concat_encodings(values: Seq<FieldValue>, indexes: Seq<usize>) -> Seq<u8>
    decreases indexes.len(),
{
    if indexes.len() == 0 {
        Seq::<u8>::empty()
    } else {
        concat_encodings(values, indexes.drop_last()) + field_encoding(
            values[indexes.last() as int],
        )
    }
}

/// A record of `n` values, all `Null`.
pub open spec fn null_values(n: nat) -> Seq<FieldValue> {
    Seq::new(n, |i: int| FieldValue::Null)
}

fn nulls_vec(size: usize) -> (r: Vec<Field>)
    ensures
        r@.map_values(|f: Field| f@) == null_values(size as nat),
{
    let mut r: Vec<Field> = Vec::new();
    let mut i: usize = 0;
    while i < size
        invariant
            i <= size,
            r@.len() == i,
            forall|j: int| 0 <= j < i ==> r@[j]@ == FieldValue::Null,
        decreases size - i,
    {
        r.push(Field::Null);
        i += 1;
    }
    assert(r@.map_values(|f: Field| f@) =~= null_values(size as nat));
    r
}

impl Clone for Record {
    fn clone(&self) -> (r: Self)
        ensures
            r@ == self@,
    {
        let mut values: Vec<Field> = Vec::new();
        let mut i: usize = 0;
        while i < self.values.len()
            invariant
                i <= self.values@.len(),
                values@.len() == i,
                forall|j: int| 0 <= j < i ==> values@[j]@ == self.values@[j]@,
            decreases self.values@.len() - i,
        {
            values.push(self.values[i].clone());
            i += 1;
        }
        let r = Record { schema_id: self.schema_id, values, version: self.version };
        assert(r@.values =~= self@.values);
        r
    }
}

impl Record {
    pub fn new(schema_id: Option<SchemaIdentifier>, values: Vec<Field>, version: Option<u32>) -> (r:
        Record)
        ensures
            r.schema_id == schema_id,
            r.values == values,
            r.version == version,
    {
        Record { schema_id, values, version }
    }

    /// A record of the schema with every value `Null`.
    pub fn from_schema(schema: &Schema) -> (r: Record)
        ensures
            r@ == (RecordView {
                schema_id: schema.identifier,
                values: null_values(schema.fields@.len()),
                version: None,
            }),
    {
        Record {
            schema_id: schema.identifier,
            values: nulls_vec(schema.fields.len()),
            version: None,
        }
    }

    /// A record of `size` values, every one `Null`.
    pub fn nulls(schema_id: Option<SchemaIdentifier>, size: usize, version: Option<u32>) -> (r:
        Record)
        ensures
            r@ == (RecordView { schema_id, values: null_values(size as nat), version }),
    {
        Record { schema_id, values: nulls_vec(size), version }
    }

    /// The values, in order.
    pub fn iter(&self) -> (r: &[Field])
        ensures
            r@ == self.values@,
    {
        self.values.as_slice()
    }

    /// Puts `value` at position `idx`.
    pub fn set_value(&mut self, idx: usize, value: Field)
        requires
            idx < old(self).values@.len(),
        ensures
            final(self).values@ == old(self).values@.update(idx as int, value),
            final(self).schema_id == old(self).schema_id,
            final(self).version == old(self).version,
    {
        self.values.set(idx, value);
    }

    /// Appends `value`.
    pub fn push_value(&mut self, value: Field)
        ensures
            final(self).values@ == old(self).values@.push(value),
            final(self).schema_id == old(self).schema_id,
            final(self).version == old(self).version,
    {
        self.values.push(value);
    }

    /// The value at position `idx`.
    pub fn get_value(&self, idx: usize) -> (r: Result<&Field, TypeError>)
        ensures
            idx < self.values@.len() ==> (r matches Ok(f) && *f == self.values@[idx as int]),
            idx >= self.values@.len() ==> r == Err::<&Field, TypeError>(
                TypeError::InvalidFieldIndex(idx),
            ),
    {
        if idx < self.values.len() {
            Ok(&self.values[idx])
        } else {
            Err(TypeError::InvalidFieldIndex(idx))
        }
    }

    /// The key of the record: the encodings of the values at `indexes`, one
    /// after the other.
    pub fn get_key(&self, indexes: &Vec<usize>) -> (r: Vec<u8>)
        requires
            indexes@.len() > 0,
            forall|i: int| 0 <= i < indexes@.len()
                ==> (#[trigger] indexes@[i]) < self.values@.len(),
        ensures
            r@ == concat_encodings(self@.values, indexes@),
    {
        let mut res_buffer: Vec<u8> = Vec::new();
        let mut i: usize = 0;
        while i < indexes.len()
            invariant
                i <= indexes@.len(),
                forall|j: int|
                    0 <= j < indexes@.len() ==> (#[trigger] indexes@[j]) < self.values@.len(),
                res_buffer@ == concat_encodings(self@.values, indexes@.subrange(0, i as int)),
            decreases indexes@.len() - i,
        {
            let mut bytes = self.values[indexes[i]].encode();
            proof {
                let next = indexes@.subrange(0, i + 1);
                assert(next.drop_last() =~= indexes@.subrange(0, i as int));
                assert(next.last() == indexes@[i as int]);
            }
            res_buffer.append(&mut bytes);
            i += 1;
        }
        assert(indexes@.subrange(0, i as int) =~= indexes@);
        res_buffer
    }
}

/// A change of one record.
#[derive(Debug, PartialEq, Eq)]
pub enum Operation {
    Delete { old: Record },
    Insert { new: Record },
    Update { old: Record, new: Record },
}

impl Clone for Operation {
    fn clone(&self) -> (r: Self)
        ensures
            same_operation(*self, r),
    {
        match self {
            Operation::Delete { old } => Operation::Delete { old: old.clone() },
            Operation::Insert { new } => Operation::Insert { new: new.clone() },
            Operation::Update { old, new } => Operation::Update {
                old: old.clone(),
                new: new.clone(),
            },
        }
    }
}

/// Both operations change the same records in the same way.
pub open spec fn same_operation(a: Operation, b: Operation) -> bool {
    match (a, b) {
        (Operation::Delete { old: x }, Operation::Delete { old: y }) => x@ == y@,
        (Operation::Insert { new: x }, Operation::Insert { new: y }) => x@ == y@,
        (Operation::Update { old: x, new: u }, Operation::Update { old: y, new: v }) => x@ == y@
            && u@ == v@,
        _ => false,
    }
}

} // verus!
