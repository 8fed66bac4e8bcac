//! The first read of the tables of a Postgres source. The reading itself is
//! done outside: this module decides what is asked next and what is handed
//! to the ingestor.

use vstd::prelude::*;
use vstd::string::StringExecFns;
use crate::connector::{column_names, TableInfo};
use crate::errors::ConnectorError;
use crate::field::Field;
use crate::ingestion::{IngestionMessage, IngestionMessageKind, Ingestor, OpIdentifier};
use crate::postgres_schema::{grouped, table_views, PostgresRow, SchemaHelper};
use crate::types::{Operation, Record, Schema, SchemaIdentifier};

verus! {

#[derive(Debug)]
pub struct PostgresSnapshotter {
    pub tables: Option<Vec<TableInfo>>,
    pub conn_str: String,
}

/// Where a snapshot stands: the table that is read, the rows read so far
/// over all tables, and the schema of the table once its query is prepared.
#[derive(Debug)]
pub struct SnapshotState {
    pub table: usize,
    pub idx: u64,
    pub schema_id: Option<SchemaIdentifier>,
    pub reading: bool,
}

/// What the database answered to the last request.
#[derive(Debug)]
pub enum SnapshotEvent {
    /// Nothing was asked yet.
    Start,
    /// The query is prepared: the schema of its rows.
    Prepared(Schema),
    /// The query cannot be prepared or run.
    QueryFailed,
    /// The next row of the table.
    Row(Vec<Field>),
    /// The table has no more rows.
    EndOfRows,
}

/// What is asked of the database next.
#[derive(Debug, PartialEq, Eq)]
pub enum SnapshotAction {
    /// Prepare and run this query.
    Query(String),
    /// Read the next row.
    NextRow,
    /// The snapshot is done: the names of its tables.
    Done(Vec<String>),
    /// The snapshot has failed.
    Fail(ConnectorError),
}

/// The names, each between double quotes, with commas between them.
pub open spec fn quoted_list(names: Seq<Seq<char>>) -> Seq<char>
    decreases names.len(),
{
    if names.len() == 0 {
        Seq::<char>::empty()
    } else if names.len() == 1 {
        "\""@ + names[0] + "\""@
    } else {
        quoted_list(names.drop_last()) + ","@ + "\""@ + names.last() + "\""@
    }
}

/// The query that reads the given columns of a table.
pub open spec fn query_text(table: Seq<char>, columns: Seq<Seq<char>>) -> Seq<char> {
    "select "@ + quoted_list(columns) + " from "@ + table
}

/// The names of the tables.
pub open spec fn table_names(tables: Seq<TableInfo>) -> Seq<Seq<char>> {
    tables.map_values(|t: TableInfo| t.name@)
}

/// What each of the texts holds.
pub open spec fn texts(names: Seq<String>) -> Seq<Seq<char>> {
    names.map_values(|n: String| n@)
}

/// The query that reads the columns of a table; a table that does not name
/// its columns has none.
pub fn snapshot_query(table_info: &TableInfo) -> (r: Result<String, ConnectorError>)
    ensures
        match table_info.columns {
            None => r == Err::<String, ConnectorError>(ConnectorError::ColumnsNotFound),
            Some(columns) => r matches Ok(q) && q@ == query_text(
                table_info.name@,
                column_names(columns@),
            ),
        },
{
    let columns = match &table_info.columns {
        Some(columns) => columns,
        None => {
            return Err(ConnectorError::ColumnsNotFound);
        },
    };
    let mut list = String::new();
    let mut i: usize = 0;
    while i < columns.len()
        invariant
            i <= columns@.len(),
            list@ == quoted_list(column_names(columns@).subrange(0, i as int)),
        decreases columns@.len() - i,
    {
        proof {
            let next = column_names(columns@).subrange(0, i + 1);
            assert(next.drop_last() =~= column_names(columns@).subrange(0, i as int));
            assert(next.last() == columns@[i as int].name@);
            if i == 0 {
                assert(next[0] == columns@[0].name@);
            }
        }
        let ghost before = list@;
        if i > 0 {
            list.append(",");
        }
        list.append("\"");
        list.append(columns[i].name.as_str());
        list.append("\"");
        proof {
            if i == 0 {
                assert(list@ =~= "\""@ + columns@[0].name@ + "\""@);
            } else {
                assert(list@ =~= before + ","@ + "\""@ + columns@[i as int].name@ + "\""@);
            }
        }
        i += 1;
    }
    assert(column_names(columns@).subrange(0, i as int) =~= column_names(columns@));
    let mut query = String::from_str("select ");
    query.append(list.as_str());
    query.append(" from ");
    query.append(table_info.name.as_str());
    Ok(query)
}

impl SnapshotState {
    /// The state before anything is read.
    pub fn new() -> (r: Self)
        ensures
            r.table == 0,
            r.idx == 0,
            r.schema_id.is_none(),
            !r.reading,
    {
        SnapshotState { table: 0, idx: 0, schema_id: None, reading: false }
    }
}

impl PostgresSnapshotter {
    /// The tables that are read: those that were given, and else all those
    /// of the catalog.
    pub fn get_tables(&self, catalog: &Vec<PostgresRow>) -> (r: Result<Vec<TableInfo>, ConnectorError>)
        ensures
            match self.tables {
                None => r matches Ok(found) && table_views(found@) == grouped(catalog@, None)
                    && forall|i: int|
                    0 <= i < found@.len() ==> crate::postgres_schema::is_catalog_table(
                        #[trigger] found@[i],
                    ),
                Some(given) => r matches Ok(found) && found@.len() == given@.len() && forall|
                    i: int,
                |
                    0 <= i < found@.len() ==> (#[trigger] found@[i]).name == given@[i].name
                        && found@[i].table_name == given@[i].table_name && found@[i].id
                        == given@[i].id && found@[i].columns.is_some()
                        == given@[i].columns.is_some() && (found@[i].columns matches Some(c)
                        ==> c@ == given@[i].columns.unwrap()@),
            },
    {
        match &self.tables {
            None => {
                let helper = SchemaHelper::new(None);
                helper.get_tables(catalog, None)
            },
            Some(arr) => {
                let mut copy: Vec<TableInfo> = Vec::new();
                let mut i: usize = 0;
                while i < arr.len()
                    invariant
                        i <= arr@.len(),
                        copy@.len() == i,
                        forall|k: int|
                            0 <= k < i ==> (#[trigger] copy@[k]).name == arr@[k].name
                                && copy@[k].table_name == arr@[k].table_name && copy@[k].id
                                == arr@[k].id && copy@[k].columns.is_some()
                                == arr@[k].columns.is_some() && (copy@[k].columns matches Some(c)
                                ==> c@ == arr@[k].columns.unwrap()@),
                    decreases arr@.len() - i,
                {
                    copy.push(arr[i].clone());
                    i += 1;
                }
                Ok(copy)
            },
        }
    }

    fn names_of(tables: &Vec<TableInfo>) -> (r: Vec<String>)
        ensures
            texts(r@) == table_names(tables@),
    {
        let mut names: Vec<String> = Vec::new();
        let mut i: usize = 0;
        while i < tables.len()
            invariant
                i <= tables@.len(),
                names@.len() == i,
                forall|k: int| 0 <= k < i ==> (#[trigger] names@[k])@ == tables@[k].name@,
            decreases tables@.len() - i,
        {
            names.push(tables[i].name.clone());
            i += 1;
        }
        assert(texts(names@) =~= table_names(tables@));
        names
    }

    fn begin_table(tables: &Vec<TableInfo>, state: &mut SnapshotState) -> (r: SnapshotAction)
        requires
            !old(state).reading,
        ensures
            final(state).idx == old(state).idx,
            final(state).table == old(state).table,
            final(state).schema_id.is_none(),
            !final(state).reading,
            old(state).table >= tables@.len() ==> (r matches SnapshotAction::Done(names)
                && texts(names@) == table_names(tables@)),
            old(state).table < tables@.len() ==> (match tables@[old(state).table as int].columns {
                None => r == SnapshotAction::Fail(ConnectorError::ColumnsNotFound),
                Some(columns) => r matches SnapshotAction::Query(q) && q@ == query_text(
                    tables@[old(state).table as int].name@,
                    column_names(columns@),
                ),
            }),
    {
        state.schema_id = None;
        if state.table >= tables.len() {
            return SnapshotAction::Done(Self::names_of(tables));
        }
        match snapshot_query(&tables[state.table]) {
            Ok(query) => SnapshotAction::Query(query),
            Err(e) => SnapshotAction::Fail(e),
        }
    }

    /// One step of the snapshot of `tables`: takes what the database
    /// answered, hands to the ingestor what was read, and tells what to ask
    /// next.
    ///
    /// The tables are read one after the other. For each its query is
    /// asked first; each of its rows is handed over as an insert, numbered
    /// in the order of reading over all tables; a table that does not name
    /// its columns, a query that fails and rows without a registered schema
    /// end the snapshot. After the last table the end of the snapshot is
    /// handed over, and the names of the tables are the result; so it is at
    /// the start where there is no table to read.
    pub fn sync_tables(
        &self,
        tables: &Vec<TableInfo>,
        state: &mut SnapshotState,
        event: SnapshotEvent,
        ingestor: &mut Ingestor,
    ) -> (r: SnapshotAction)
        ensures
            match event {
                SnapshotEvent::Start => {
                    &&& final(state).idx == old(state).idx
                    &&& final(state).table == old(state).table
                    &&& !final(state).reading
                    &&& if old(state).reading {
                        r == SnapshotAction::Fail(ConnectorError::InvalidQueryError)
                            && final(ingestor).messages@ == old(ingestor).messages@
                    } else if old(state).table >= tables@.len() {
                        (r matches SnapshotAction::Done(names) && texts(names@) == table_names(
                            tables@,
                        )) && final(ingestor).messages@ == old(ingestor).messages@.push(
                            IngestionMessage {
                                identifier: OpIdentifier { txid: 0, seq_in_tx: old(state).idx },
                                kind: IngestionMessageKind::SnapshottingDone,
                            },
                        )
                    } else {
                        final(ingestor).messages@ == old(ingestor).messages@
                            && (match tables@[old(state).table as int].columns {
                            None => r == SnapshotAction::Fail(ConnectorError::ColumnsNotFound),
                            Some(columns) => r matches SnapshotAction::Query(q) && q@
                                == query_text(
                                tables@[old(state).table as int].name@,
                                column_names(columns@),
                            ),
                        })
                    }
                },
                SnapshotEvent::Prepared(schema) => final(ingestor).messages@ == old(ingestor).messages@
                    && final(state).idx == old(state).idx && final(state).table == old(state).table
                    && (if old(state).reading || old(state).table >= tables@.len() {
                    r == SnapshotAction::Fail(ConnectorError::InvalidQueryError)
                        && !final(state).reading
                } else if schema.identifier.is_none() {
                    r == SnapshotAction::Fail(ConnectorError::SchemaIdentifierNotFound)
                        && !final(state).reading
                } else {
                    r == SnapshotAction::NextRow && final(state).reading && final(state).schema_id
                        == schema.identifier
                }),
                SnapshotEvent::QueryFailed => r == SnapshotAction::Fail(
                    ConnectorError::InvalidQueryError,
                ) && final(ingestor).messages@ == old(ingestor).messages@ && !final(state).reading
                    && final(state).idx == old(state).idx && final(state).table == old(state).table,
                SnapshotEvent::Row(values) => if !old(state).reading || old(state).idx
                    == u64::MAX {
                    r == SnapshotAction::Fail(ConnectorError::InvalidQueryError)
                        && final(ingestor).messages@ == old(ingestor).messages@
                        && !final(state).reading
                } else {
                    r == SnapshotAction::NextRow && final(state).reading && final(state).idx
                        == old(state).idx + 1 && final(state).table == old(state).table
                        && final(state).schema_id == old(state).schema_id
                            && final(ingestor).messages@.len() == old(ingestor).messages@.len() + 1
                            && final(ingestor).messages@.drop_last() == old(ingestor).messages@
                            && is_insert_of(
                        final(ingestor).messages@.last(),
                        old(state).idx,
                        old(state).schema_id,
                        values,
                    )
                },
                SnapshotEvent::EndOfRows => if !old(state).reading || old(state).table
                    >= tables@.len() {
                    r == SnapshotAction::Fail(ConnectorError::InvalidQueryError)
                        && final(ingestor).messages@ == old(ingestor).messages@
                } else {
                    final(state).idx == old(state).idx && final(state).table == old(state).table
                        + 1 && !final(state).reading && (if old(state).table + 1 < tables@.len() {
                        final(ingestor).messages@ == old(ingestor).messages@
                            && (match tables@[old(state).table + 1].columns {
                            None => r == SnapshotAction::Fail(ConnectorError::ColumnsNotFound),
                            Some(columns) => r matches SnapshotAction::Query(q) && q@
                                == query_text(
                                tables@[old(state).table + 1].name@,
                                column_names(columns@),
                            ),
                        })
                    } else {
                        (r matches SnapshotAction::Done(names) && texts(names@) == table_names(
                            tables@,
                        )) && final(ingestor).messages@ == old(ingestor).messages@.push(
                            IngestionMessage {
                                identifier: OpIdentifier { txid: 0, seq_in_tx: old(state).idx },
                                kind: IngestionMessageKind::SnapshottingDone,
                            },
                        )
                    })
                },
            },
    {
        match event {
            SnapshotEvent::Start => {
                if state.reading {
                    state.reading = false;
                    return SnapshotAction::Fail(ConnectorError::InvalidQueryError);
                }
                // Without a table to read the snapshot is done at once.
                if state.table >= tables.len() {
                    ingestor.handle_message(IngestionMessage::new_snapshotting_done(0, state.idx));
                }
                Self::begin_table(tables, state)
            },
            SnapshotEvent::Prepared(schema) => {
                if state.reading || state.table >= tables.len() {
                    state.reading = false;
                    return SnapshotAction::Fail(ConnectorError::InvalidQueryError);
                }
                if schema.identifier.is_none() {
                    return SnapshotAction::Fail(ConnectorError::SchemaIdentifierNotFound);
                }
                state.schema_id = schema.identifier;
                state.reading = true;
                SnapshotAction::NextRow
            },
            SnapshotEvent::QueryFailed => {
                state.reading = false;
                SnapshotAction::Fail(ConnectorError::InvalidQueryError)
            },
            SnapshotEvent::Row(values) => {
                if !state.reading || state.idx == u64::MAX {
                    state.reading = false;
                    return SnapshotAction::Fail(ConnectorError::InvalidQueryError);
                }
                let record = Record::new(state.schema_id, values, None);
                ingestor.handle_message(
                    IngestionMessage::new_op(0, state.idx, Operation::Insert { new: record }),
                );
                proof {
                    assert(final(ingestor).messages@.drop_last() =~= old(ingestor).messages@);
                }
                state.idx = state.idx + 1;
                SnapshotAction::NextRow
            },
            SnapshotEvent::EndOfRows => {
                if !state.reading || state.table >= tables.len() {
                    return SnapshotAction::Fail(ConnectorError::InvalidQueryError);
                }
                state.reading = false;
                state.table = state.table + 1;
                if state.table >= tables.len() {
                    ingestor.handle_message(IngestionMessage::new_snapshotting_done(0, state.idx));
                }
                Self::begin_table(tables, state)
            },
        }
    }
}

/// The message is the insert of a record with the given values, numbered
/// `idx`, of the schema `schema_id`.
pub open spec fn is_insert_of(
    message: IngestionMessage,
    idx: u64,
    schema_id: Option<SchemaIdentifier>,
    values: Vec<Field>,
) -> bool {
    &&& message.identifier == (OpIdentifier { txid: 0, seq_in_tx: idx })
    &&& message.kind matches IngestionMessageKind::OperationEvent(Operation::Insert { new })
    &&& new.schema_id == schema_id
    &&& new.values == values
    &&& new.version.is_none()
}

} // verus!
