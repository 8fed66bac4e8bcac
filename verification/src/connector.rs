//! What every source tells of its tables.

use vstd::prelude::*;
use crate::errors::ConnectorError;

verus! {

/// A column of a table of a source.
#[derive(Debug, PartialEq, Eq)]
pub struct ColumnInfo {
    pub name: String,
    pub data_type: Option<String>,
}

impl Clone for ColumnInfo {
    fn clone(&self) -> (r: Self)
        ensures
            r == *self,
    {
        let data_type = match &self.data_type {
            Some(t) => Some(t.clone()),
            None => None,
        };
        ColumnInfo { name: self.name.clone(), data_type }
    }
}

/// A table of a source and the columns that are read from it.
#[derive(Debug, PartialEq, Eq)]
pub struct TableInfo {
    pub name: String,
    pub table_name: String,
    pub id: u32,
    pub columns: Option<Vec<ColumnInfo>>,
}

/// What a table holds: its name, its id and the names of its columns.
pub struct TableView {
    pub name: Seq<char>,
    pub id: u32,
    pub columns: Seq<Seq<char>>,
}

/// The names of the columns.
pub open spec fn column_names(columns: Seq<ColumnInfo>) -> Seq<Seq<char>> {
    columns.map_values(|c: ColumnInfo| c.name@)
}

/// What a validation found for one column: its name where the source has
/// it, and the fault that was found, if any.
pub type ColumnValidation = (Option<String>, Result<(), ConnectorError>);

/// What a validation found, table by table.
pub type ValidationResults = Vec<(String, Vec<ColumnValidation>)>;

impl Clone for TableInfo {
    fn clone(&self) -> (r: Self)
        ensures
            r.name == self.name,
            r.table_name == self.table_name,
            r.id == self.id,
            r.columns.is_some() == self.columns.is_some(),
            r.columns matches Some(c) ==> c@ == self.columns.unwrap()@,
    {
        let columns = match &self.columns {
            Some(columns) => {
                let mut copy: Vec<ColumnInfo> = Vec::new();
                let mut i: usize = 0;
                while i < columns.len()
                    invariant
                        i <= columns@.len(),
                        copy@ == columns@.subrange(0, i as int),
                    decreases columns@.len() - i,
                {
                    copy.push(columns[i].clone());
                    i += 1;
                    assert(copy@ =~= columns@.subrange(0, i as int));
                }
                assert(columns@.subrange(0, i as int) =~= columns@);
                Some(copy)
            },
            None => None,
        };
        TableInfo {
            name: self.name.clone(),
            table_name: self.table_name.clone(),
            id: self.id,
            columns,
        }
    }
}

} // verus!
