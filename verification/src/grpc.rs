//! The gRPC source: an adapter reads the requests, the ingestor holds the
//! schemas that they may name.

use vstd::prelude::*;
use crate::errors::ConnectorError;
use crate::ingestion::Ingestor;
use crate::types::{str_eq, Record, Schema, SchemaIdentifier, SourceSchema};

verus! {

/// The kind of change that a request asks for.
#[derive(Clone, Copy, Debug, PartialEq, Eq, Structural)]
pub enum OperationType {
    Insert,
    Delete,
    Update,
}

/// A request that carries one change of one record.
#[derive(Debug, PartialEq, Eq)]
pub struct IngestRequest {
    pub schema_name: String,
    pub typ: OperationType,
    pub old: Option<Record>,
    pub new: Option<Record>,
    pub seq_no: u32,
}

/// A request that carries records in the Arrow format.
#[derive(Debug, PartialEq, Eq)]
pub struct IngestArrowRequest {
    pub schema_name: String,
    pub records: Vec<u8>,
    pub seq_no: u32,
}

/// What reads the requests of one format.
pub trait IngestAdapter: Sized {
    fn new() -> Self;

    /// The schemas that the text describes.
    fn get_schemas(&self, schemas_str: &str) -> Result<Vec<SourceSchema>, ConnectorError>;

    /// Hands the changes of a request to the ingestor.
    fn handle_message(
        &self,
        msg: GrpcIngestMessage,
        schema_map: &Vec<(String, Schema)>,
        ingestor: &mut Ingestor,
    ) -> Result<(), ConnectorError>;
}

#[derive(Debug)]
pub enum GrpcIngestMessage {
    Default(IngestRequest),
    Arrow(IngestArrowRequest),
}

pub struct GrpcIngestor<A> where A: IngestAdapter {
    adapter: A,
    schemas_str: String,
    /// The schema of each name, each name once.
    pub schema_map: Vec<(String, Schema)>,
}

/// The position of the last of `schemas` with the name `name`.
pub open spec fn latest_named(schemas: Seq<SourceSchema>, name: Seq<char>) -> Option<int>
    decreases schemas.len(),
{
    if schemas.len() == 0 {
        None
    } else if schemas.last().name@ == name {
        Some(schemas.len() - 1)
    } else {
        latest_named(schemas.drop_last(), name)
    }
}

/// The schema of the source schema at position `i`, registered under the id
/// `i` at version 1.
pub open spec fn registered(schema: Schema, schemas: Seq<SourceSchema>, i: int) -> bool {
    &&& 0 <= i < schemas.len()
    &&& schema.identifier == Some(
        SchemaIdentifier { id: (i % 0x1_0000_0000) as u32, version: 1 },
    )
    &&& schema.fields@ == schemas[i].schema.fields@
    &&& schema.primary_index@ == schemas[i].schema.primary_index@
}

/// The map holds each name of `schemas` once, in the order in which the
/// names first occur, with the schema of the last source schema of that
/// name.
pub open spec fn is_schema_map(map: Seq<(String, Schema)>, schemas: Seq<SourceSchema>) -> bool {
    &&& forall|k: int|
        0 <= k < map.len() ==> latest_named(schemas, (#[trigger] map[k]).0@).is_some()
            && registered(map[k].1, schemas, latest_named(schemas, map[k].0@).unwrap())
    &&& forall|k: int, l: int|
        0 <= k < l < map.len() ==> (#[trigger] map[k]).0@ != (#[trigger] map[l]).0@
    &&& forall|i: int|
        0 <= i < schemas.len() ==> exists|k: int|
            0 <= k < map.len() && (#[trigger] map[k]).0@ == (#[trigger] schemas[i]).name@
}

/// The last schema of a name is one of the schemas, and has that name.
pub proof fn lemma_latest_named(schemas: Seq<SourceSchema>, name: Seq<char>)
    ensures
        latest_named(schemas, name) matches Some(i) ==> 0 <= i < schemas.len() && schemas[i].name@
            == name,
        latest_named(schemas, name).is_none() ==> forall|i: int|
            0 <= i < schemas.len() ==> (#[trigger] schemas[i]).name@ != name,
    decreases schemas.len(),
{
    if schemas.len() > 0 && schemas.last().name@ != name {
        lemma_latest_named(schemas.drop_last(), name);
        assert forall|i: int| 0 <= i < schemas.len() && latest_named(schemas, name).is_none()
            implies (
        #[trigger] schemas[i]).name@ != name by {
            if i < schemas.len() - 1 {
                assert(schemas.drop_last()[i] == schemas[i]);
            }
        }
    }
}

impl<T> GrpcIngestor<T> where T: IngestAdapter {
    /// An ingestor for the schemas that the adapter reads from the text: it
    /// is made where the adapter reads them, and the error of the adapter
    /// is the error where it does not.
    pub fn new(schemas_str: String) -> (r: Result<Self, ConnectorError>)
        ensures
            exists|adapter: T, text: &str, read: Result<Vec<SourceSchema>, ConnectorError>|
                #![trigger call_ensures(T::get_schemas, (&adapter, text), read)]
                {
                    &&& text@ == schemas_str@
                    &&& call_ensures(T::new, (), adapter)
                    &&& call_ensures(T::get_schemas, (&adapter, text), read)
                    &&& match read {
                        Ok(schemas) => r matches Ok(g) && g.reader() == adapter
                            && g.schemas_text() == schemas_str@ && is_schema_map(
                            g.schemas(),
                            schemas@,
                        ),
                        Err(e) => r matches Err(f) && f == e,
                    }
                },
    {
        let adapter = T::new();
        let text = schemas_str.as_str();
        let read = adapter.get_schemas(text);
        let ghost made = adapter;
        let ghost answer = read;
        let schemas = match read {
            Ok(schemas) => schemas,
            Err(e) => {
                let r = Err(e);
                assert(call_ensures(T::get_schemas, (&made, text), answer));
                return r;
            },
        };
        let schema_map = match Self::get_schema_map(schemas) {
            Ok(m) => m,
            Err(e) => {
                return Err(e);
            },
        };
        let g = Self { schemas_str, schema_map, adapter };
        assert(g.reader() == made);
        assert(call_ensures(T::get_schemas, (&made, text), answer));
        Ok(g)
    }

    /// The text from which the schemas are read.
    pub closed spec fn schemas_text(&self) -> Seq<char> {
        self.schemas_str@
    }

    /// The adapter that reads for the ingestor.
    pub closed spec fn reader(&self) -> T {
        self.adapter
    }

    /// The schemas as they are handed to the adapter.
    pub closed spec fn schema_list(&self) -> Vec<(String, Schema)> {
        self.schema_map
    }

    /// The schema of each name.
    pub closed spec fn schemas(&self) -> Seq<(String, Schema)> {
        self.schema_map@
    }

    /// The schema of each name. Each schema is registered under the
    /// position of its source schema, at version 1; of several source
    /// schemas of one name the last counts.
    pub fn get_schema_map(schemas: Vec<SourceSchema>) -> (r: Result<
        Vec<(String, Schema)>,
        ConnectorError,
    >)
        ensures
            r matches Ok(map) && is_schema_map(map@, schemas@),
    {
        let mut map: Vec<(String, Schema)> = Vec::new();
        let mut id: usize = 0;
        while id < schemas.len()
            invariant
                id <= schemas@.len(),
                is_schema_map(map@, schemas@.subrange(0, id as int)),
            decreases schemas@.len() - id,
        {
            let ghost done = schemas@.subrange(0, id as int);
            let ghost next = schemas@.subrange(0, id + 1);
            let ghost before = map@;
            let v = &schemas[id];
            let schema = Schema {
                identifier: Some(
                    SchemaIdentifier { id: (id as u64 % 0x1_0000_0000u64) as u32, version: 1 },
                ),
                fields: v.schema.fields.clone(),
                primary_index: v.schema.primary_index.clone(),
            };
            let mut k: usize = 0;
            while k < map.len() && !str_eq(map[k].0.as_str(), v.name.as_str())
                invariant
                    k <= map@.len(),
                    forall|j: int| 0 <= j < k ==> (#[trigger] map@[j]).0@ != v.name@,
                decreases map@.len() - k,
            {
                k += 1;
            }
            if k < map.len() {
                map.set(k, (v.name.clone(), schema));
            } else {
                map.push((v.name.clone(), schema));
            }
            proof {
                assert(next.drop_last() =~= done);
                assert(next.last() == schemas@[id as int]);
                assert forall|j: int| 0 <= j < map@.len() implies latest_named(
                    next,
                    (#[trigger] map@[j]).0@,
                ).is_some() && registered(
                    map@[j].1,
                    next,
                    latest_named(next, map@[j].0@).unwrap(),
                ) by {
                    if j != k {
                        assert(map@[j] == before[j]);
                        assert(before[j].0@ != v.name@);
                        lemma_latest_named(done, before[j].0@);
                        let i = latest_named(done, before[j].0@).unwrap();
                        assert(next[i] == done[i]);
                    }
                }
                assert forall|a: int, b: int| 0 <= a < b < map@.len() implies (
                #[trigger] map@[a]).0@ != (#[trigger] map@[b]).0@ by {
                    if a != k && b != k {
                        assert(map@[a] == before[a]);
                        assert(map@[b] == before[b]);
                    } else if a == k {
                        if b < before.len() {
                            assert(map@[b] == before[b]);
                        }
                    } else {
                        assert(map@[a] == before[a]);
                    }
                }
                assert forall|i: int| 0 <= i < next.len() implies exists|j: int|
                    0 <= j < map@.len()
                        && (#[trigger] map@[j]).0@ == (#[trigger] next[i]).name@ by {
                    if i < id {
                        assert(next[i] == done[i]);
                        let j = choose|j: int|
                            0 <= j < before.len() && (#[trigger] before[j]).0@ == done[i].name@;
                        assert(map@[j].0@ == before[j].0@);
                    } else {
                        assert(map@[k as int].0@ == v.name@);
                    }
                }
            }
            id += 1;
        }
        assert(schemas@.subrange(0, id as int) =~= schemas@);
        Ok(map)
    }
}

impl<A> GrpcIngestor<A> where A: IngestAdapter {
    /// The schemas that the adapter reads from the text of the ingestor:
    /// what the adapter answers for that text.
    pub fn get_schemas(&self) -> (r: Result<Vec<SourceSchema>, ConnectorError>)
        ensures
            exists|text: &str|
                text@ == self.schemas_text() && #[trigger] call_ensures(
                    A::get_schemas,
                    (&self.reader(), text),
                    r,
                ),
    {
        let text = self.schemas_str.as_str();
        let r = self.adapter.get_schemas(text);
        assert(text@ == self.schemas_text());
        assert(call_ensures(A::get_schemas, (&self.reader(), text), r));
        r
    }

    /// Hands a request to the adapter, with the schemas of the ingestor:
    /// what the adapter answers is the answer, and what it does to the queue
    /// is what is done to it.
    pub fn handle_message(&self, msg: GrpcIngestMessage, ingestor: &mut Ingestor) -> (r: Result<
        (),
        ConnectorError,
    >)
        ensures
            exists|handed: &mut Ingestor|
                #![trigger call_ensures(A::handle_message, (&self.reader(), msg, &self.schema_list(), handed), r)]
                {
                    &&& *handed == *old(ingestor)
                    &&& *final(handed) == *final(ingestor)
                    &&& call_ensures(
                        A::handle_message,
                        (&self.reader(), msg, &self.schema_list(), handed),
                        r,
                    )
                },
    {
        let ghost request = msg;
        let r = self.adapter.handle_message(msg, &self.schema_map, ingestor);
        assert(exists|handed: &mut Ingestor| #[trigger]
            call_ensures(
                A::handle_message,
                (&self.adapter, request, &self.schema_map, handed),
                r,
            ) && *handed == *old(ingestor) && *final(handed) == *ingestor);
        proof {
            let via = choose|handed: &mut Ingestor| #[trigger]
                call_ensures(
                    A::handle_message,
                    (&self.adapter, request, &self.schema_map, handed),
                    r,
                ) && *handed == *old(ingestor) && *final(handed) == *ingestor;
            assert(self.reader() == self.adapter);
            assert(self.schema_list() == self.schema_map);
            assert(call_ensures(
                A::handle_message,
                (&self.reader(), request, &self.schema_list(), via),
                r,
            ));
        }
        r
    }
}

} // verus!
