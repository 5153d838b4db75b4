//! Row-level changes and the schema of the tables that they belong to,
//! independent of where they come from and where they go.

use crate::document::{document_id, document_id_of};
use crate::fields::FieldMap;
use vstd::prelude::*;
use vstd::string::*;

verus! {

/// A column value as it stands in a `pgoutput` tuple.
pub ghost enum Cell {
    Null,
    UnchangedToast,
    Text(Seq<char>),
}

/// A single decoded column value as found in a `pgoutput` tuple.
#[derive(Debug, Clone, PartialEq)]
pub enum ColData {
    Null,
    UnchangedToast,
    Text(String),
}

impl View for ColData {
    type V = Cell;

    open spec fn view(&self) -> Cell {
        match self {
            ColData::Null => Cell::Null,
            ColData::UnchangedToast => Cell::UnchangedToast,
            ColData::Text(s) => Cell::Text(s@),
        }
    }
}

impl ColData {
    /// The text of the value, where it has one.
    pub fn as_str(&self) -> (text: Option<&str>)
        ensures
            match self@ {
                Cell::Text(t) => text is Some && text->0@ == t,
                _ => text is None,
            },
    {
        match self {
            ColData::Text(s) => Some(s.as_str()),
            ColData::Null => None,
            ColData::UnchangedToast => None,
        }
    }
}

/// One column of a table.
#[verifier::ext_equal]
pub ghost struct Column {
    pub flags: u8,
    pub name: Seq<char>,
    pub type_oid: u32,
    pub type_modifier: i32,
}

impl Column {
    /// Whether the column is part of the replica identity.
    pub open spec fn is_key(self) -> bool {
        self.flags & 1 == 1
    }
}

/// Metadata describing a single column of a replicated relation.
#[derive(Debug, Clone)]
pub struct ColumnInfo {
    pub flags: u8,
    pub name: String,
    pub type_oid: u32,
    pub type_modifier: i32,
}

impl View for ColumnInfo {
    type V = Column;

    open spec fn view(&self) -> Column {
        Column {
            flags: self.flags,
            name: self.name@,
            type_oid: self.type_oid,
            type_modifier: self.type_modifier,
        }
    }
}

impl ColumnInfo {
    /// Whether this column is part of the replica identity / primary key.
    pub fn is_key(&self) -> (key: bool)
        ensures
            key == self@.is_key(),
    {
        let flags = self.flags;
        assert(flags & 1 != 0 <==> flags & 1 == 1) by (bit_vector);
        flags & 0x01 != 0
    }
}

/// A table with its columns.
#[verifier::ext_equal]
pub ghost struct Relation {
    pub namespace: Seq<char>,
    pub table_name: Seq<char>,
    pub replica_identity: u8,
    pub columns: Seq<Column>,
}

/// Metadata describing a replicated table (a `Relation` message).
#[derive(Debug, Clone)]
pub struct RelationInfo {
    pub namespace: String,
    pub table_name: String,
    pub replica_identity: u8,
    pub columns: Vec<ColumnInfo>,
}

/// The columns that a list of column metadata describes.
pub open spec fn columns_of(columns: Seq<ColumnInfo>) -> Seq<Column> {
    columns.map_values(|c: ColumnInfo| c@)
}

/// The cells that a row of column values stands for.
pub open spec fn cells_of(row: Seq<ColData>) -> Seq<Cell> {
    row.map_values(|c: ColData| c@)
}

impl View for RelationInfo {
    type V = Relation;

    open spec fn view(&self) -> Relation {
        Relation {
            namespace: self.namespace@,
            table_name: self.table_name@,
            replica_identity: self.replica_identity,
            columns: columns_of(self.columns@),
        }
    }
}

/// Column names with the text under each.
pub type Fields = Map<Seq<char>, Seq<char>>;

/// A change to one row.
pub ghost enum Change {
    Insert { table: Seq<char>, key: Fields, data: Fields },
    Update { table: Seq<char>, key: Fields, data: Fields },
    Delete { table: Seq<char>, key: Fields },
}

impl Change {
    /// The table of the row.
    pub open spec fn table(self) -> Seq<char> {
        match self {
            Change::Insert { table, .. } => table,
            Change::Update { table, .. } => table,
            Change::Delete { table, .. } => table,
        }
    }

    /// The primary-key columns of the row.
    pub open spec fn key(self) -> Fields {
        match self {
            Change::Insert { key, .. } => key,
            Change::Update { key, .. } => key,
            Change::Delete { key, .. } => key,
        }
    }

    /// The fields of the row after the change.
    pub open spec fn data(self) -> Fields {
        match self {
            Change::Insert { data, .. } => data,
            Change::Update { data, .. } => data,
            Change::Delete { .. } => Map::empty(),
        }
    }

    /// Whether the row has finitely many fields, as every row does.
    pub open spec fn is_finite(self) -> bool {
        self.key().dom().finite() && self.data().dom().finite()
    }

    /// The document that the row is kept under.
    pub open spec fn document_id(self) -> Seq<char> {
        document_id_of(self.table(), self.key())
    }
}

/// A row-level change emitted by the logical replication stream.
///
/// Every variant carries `key`, the primary-key columns of the affected row.
/// This is used both for partition routing in the producer and for building a
/// stable OpenSearch document id in the consumer.
#[derive(Debug, Clone)]
pub enum TxnEvent {
    Insert { table: String, key: FieldMap, data: FieldMap },
    Update { table: String, key: FieldMap, data: FieldMap },
    Delete { table: String, key: FieldMap },
}

impl View for TxnEvent {
    type V = Change;

    open spec fn view(&self) -> Change {
        match self {
            TxnEvent::Insert { table, key, data } => Change::Insert {
                table: table@,
                key: key@,
                data: data@,
            },
            TxnEvent::Update { table, key, data } => Change::Update {
                table: table@,
                key: key@,
                data: data@,
            },
            TxnEvent::Delete { table, key } => Change::Delete { table: table@, key: key@ },
        }
    }
}

impl TxnEvent {
    /// The table of the row.
    pub fn table(&self) -> (table: &str)
        ensures
            table@ == self@.table(),
    {
        match self {
            TxnEvent::Insert { table, .. } => table.as_str(),
            TxnEvent::Update { table, .. } => table.as_str(),
            TxnEvent::Delete { table, .. } => table.as_str(),
        }
    }

    /// The primary-key columns of the row.
    pub fn key(&self) -> (key: &FieldMap)
        ensures
            key@ == self@.key(),
    {
        match self {
            TxnEvent::Insert { key, .. } => key,
            TxnEvent::Update { key, .. } => key,
            TxnEvent::Delete { key, .. } => key,
        }
    }

    /// Stable, unique document id for OpenSearch: the table, then each key column as
    /// `name=value`, in the order of the names and with colons between, as in
    /// `users:email=foo@bar.com:id=5`. A row whose parts cannot be told apart that way
    /// keeps its table in front, has `:`, `=` and `%` in its key written as `%3A`,
    /// `%3D` and `%25`, and ends in `:=` and the number of characters of its table.
    pub fn document_id(&self) -> (id: String)
        ensures
            id@ == self@.document_id(),
            self@.key().dom().finite(),
    {
        document_id(self.table(), self.key())
    }
}

/// The changes that a list of events stands for.
pub open spec fn changes_of(events: Seq<TxnEvent>) -> Seq<Change> {
    events.map_values(|e: TxnEvent| e@)
}

/// A fully parsed PostgreSQL transaction, produced by the WAL parser and
/// consumed by the Redis stream producer.
#[derive(Debug, Clone)]
pub struct ParsedTransaction {
    pub commit_lsn: u64,
    pub events: Vec<TxnEvent>,
}

impl ParsedTransaction {
    /// Whether the transaction changed no row.
    pub fn is_empty(&self) -> (empty: bool)
        ensures
            empty == (self.events@.len() == 0),
    {
        self.events.is_empty()
    }
}

/// A column is part of the key exactly where the lowest bit of its flags is set.
pub proof fn law_lowest_flag_marks_the_key(column: Column)
    ensures
        column.is_key() <==> column.flags % 2 == 1,
{
    let flags = column.flags;
    assert(flags & 1 == 1 <==> flags % 2 == 1) by (bit_vector);
}

/// A row keeps its id whatever is done to it: every kind of change of one table and
/// key has the table, the key and the id in common, and the data where it has any.
pub proof fn law_kinds_of_change_agree(table: Seq<char>, key: Fields, data: Fields)
    ensures
        ({
            let insert = Change::Insert { table, key, data };
            let update = Change::Update { table, key, data };
            let delete = Change::Delete { table, key };
            &&& insert.table() == table && update.table() == table && delete.table() == table
            &&& insert.key() == key && update.key() == key && delete.key() == key
            &&& insert.data() == data && update.data() == data
            &&& delete.data() == Map::<Seq<char>, Seq<char>>::empty()
            &&& insert.document_id() == document_id_of(table, key)
            &&& update.document_id() == document_id_of(table, key)
            &&& delete.document_id() == document_id_of(table, key)
        }),
{
}

}
