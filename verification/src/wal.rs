//! PostgreSQL WAL (`pgoutput`) parsing.
//!
//! Turns raw logical-replication byte frames into [`ParsedTransaction`] values
//! that the Redis producer can emit.

use crate::event::{
    cells_of, changes_of, columns_of, Cell, Change, ColData, Column, ColumnInfo, Fields,
    ParsedTransaction, Relation, RelationInfo, TxnEvent,
};
use crate::fields::FieldMap;
use crate::text::text_of;
use crate::wire::{
    has_remaining, parse_cstring, read_bytes, read_cstring, read_i32, read_u16, read_u32, read_u8,
    take_i32, take_text, take_u16, take_u32, take_u8, FrameError, Reading,
};
use std::collections::HashMap;
use vstd::prelude::*;
use vstd::string::*;

verus! {

broadcast use vstd::std_specs::hash::group_hash_axioms;

/// `R`: the schema of a table.
pub const RELATION: u8 = 0x52;

/// `I`: a new row.
pub const INSERT: u8 = 0x49;

/// `U`: a changed row.
pub const UPDATE: u8 = 0x55;

/// `D`: a removed row.
pub const DELETE: u8 = 0x44;

/// `N`: the tuple of a row as it is now.
pub const NEW_TUPLE: u8 = 0x4e;

/// `K`: the tuple of the key that a row had.
pub const KEY_TUPLE: u8 = 0x4b;

/// `O`: the tuple of a row as it was.
pub const OLD_TUPLE: u8 = 0x4f;

/// `n`: a null value.
pub const NULL_VALUE: u8 = 0x6e;

/// `u`: a value stored out of line that has not changed.
pub const UNCHANGED_VALUE: u8 = 0x75;

/// `t`: a value as text.
pub const TEXT_VALUE: u8 = 0x74;

/// One column value of a tuple.
pub open spec fn read_cell(d: Seq<u8>) -> Reading<Cell> {
    match read_u8(d) {
        Err(e) => Err(e),
        Ok((format, d)) => if format == NULL_VALUE {
            Ok((Cell::Null, d))
        } else if format == UNCHANGED_VALUE {
            Ok((Cell::UnchangedToast, d))
        } else if format == TEXT_VALUE {
            match read_u32(d) {
                Err(e) => Err(e),
                Ok((len, d)) => match read_bytes(d, len as nat) {
                    Err(e) => Err(e),
                    Ok((bytes, d)) => Ok((Cell::Text(text_of(bytes)), d)),
                },
            }
        } else {
            Err(FrameError::UnknownFormat(format))
        },
    }
}

/// `n` column values, one after the other.
pub open spec fn read_row(d: Seq<u8>, n: nat) -> Reading<Seq<Cell>>
    decreases n,
{
    if n == 0 {
        Ok((Seq::empty(), d))
    } else {
        match read_row(d, (n - 1) as nat) {
            Err(e) => Err(e),
            Ok((row, d)) => match read_cell(d) {
                Err(e) => Err(e),
                Ok((cell, d)) => Ok((row.push(cell), d)),
            },
        }
    }
}

/// A tuple: the number of its values, then the values.
pub open spec fn read_tuple(d: Seq<u8>) -> Reading<Seq<Cell>> {
    match read_u16(d) {
        Err(e) => Err(e),
        Ok((n, d)) => read_row(d, n as nat),
    }
}

/// The description of one column.
pub open spec fn read_column(d: Seq<u8>) -> Reading<Column> {
    match read_u8(d) {
        Err(e) => Err(e),
        Ok((flags, d)) => match read_cstring(d) {
            Err(e) => Err(e),
            Ok((name, d)) => match read_u32(d) {
                Err(e) => Err(e),
                Ok((type_oid, d)) => match read_i32(d) {
                    Err(e) => Err(e),
                    Ok((type_modifier, d)) => Ok(
                        (Column { flags, name, type_oid, type_modifier }, d),
                    ),
                },
            },
        },
    }
}

/// The descriptions of `n` columns, one after the other.
pub open spec fn read_columns(d: Seq<u8>, n: nat) -> Reading<Seq<Column>>
    decreases n,
{
    if n == 0 {
        Ok((Seq::empty(), d))
    } else {
        match read_columns(d, (n - 1) as nat) {
            Err(e) => Err(e),
            Ok((columns, d)) => match read_column(d) {
                Err(e) => Err(e),
                Ok((column, d)) => Ok((columns.push(column), d)),
            },
        }
    }
}

/// A relation message: the id of a table and its schema.
pub open spec fn read_relation(d: Seq<u8>) -> Reading<(u32, Relation)> {
    match read_u32(d) {
        Err(e) => Err(e),
        Ok((id, d)) => match read_cstring(d) {
            Err(e) => Err(e),
            Ok((namespace, d)) => match read_cstring(d) {
                Err(e) => Err(e),
                Ok((table_name, d)) => match read_u8(d) {
                    Err(e) => Err(e),
                    Ok((replica_identity, d)) => match read_u16(d) {
                        Err(e) => Err(e),
                        Ok((n, d)) => match read_columns(d, n as nat) {
                            Err(e) => Err(e),
                            Ok((columns, d)) => Ok(
                                (
                                    (
                                        id,
                                        Relation {
                                            namespace,
                                            table_name,
                                            replica_identity,
                                            columns,
                                        },
                                    ),
                                    d,
                                ),
                            ),
                        },
                    },
                },
            },
        },
    }
}

/// What a value contributes to the fields of its row: a null counts as `NULL`, an
/// unchanged out-of-line value as nothing.
pub open spec fn cell_text(cell: Cell) -> Option<Seq<char>> {
    match cell {
        Cell::Text(text) => Some(text),
        Cell::Null => Some("NULL"@),
        Cell::UnchangedToast => None,
    }
}

/// The first `n` values under the names of their columns, of the key columns alone
/// where `keys_only`. Where two columns share a name the later one counts.
pub open spec fn row_fields(
    columns: Seq<Column>,
    row: Seq<Cell>,
    keys_only: bool,
    n: nat,
) -> Fields
    decreases n,
{
    if n == 0 {
        Map::empty()
    } else {
        let before = row_fields(columns, row, keys_only, (n - 1) as nat);
        match cell_text(row[n - 1]) {
            Some(text) if !keys_only || columns[n - 1].is_key() => before.insert(
                columns[n - 1].name,
                text,
            ),
            _ => before,
        }
    }
}

/// How many values of a row have a column.
pub open spec fn shared_len(columns: Seq<Column>, row: Seq<Cell>) -> nat {
    if columns.len() <= row.len() {
        columns.len()
    } else {
        row.len()
    }
}

/// The fields of a row.
pub open spec fn data_fields(columns: Seq<Column>, row: Seq<Cell>) -> Fields {
    row_fields(columns, row, false, shared_len(columns, row))
}

/// The key fields of a row.
pub open spec fn key_fields(columns: Seq<Column>, row: Seq<Cell>) -> Fields {
    row_fields(columns, row, true, shared_len(columns, row))
}

/// What a row message refers to: the relation under the id that it starts with.
pub open spec fn read_target(relations: Map<u32, Relation>, id: u32) -> Result<
    Relation,
    FrameError,
> {
    if relations.contains_key(id) {
        Ok(relations[id])
    } else {
        Err(FrameError::UnknownRelation(id))
    }
}

/// An insert message: the new row of a known relation.
pub open spec fn read_insert(relations: Map<u32, Relation>, d: Seq<u8>) -> Reading<Change> {
    match read_u32(d) {
        Err(e) => Err(e),
        Ok((id, d)) => match read_u8(d) {
            Err(e) => Err(e),
            Ok((kind, d)) => if kind != NEW_TUPLE {
                Err(FrameError::UnexpectedTuple(kind))
            } else {
                match read_target(relations, id) {
                    Err(e) => Err(e),
                    Ok(rel) => match read_tuple(d) {
                        Err(e) => Err(e),
                        Ok((row, d)) => Ok(
                            (
                                Change::Insert {
                                    table: rel.table_name,
                                    key: key_fields(rel.columns, row),
                                    data: data_fields(rel.columns, row),
                                },
                                d,
                            ),
                        ),
                    },
                }
            },
        },
    }
}

/// Whether bytes start with the tag of a tuple.
pub open spec fn starts_tuple(d: Seq<u8>) -> bool {
    d.len() > 0 && (d[0] == KEY_TUPLE || d[0] == OLD_TUPLE || d[0] == NEW_TUPLE)
}

/// The tuples of an update, in any number: the last old or key tuple and the last
/// new one. They end with the bytes, or before a byte that starts no tuple.
pub open spec fn read_blocks(
    d: Seq<u8>,
    old_row: Option<Seq<Cell>>,
    new_row: Option<Seq<Cell>>,
) -> Reading<(Option<Seq<Cell>>, Option<Seq<Cell>>)>
    decreases d.len(),
{
    proof {
        lemma_read_tuple_shrinks(d.skip(1));
    }
    if d.len() == 0 {
        Ok(((old_row, new_row), d))
    } else if d[0] == KEY_TUPLE || d[0] == OLD_TUPLE {
        match read_tuple(d.skip(1)) {
            Err(e) => Err(e),
            Ok((row, rest)) => read_blocks(rest, Some(row), new_row),
        }
    } else if d[0] == NEW_TUPLE {
        match read_tuple(d.skip(1)) {
            Err(e) => Err(e),
            Ok((row, rest)) => read_blocks(rest, old_row, Some(row)),
        }
    } else {
        Ok(((old_row, new_row), d))
    }
}

/// An update message: the new row of a known relation, under the key that the row
/// had before, or under its new key where no earlier one is told.
pub open spec fn read_update(relations: Map<u32, Relation>, d: Seq<u8>) -> Reading<Change> {
    match read_u32(d) {
        Err(e) => Err(e),
        Ok((id, d)) => match read_target(relations, id) {
            Err(e) => Err(e),
            Ok(rel) => match read_blocks(d, None, None) {
                Err(e) => Err(e),
                Ok(((old_row, new_row), d)) => match new_row {
                    None => Err(FrameError::MissingNewTuple),
                    Some(row) => Ok(
                        (
                            Change::Update {
                                table: rel.table_name,
                                key: match old_row {
                                    Some(old) => key_fields(rel.columns, old),
                                    None => key_fields(rel.columns, row),
                                },
                                data: data_fields(rel.columns, row),
                            },
                            d,
                        ),
                    ),
                },
            },
        },
    }
}

/// A delete message: the old row of a known relation, or the key of it.
pub open spec fn read_delete(relations: Map<u32, Relation>, d: Seq<u8>) -> Reading<Change> {
    match read_u32(d) {
        Err(e) => Err(e),
        Ok((id, d)) => match read_u8(d) {
            Err(e) => Err(e),
            Ok((kind, d)) => if kind != OLD_TUPLE && kind != KEY_TUPLE {
                Err(FrameError::UnexpectedTuple(kind))
            } else {
                match read_target(relations, id) {
                    Err(e) => Err(e),
                    Ok(rel) => match read_tuple(d) {
                        Err(e) => Err(e),
                        Ok((row, d)) => Ok(
                            (
                                Change::Delete {
                                    table: rel.table_name,
                                    key: key_fields(rel.columns, row),
                                },
                                d,
                            ),
                        ),
                    },
                }
            },
        },
    }
}

/// The schemas that have been announced and the changes of the open transaction.
#[verifier::ext_equal]
pub ghost struct Replica {
    pub relations: Map<u32, Relation>,
    pub changes: Seq<Change>,
}

impl Replica {
    pub open spec fn with_relation(self, id: u32, relation: Relation) -> Replica {
        Replica { relations: self.relations.insert(id, relation), ..self }
    }

    pub open spec fn with_change(self, change: Change) -> Replica {
        Replica { changes: self.changes.push(change), ..self }
    }
}

/// What the message at the front of a frame does.
pub ghost enum Step {
    /// It is read, and leaves these bytes.
    Next(Replica, Seq<u8>),
    /// Its type is not known: the rest of the frame is left alone.
    Stop,
    /// It cannot be read.
    Fail(FrameError),
}

/// The change that a row message appends.
pub open spec fn change_step(replica: Replica, reading: Reading<Change>) -> Step {
    match reading {
        Ok((change, rest)) => Step::Next(replica.with_change(change), rest),
        Err(e) => Step::Fail(e),
    }
}

/// The message at the front of a frame that is not empty.
pub open spec fn frame_step(replica: Replica, d: Seq<u8>) -> Step {
    let body = d.skip(1);
    if d[0] == RELATION {
        match read_relation(body) {
            Ok(((id, relation), rest)) => Step::Next(replica.with_relation(id, relation), rest),
            Err(e) => Step::Fail(e),
        }
    } else if d[0] == INSERT {
        change_step(replica, read_insert(replica.relations, body))
    } else if d[0] == UPDATE {
        change_step(replica, read_update(replica.relations, body))
    } else if d[0] == DELETE {
        change_step(replica, read_delete(replica.relations, body))
    } else {
        Step::Stop
    }
}

/// The messages of a frame, one after the other: the state after them, and why one
/// could not be read.
pub open spec fn frame_run(replica: Replica, d: Seq<u8>) -> (Replica, Option<FrameError>)
    decreases d.len(),
{
    proof {
        lemma_frame_step_shrinks(replica, d);
    }
    if d.len() == 0 {
        (replica, None)
    } else {
        match frame_step(replica, d) {
            Step::Next(next, rest) => frame_run(next, rest),
            Step::Stop => (replica, None),
            Step::Fail(e) => (replica, Some(e)),
        }
    }
}

pub proof fn lemma_read_row_shrinks(d: Seq<u8>, n: nat)
    ensures
        read_row(d, n) matches Ok((_, rest)) ==> rest.len() <= d.len(),
    decreases n,
{
    if n > 0 {
        lemma_read_row_shrinks(d, (n - 1) as nat);
    }
}

pub proof fn lemma_read_tuple_shrinks(d: Seq<u8>)
    ensures
        read_tuple(d) matches Ok((_, rest)) ==> rest.len() < d.len(),
{
    if let Ok((n, rest)) = read_u16(d) {
        lemma_read_row_shrinks(rest, n as nat);
    }
}

pub proof fn lemma_read_columns_shrinks(d: Seq<u8>, n: nat)
    ensures
        read_columns(d, n) matches Ok((_, rest)) ==> rest.len() <= d.len(),
    decreases n,
{
    if n > 0 {
        lemma_read_columns_shrinks(d, (n - 1) as nat);
        if let Ok((_, d)) = read_columns(d, (n - 1) as nat) {
            if let Ok((_, d)) = read_u8(d) {
                lemma_read_cstring_shrinks(d);
            }
        }
    }
}

pub proof fn lemma_read_cstring_shrinks(d: Seq<u8>)
    ensures
        read_cstring(d) matches Ok((_, rest)) ==> rest.len() < d.len(),
{
    if d.contains(0) {
        lemma_first_null_exists(d, d.len() as int);
    }
}

pub proof fn lemma_first_null_exists(d: Seq<u8>, n: int)
    requires
        0 <= n <= d.len(),
        exists|i: int| 0 <= i < n && d[i] == 0,
    ensures
        exists|i: int| crate::wire::is_first_null(d, i),
    decreases n,
{
    let i = choose|i: int| 0 <= i < n && d[i] == 0;
    if exists|k: int| 0 <= k < i && d[k] == 0 {
        lemma_first_null_exists(d, i);
    } else {
        assert(crate::wire::is_first_null(d, i));
    }
}

pub proof fn lemma_read_relation_shrinks(d: Seq<u8>)
    ensures
        read_relation(d) matches Ok((_, rest)) ==> rest.len() < d.len(),
{
    if let Ok((_, d)) = read_u32(d) {
        lemma_read_cstring_shrinks(d);
        if let Ok((_, d)) = read_cstring(d) {
            lemma_read_cstring_shrinks(d);
            if let Ok((_, d)) = read_cstring(d) {
                if let Ok((_, d)) = read_u8(d) {
                    if let Ok((n, d)) = read_u16(d) {
                        lemma_read_columns_shrinks(d, n as nat);
                    }
                }
            }
        }
    }
}

pub proof fn lemma_read_blocks_shrinks(
    d: Seq<u8>,
    old_row: Option<Seq<Cell>>,
    new_row: Option<Seq<Cell>>,
)
    ensures
        read_blocks(d, old_row, new_row) matches Ok((_, rest)) ==> rest.len() <= d.len(),
    decreases d.len(),
{
    if d.len() > 0 {
        lemma_read_tuple_shrinks(d.skip(1));
        if let Ok((row, rest)) = read_tuple(d.skip(1)) {
            lemma_read_blocks_shrinks(rest, Some(row), new_row);
            lemma_read_blocks_shrinks(rest, old_row, Some(row));
        }
    }
}

pub proof fn lemma_frame_step_shrinks(replica: Replica, d: Seq<u8>)
    ensures
        d.len() > 0 ==> (frame_step(replica, d) matches Step::Next(_, rest) ==> rest.len()
            < d.len()),
{
    if d.len() > 0 {
        let body = d.skip(1);
        lemma_read_relation_shrinks(body);
        if let Ok((_, d)) = read_u32(body) {
            lemma_read_blocks_shrinks(d, None, None);
            if let Ok((_, d)) = read_u8(d) {
                lemma_read_tuple_shrinks(d);
            }
        }
    }
}

/// A row that cannot be read as far as `n` values cannot be read any further.
proof fn lemma_row_failure_stays(d: Seq<u8>, n: nat, more: nat)
    requires
        n <= more,
        read_row(d, n) is Err,
    ensures
        read_row(d, more) == read_row(d, n),
    decreases more,
{
    if n < more {
        lemma_row_failure_stays(d, n, (more - 1) as nat);
    }
}

/// Columns that cannot be read as far as `n` cannot be read any further.
proof fn lemma_columns_failure_stays(d: Seq<u8>, n: nat, more: nat)
    requires
        n <= more,
        read_columns(d, n) is Err,
    ensures
        read_columns(d, more) == read_columns(d, n),
    decreases more,
{
    if n < more {
        lemma_columns_failure_stays(d, n, (more - 1) as nat);
    }
}

fn parse_cell(data: &mut &[u8]) -> (cell: Result<ColData, FrameError>)
    ensures
        match read_cell(old(data)@) {
            Ok((c, rest)) => cell is Ok && cell->Ok_0@ == c && final(data)@ == rest,
            Err(e) => cell == Err::<ColData, FrameError>(e),
        },
{
    let format = match take_u8(data) {
        Ok(b) => b,
        Err(e) => return Err(e),
    };
    if format == NULL_VALUE {
        Ok(ColData::Null)
    } else if format == UNCHANGED_VALUE {
        Ok(ColData::UnchangedToast)
    } else if format == TEXT_VALUE {
        let len = match take_u32(data) {
            Ok(n) => n as usize,
            Err(e) => return Err(e),
        };
        match take_text(data, len) {
            Ok(text) => Ok(ColData::Text(text)),
            Err(e) => Err(e),
        }
    } else {
        Err(FrameError::UnknownFormat(format))
    }
}

/// Takes the `num_columns` values of a tuple off the front of `data`.
pub fn parse_tuple(data: &mut &[u8], num_columns: u16) -> (row: Result<Vec<ColData>, FrameError>)
    ensures
        match read_row(old(data)@, num_columns as nat) {
            Ok((cells, rest)) => row is Ok && cells_of(row->Ok_0@) == cells && final(data)@ == rest,
            Err(e) => row == Err::<Vec<ColData>, FrameError>(e),
        },
{
    let mut row_data: Vec<ColData> = Vec::with_capacity(num_columns as usize);
    let ghost start = data@;
    assert(cells_of(row_data@) =~= Seq::<Cell>::empty());
    let mut i: u16 = 0;
    while i < num_columns
        invariant
            i <= num_columns,
            start == old(data)@,
            read_row(start, i as nat) == Ok::<(Seq<Cell>, Seq<u8>), FrameError>(
                (cells_of(row_data@), data@),
            ),
        decreases num_columns - i,
    {
        let ghost before = row_data@;
        match parse_cell(data) {
            Ok(cell) => {
                row_data.push(cell);
                assert(cells_of(row_data@) =~= cells_of(before).push(cell@));
            },
            Err(e) => {
                proof {
                    lemma_row_failure_stays(start, (i + 1) as nat, num_columns as nat);
                }
                return Err(e);
            },
        }
        i = i + 1;
    }
    Ok(row_data)
}

pub(crate) fn parse_counted_tuple(data: &mut &[u8]) -> (row: Result<Vec<ColData>, FrameError>)
    ensures
        match read_tuple(old(data)@) {
            Ok((cells, rest)) => row is Ok && cells_of(row->Ok_0@) == cells && final(data)@ == rest,
            Err(e) => row == Err::<Vec<ColData>, FrameError>(e),
        },
{
    let num_columns = match take_u16(data) {
        Ok(n) => n,
        Err(e) => return Err(e),
    };
    parse_tuple(data, num_columns)
}

fn put_cell(fields: &mut FieldMap, name: &String, cell: &ColData)
    ensures
        final(fields)@ == match cell_text(cell@) {
            Some(text) => old(fields)@.insert(name@, text),
            None => old(fields)@,
        },
{
    match cell {
        ColData::Text(s) => fields.insert(name.clone(), s.clone()),
        ColData::Null => fields.insert(name.clone(), "NULL".to_owned()),
        ColData::UnchangedToast => {},
    }
}

/// The fields of a row: its values under the names of their columns.
pub fn zip_columns(columns: &Vec<ColumnInfo>, row_data: &Vec<ColData>) -> (fields: FieldMap)
    ensures
        fields@ == data_fields(columns_of(columns@), cells_of(row_data@)),
{
    let ghost cols = columns_of(columns@);
    let ghost cells = cells_of(row_data@);
    let mut fields = FieldMap::new();
    let mut i: usize = 0;
    while i < columns.len() && i < row_data.len()
        invariant
            cols == columns_of(columns@),
            cells == cells_of(row_data@),
            i <= columns.len(),
            i <= row_data.len(),
            fields@ == row_fields(cols, cells, false, i as nat),
        decreases columns.len() - i,
    {
        assert(cols[i as int] == columns@[i as int]@);
        assert(cells[i as int] == row_data@[i as int]@);
        put_cell(&mut fields, &columns[i].name, &row_data[i]);
        i = i + 1;
    }
    fields
}

/// The key fields of a row: its values under the names of their columns, of the
/// key columns alone.
pub fn extract_key_columns(columns: &Vec<ColumnInfo>, row_data: &Vec<ColData>) -> (fields: FieldMap)
    ensures
        fields@ == key_fields(columns_of(columns@), cells_of(row_data@)),
{
    let ghost cols = columns_of(columns@);
    let ghost cells = cells_of(row_data@);
    let mut fields = FieldMap::new();
    let mut i: usize = 0;
    while i < columns.len() && i < row_data.len()
        invariant
            cols == columns_of(columns@),
            cells == cells_of(row_data@),
            i <= columns.len(),
            i <= row_data.len(),
            fields@ == row_fields(cols, cells, true, i as nat),
        decreases columns.len() - i,
    {
        assert(cols[i as int] == columns@[i as int]@);
        assert(cells[i as int] == row_data@[i as int]@);
        if columns[i].is_key() {
            put_cell(&mut fields, &columns[i].name, &row_data[i]);
        }
        i = i + 1;
    }
    fields
}

fn parse_column(data: &mut &[u8]) -> (column: Result<ColumnInfo, FrameError>)
    ensures
        match read_column(old(data)@) {
            Ok((c, rest)) => column is Ok && column->Ok_0@ == c && final(data)@ == rest,
            Err(e) => column == Err::<ColumnInfo, FrameError>(e),
        },
{
    let flags = match take_u8(data) {
        Ok(b) => b,
        Err(e) => return Err(e),
    };
    let name = match parse_cstring(data) {
        Ok(s) => s,
        Err(e) => return Err(e),
    };
    let type_oid = match take_u32(data) {
        Ok(n) => n,
        Err(e) => return Err(e),
    };
    let type_modifier = match take_i32(data) {
        Ok(n) => n,
        Err(e) => return Err(e),
    };
    Ok(ColumnInfo { flags, name, type_oid, type_modifier })
}

fn parse_columns(data: &mut &[u8], num_columns: u16) -> (columns: Result<
    Vec<ColumnInfo>,
    FrameError,
>)
    ensures
        match read_columns(old(data)@, num_columns as nat) {
            Ok((c, rest)) => columns is Ok && columns_of(columns->Ok_0@) == c && final(data)@
                == rest,
            Err(e) => columns == Err::<Vec<ColumnInfo>, FrameError>(e),
        },
{
    let mut columns: Vec<ColumnInfo> = Vec::with_capacity(num_columns as usize);
    let ghost start = data@;
    assert(columns_of(columns@) =~= Seq::<Column>::empty());
    let mut i: u16 = 0;
    while i < num_columns
        invariant
            i <= num_columns,
            start == old(data)@,
            read_columns(start, i as nat) == Ok::<(Seq<Column>, Seq<u8>), FrameError>(
                (columns_of(columns@), data@),
            ),
        decreases num_columns - i,
    {
        let ghost before = columns@;
        match parse_column(data) {
            Ok(column) => {
                columns.push(column);
                assert(columns_of(columns@) =~= columns_of(before).push(column@));
            },
            Err(e) => {
                proof {
                    lemma_columns_failure_stays(start, (i + 1) as nat, num_columns as nat);
                }
                return Err(e);
            },
        }
        i = i + 1;
    }
    Ok(columns)
}

/// Takes the id and the schema of a relation message off the front of `data`.
pub fn parse_relation_info(data: &mut &[u8]) -> (relation: Result<(u32, RelationInfo), FrameError>)
    ensures
        match read_relation(old(data)@) {
            Ok(((id, r), rest)) => relation is Ok && relation->Ok_0.0 == id
                && relation->Ok_0.1@ == r && final(data)@ == rest,
            Err(e) => relation == Err::<(u32, RelationInfo), FrameError>(e),
        },
{
    let relation_id = match take_u32(data) {
        Ok(n) => n,
        Err(e) => return Err(e),
    };
    let namespace = match parse_cstring(data) {
        Ok(s) => s,
        Err(e) => return Err(e),
    };
    let table_name = match parse_cstring(data) {
        Ok(s) => s,
        Err(e) => return Err(e),
    };
    let replica_identity = match take_u8(data) {
        Ok(b) => b,
        Err(e) => return Err(e),
    };
    let num_columns = match take_u16(data) {
        Ok(n) => n,
        Err(e) => return Err(e),
    };
    let columns = match parse_columns(data, num_columns) {
        Ok(c) => c,
        Err(e) => return Err(e),
    };
    Ok((relation_id, RelationInfo { namespace, table_name, replica_identity, columns }))
}

/// The rows of an optional row.
pub open spec fn optional_cells(row: Option<Vec<ColData>>) -> Option<Seq<Cell>> {
    match row {
        Some(r) => Some(cells_of(r@)),
        None => None,
    }
}

/// Takes the tuples of an update off the front of `data`, and nothing behind them:
/// the last old or key tuple, and the last new one.
pub fn parse_blocks(data: &mut &[u8]) -> (rows: Result<
    (Option<Vec<ColData>>, Option<Vec<ColData>>),
    FrameError,
>)
    ensures
        match read_blocks(old(data)@, None, None) {
            Ok(((old_row, new_row), rest)) => rows is Ok && optional_cells(rows->Ok_0.0) == old_row
                && optional_cells(rows->Ok_0.1) == new_row && final(data)@ == rest,
            Err(e) => rows == Err::<(Option<Vec<ColData>>, Option<Vec<ColData>>), FrameError>(e),
        },
{
    let mut old_row: Option<Vec<ColData>> = None;
    let mut new_row: Option<Vec<ColData>> = None;
    let ghost start = data@;
    while has_remaining(data)
        invariant
            start == old(data)@,
            read_blocks(start, None, None) == read_blocks(
                data@,
                optional_cells(old_row),
                optional_cells(new_row),
            ),
        decreases data@.len(),
    {
        proof {
            lemma_read_tuple_shrinks(data@.skip(1));
        }
        let tuple_type = data[0];
        if tuple_type != KEY_TUPLE && tuple_type != OLD_TUPLE && tuple_type != NEW_TUPLE {
            // The next message starts here.
            return Ok((old_row, new_row));
        }
        match take_u8(data) {
            Ok(_) => {},
            Err(e) => return Err(e),
        }
        let row = match parse_counted_tuple(data) {
            Ok(r) => r,
            Err(e) => return Err(e),
        };
        if tuple_type == NEW_TUPLE {
            new_row = Some(row);
        } else {
            old_row = Some(row);
        }
    }
    Ok((old_row, new_row))
}

/// The relations that a cache holds.
pub open spec fn relations_of(cache: Map<u32, RelationInfo>) -> Map<u32, Relation> {
    cache.map_values(|r: RelationInfo| r@)
}

/// Finds the relation under an id.
pub fn find_relation(cache: &HashMap<u32, RelationInfo>, relation_id: u32) -> (relation: Result<
    &RelationInfo,
    FrameError,
>)
    ensures
        match read_target(relations_of(cache@), relation_id) {
            Ok(r) => relation is Ok && relation->Ok_0@ == r,
            Err(e) => relation == Err::<&RelationInfo, FrameError>(e),
        },
{
    match cache.get(&relation_id) {
        Some(rel) => Ok(rel),
        None => Err(FrameError::UnknownRelation(relation_id)),
    }
}

/// Collects the row-level changes of a transaction from `pgoutput` frames.
pub struct PgoutputParser {
    relation_cache: HashMap<u32, RelationInfo>,
    txn_buffer: Vec<TxnEvent>,
}

impl View for PgoutputParser {
    type V = Replica;

    closed spec fn view(&self) -> Replica {
        Replica {
            relations: relations_of(self.relation_cache@),
            changes: changes_of(self.txn_buffer@),
        }
    }
}

impl PgoutputParser {
    /// Knows no relation and holds no change.
    pub fn new() -> (parser: PgoutputParser)
        ensures
            parser@ == (Replica { relations: Map::empty(), changes: Seq::empty() }),
    {
        let parser = PgoutputParser { relation_cache: HashMap::new(), txn_buffer: Vec::new() };
        assert(parser@ =~= (Replica { relations: Map::empty(), changes: Seq::empty() }));
        parser
    }

    /// Start a new transaction: what an unfinished one left is dropped, and the
    /// relations stay known.
    pub fn begin(&mut self, _xid: u32, _final_lsn: u64)
        ensures
            final(self)@ == (Replica { changes: Seq::empty(), ..old(self)@ }),
    {
        self.txn_buffer.clear();
        assert(self@ =~= (Replica { changes: Seq::empty(), ..old(self)@ }));
    }

    /// Finalize the current transaction on a `Commit` event: hands its changes out
    /// and leaves none behind.
    pub fn commit(&mut self, commit_lsn: u64) -> (txn: ParsedTransaction)
        ensures
            txn.commit_lsn == commit_lsn,
            changes_of(txn.events@) == old(self)@.changes,
            final(self)@ == (Replica { changes: Seq::empty(), ..old(self)@ }),
    {
        let mut events: Vec<TxnEvent> = Vec::new();
        std::mem::swap(&mut events, &mut self.txn_buffer);
        assert(self@ =~= (Replica { changes: Seq::empty(), ..old(self)@ }));
        ParsedTransaction { commit_lsn, events }
    }

    fn push_event(&mut self, event: TxnEvent)
        ensures
            final(self)@ == old(self)@.with_change(event@),
    {
        self.txn_buffer.push(event);
        assert(self@ =~= old(self)@.with_change(event@));
    }

    fn parse_relation(&mut self, data: &mut &[u8]) -> (done: Result<(), FrameError>)
        ensures
            match read_relation(old(data)@) {
                Ok(((id, relation), rest)) => done is Ok && final(self)@
                    == old(self)@.with_relation(id, relation) && final(data)@ == rest,
                Err(e) => done == Err::<(), FrameError>(e) && final(self)@ == old(self)@,
            },
    {
        match parse_relation_info(data) {
            Ok((relation_id, relation)) => {
                self.relation_cache.insert(relation_id, relation);
                assert(self@ =~= old(self)@.with_relation(relation_id, relation@));
                Ok(())
            },
            Err(e) => Err(e),
        }
    }

    fn parse_insert(&mut self, data: &mut &[u8]) -> (done: Result<(), FrameError>)
        ensures
            match read_insert(old(self)@.relations, old(data)@) {
                Ok((change, rest)) => done is Ok && final(self)@ == old(self)@.with_change(change)
                    && final(data)@ == rest,
                Err(e) => done == Err::<(), FrameError>(e) && final(self)@ == old(self)@,
            },
    {
        let relation_id = match take_u32(data) {
            Ok(n) => n,
            Err(e) => return Err(e),
        };
        let tuple_type = match take_u8(data) {
            Ok(b) => b,
            Err(e) => return Err(e),
        };
        if tuple_type != NEW_TUPLE {
            return Err(FrameError::UnexpectedTuple(tuple_type));
        }
        let rel = match find_relation(&self.relation_cache, relation_id) {
            Ok(r) => r,
            Err(e) => return Err(e),
        };
        let row_data = match parse_counted_tuple(data) {
            Ok(r) => r,
            Err(e) => return Err(e),
        };
        let event = TxnEvent::Insert {
            table: rel.table_name.clone(),
            key: extract_key_columns(&rel.columns, &row_data),
            data: zip_columns(&rel.columns, &row_data),
        };
        self.push_event(event);
        Ok(())
    }

    fn parse_update(&mut self, data: &mut &[u8]) -> (done: Result<(), FrameError>)
        ensures
            match read_update(old(self)@.relations, old(data)@) {
                Ok((change, rest)) => done is Ok && final(self)@ == old(self)@.with_change(change)
                    && final(data)@ == rest,
                Err(e) => done == Err::<(), FrameError>(e) && final(self)@ == old(self)@,
            },
    {
        let relation_id = match take_u32(data) {
            Ok(n) => n,
            Err(e) => return Err(e),
        };
        let rel = match find_relation(&self.relation_cache, relation_id) {
            Ok(r) => r,
            Err(e) => return Err(e),
        };
        let (old_row, new_row) = match parse_blocks(data) {
            Ok(rows) => rows,
            Err(e) => return Err(e),
        };
        let row_data = match new_row {
            Some(r) => r,
            None => return Err(FrameError::MissingNewTuple),
        };
        // An update that leaves the key alone tells no old key.
        let key = match &old_row {
            Some(old) => extract_key_columns(&rel.columns, old),
            None => extract_key_columns(&rel.columns, &row_data),
        };
        let event = TxnEvent::Update {
            table: rel.table_name.clone(),
            key,
            data: zip_columns(&rel.columns, &row_data),
        };
        self.push_event(event);
        Ok(())
    }

    fn parse_delete(&mut self, data: &mut &[u8]) -> (done: Result<(), FrameError>)
        ensures
            match read_delete(old(self)@.relations, old(data)@) {
                Ok((change, rest)) => done is Ok && final(self)@ == old(self)@.with_change(change)
                    && final(data)@ == rest,
                Err(e) => done == Err::<(), FrameError>(e) && final(self)@ == old(self)@,
            },
    {
        let relation_id = match take_u32(data) {
            Ok(n) => n,
            Err(e) => return Err(e),
        };
        let tuple_type = match take_u8(data) {
            Ok(b) => b,
            Err(e) => return Err(e),
        };
        if tuple_type != OLD_TUPLE && tuple_type != KEY_TUPLE {
            return Err(FrameError::UnexpectedTuple(tuple_type));
        }
        let rel = match find_relation(&self.relation_cache, relation_id) {
            Ok(r) => r,
            Err(e) => return Err(e),
        };
        let row_data = match parse_counted_tuple(data) {
            Ok(r) => r,
            Err(e) => return Err(e),
        };
        let event = TxnEvent::Delete {
            table: rel.table_name.clone(),
            key: extract_key_columns(&rel.columns, &row_data),
        };
        self.push_event(event);
        Ok(())
    }

    /// Parse one `XLogData` frame, which contains row-level messages
    /// (`Relation`/`Insert`/`Update`/`Delete`), as far as it can be read.
    pub fn try_parse_frame(&mut self, data: &[u8]) -> (done: Result<(), FrameError>)
        ensures
            match frame_run(old(self)@, data@) {
                (replica, None) => done is Ok && final(self)@ == replica,
                (replica, Some(e)) => done == Err::<(), FrameError>(e) && final(self)@ == replica,
            },
    {
        let mut rest = data;
        while has_remaining(&rest)
            invariant
                frame_run(old(self)@, data@) == frame_run(self@, rest@),
            decreases rest@.len(),
        {
            proof {
                lemma_frame_step_shrinks(self@, rest@);
            }
            let msg_type = match take_u8(&mut rest) {
                Ok(b) => b,
                Err(e) => return Err(e),
            };
            let done = if msg_type == RELATION {
                self.parse_relation(&mut rest)
            } else if msg_type == INSERT {
                self.parse_insert(&mut rest)
            } else if msg_type == UPDATE {
                self.parse_update(&mut rest)
            } else if msg_type == DELETE {
                self.parse_delete(&mut rest)
            } else {
                return Ok(());
            };
            if let Err(e) = done {
                return Err(e);
            }
        }
        Ok(())
    }

    /// Parse one `XLogData` frame, which contains the row-level messages
    /// (`Relation`/`Insert`/`Update`/`Delete`). The `Begin`/`Commit` markers
    /// do not stand inside the frame bytes.
    pub fn parse_frame(&mut self, data: &[u8])
        requires
            frame_run(old(self)@, data@).1 is None,
        ensures
            final(self)@ == frame_run(old(self)@, data@).0,
    {
        let _ = self.try_parse_frame(data);
    }
}

}
