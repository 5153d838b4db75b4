//! The byte layout of the row-level messages, and that it is read back: a message
//! laid out for a schema or a row gives that schema or row, and messages that
//! stand one after the other in a frame are each read.

use crate::event::{Cell, Change, Column, Relation};
use crate::text::text_of;
use crate::wal::{
    data_fields, frame_run, frame_step, key_fields, lemma_first_null_exists,
    lemma_frame_step_shrinks, lemma_read_tuple_shrinks, read_blocks, read_cell, read_column,
    read_columns, read_delete, read_insert, read_relation, read_row, read_tuple, row_fields,
    shared_len, starts_tuple, Replica, Step, DELETE, INSERT, KEY_TUPLE, NEW_TUPLE, NULL_VALUE,
    OLD_TUPLE, RELATION, TEXT_VALUE, UNCHANGED_VALUE, UPDATE,
};
use crate::wire::{
    be_u32, is_first_null, read_cstring, read_i32, read_u16, read_u32, read_u64, read_u8,
    FrameError, Reading,
};
use vstd::prelude::*;
use vstd::utf8::{encode_scalar, encode_utf8};

verus! {

/// A 16-bit number, most significant byte first.
pub open spec fn u16_bytes(n: u16) -> Seq<u8> {
    seq![(n / 0x100) as u8, (n % 0x100) as u8]
}

/// A 32-bit number, most significant byte first.
pub open spec fn u32_bytes(n: u32) -> Seq<u8> {
    seq![
        (n / 0x100_0000) as u8,
        (n / 0x1_0000 % 0x100) as u8,
        (n / 0x100 % 0x100) as u8,
        (n % 0x100) as u8,
    ]
}

/// A 64-bit number, most significant byte first.
pub open spec fn u64_bytes(n: u64) -> Seq<u8> {
    u32_bytes((n / 0x1_0000_0000) as u32) + u32_bytes((n % 0x1_0000_0000) as u32)
}

/// A signed 32-bit number in two's complement.
pub open spec fn i32_bytes(n: i32) -> Seq<u8> {
    if n >= 0 {
        u32_bytes(n as u32)
    } else {
        u32_bytes((n + 0x1_0000_0000) as u32)
    }
}

/// A text with a null byte after it.
pub open spec fn cstring_bytes(text: Seq<char>) -> Seq<u8> {
    encode_utf8(text).push(0)
}

/// A column value.
pub open spec fn cell_bytes(cell: Cell) -> Seq<u8> {
    match cell {
        Cell::Null => seq![NULL_VALUE],
        Cell::UnchangedToast => seq![UNCHANGED_VALUE],
        Cell::Text(text) => seq![TEXT_VALUE] + u32_bytes(encode_utf8(text).len() as u32)
            + encode_utf8(text),
    }
}

/// Column values, one after the other.
pub open spec fn row_bytes(row: Seq<Cell>) -> Seq<u8>
    decreases row.len(),
{
    if row.len() == 0 {
        Seq::empty()
    } else {
        row_bytes(row.drop_last()) + cell_bytes(row.last())
    }
}

/// A row with the number of its values before it.
pub open spec fn tuple_bytes(row: Seq<Cell>) -> Seq<u8> {
    u16_bytes(row.len() as u16) + row_bytes(row)
}

/// The description of a column.
pub open spec fn column_bytes(column: Column) -> Seq<u8> {
    seq![column.flags] + cstring_bytes(column.name) + u32_bytes(column.type_oid) + i32_bytes(
        column.type_modifier,
    )
}

/// The descriptions of columns, one after the other.
pub open spec fn columns_bytes(columns: Seq<Column>) -> Seq<u8>
    decreases columns.len(),
{
    if columns.len() == 0 {
        Seq::empty()
    } else {
        columns_bytes(columns.drop_last()) + column_bytes(columns.last())
    }
}

/// The message that announces a relation.
pub open spec fn relation_message(id: u32, relation: Relation) -> Seq<u8> {
    seq![RELATION] + u32_bytes(id) + cstring_bytes(relation.namespace) + cstring_bytes(
        relation.table_name,
    ) + seq![relation.replica_identity] + u16_bytes(relation.columns.len() as u16) + columns_bytes(
        relation.columns,
    )
}

/// The message that a row was inserted.
pub open spec fn insert_message(id: u32, row: Seq<Cell>) -> Seq<u8> {
    seq![INSERT] + u32_bytes(id) + seq![NEW_TUPLE] + tuple_bytes(row)
}

/// The message that a row was deleted, with the row or its key under `kind`.
pub open spec fn delete_message(id: u32, kind: u8, row: Seq<Cell>) -> Seq<u8> {
    seq![DELETE] + u32_bytes(id) + seq![kind] + tuple_bytes(row)
}

/// The message that a row was updated and no earlier key is told.
pub open spec fn update_message(id: u32, row: Seq<Cell>) -> Seq<u8> {
    seq![UPDATE] + u32_bytes(id) + seq![NEW_TUPLE] + tuple_bytes(row)
}

/// The message that a row was updated, with the old row or key under `kind`.
pub open spec fn rekeying_message(id: u32, kind: u8, old_row: Seq<Cell>, row: Seq<Cell>) -> Seq<
    u8,
> {
    seq![UPDATE] + u32_bytes(id) + seq![kind] + tuple_bytes(old_row) + seq![NEW_TUPLE]
        + tuple_bytes(row)
}

/// Whether the texts of a row have lengths that the layout can tell.
pub open spec fn row_fits(row: Seq<Cell>) -> bool {
    &&& row.len() <= u16::MAX
    &&& forall|i: int|
        0 <= i < row.len() ==> (#[trigger] row[i] matches Cell::Text(text) ==> encode_utf8(
            text,
        ).len() <= u32::MAX)
}

/// Whether the names of a relation hold no null character and its columns can be
/// counted.
pub open spec fn relation_fits(relation: Relation) -> bool {
    &&& relation.columns.len() <= u16::MAX
    &&& !relation.namespace.contains('\0')
    &&& !relation.table_name.contains('\0')
    &&& forall|i: int|
        0 <= i < relation.columns.len() ==> !(#[trigger] relation.columns[i]).name.contains('\0')
}

proof fn lemma_numbers_read_back(rest: Seq<u8>, a: u16, b: u32, c: i32)
    ensures
        read_u16(u16_bytes(a) + rest) == Ok::<(u16, Seq<u8>), FrameError>((a, rest)),
        read_u32(u32_bytes(b) + rest) == Ok::<(u32, Seq<u8>), FrameError>((b, rest)),
        read_i32(i32_bytes(c) + rest) == Ok::<(i32, Seq<u8>), FrameError>((c, rest)),
{
    let s = u16_bytes(a) + rest;
    assert(s.skip(2) =~= rest);
    assert(a / 0x100 * 0x100 + a % 0x100 == a);
    lemma_u32_reads_back(b, rest);
    let unsigned = if c >= 0 {
        c as u32
    } else {
        (c + 0x1_0000_0000) as u32
    };
    lemma_u32_reads_back(unsigned, rest);
}

pub proof fn lemma_u32_reads_back(n: u32, rest: Seq<u8>)
    ensures
        read_u32(u32_bytes(n) + rest) == Ok::<(u32, Seq<u8>), FrameError>((n, rest)),
        be_u32(u32_bytes(n) + rest) == n,
{
    let s = u32_bytes(n) + rest;
    assert(s.skip(4) =~= rest);
    assert((n / 0x100_0000) * 0x100_0000 + (n / 0x1_0000 % 0x100) * 0x1_0000 + (n / 0x100 % 0x100)
        * 0x100 + n % 0x100 == n);
}

pub proof fn lemma_u64_reads_back(n: u64, rest: Seq<u8>)
    ensures
        read_u64(u64_bytes(n) + rest) == Ok::<(u64, Seq<u8>), FrameError>((n, rest)),
{
    let high = (n / 0x1_0000_0000) as u32;
    let low = (n % 0x1_0000_0000) as u32;
    let d = u64_bytes(n) + rest;
    let after = u32_bytes(low) + rest;
    assert(d =~= u32_bytes(high) + after);
    lemma_u32_reads_back(high, after);
    assert(d.skip(4) =~= after);
    lemma_u32_reads_back(low, rest);
    assert(d.skip(8) =~= rest);
}

/// A character other than the null character has no null byte in its encoding.
proof fn lemma_scalar_has_no_null(scalar: u32)
    requires
        scalar != 0,
        vstd::utf8::is_scalar(scalar),
    ensures
        !encode_scalar(scalar).contains(0),
{
    assert(scalar <= 0x7f && scalar != 0 ==> (scalar & 0x7F) as u8 != 0) by (bit_vector);
    assert((0xC0u8 | ((scalar >> 6) & 0x1F) as u8) != 0) by (bit_vector);
    assert((0xE0u8 | ((scalar >> 12) & 0x0F) as u8) != 0) by (bit_vector);
    assert((0xF0u8 | ((scalar >> 18) & 0x7) as u8) != 0) by (bit_vector);
    assert((0x80u8 | (scalar & 0x3F) as u8) != 0) by (bit_vector);
    assert((0x80u8 | ((scalar >> 6) & 0x3F) as u8) != 0) by (bit_vector);
    assert((0x80u8 | ((scalar >> 12) & 0x3F) as u8) != 0) by (bit_vector);
}

proof fn lemma_text_has_no_null(text: Seq<char>)
    requires
        !text.contains('\0'),
    ensures
        !encode_utf8(text).contains(0),
    decreases text.len(),
{
    if text.len() > 0 {
        let tail = text.drop_first();
        let c = text[0];
        assert(c != '\0') by {
            assert(text.contains(c));
        }
        assert forall|x: char| tail.contains(x) implies text.contains(x) by {
            let i = choose|i: int| 0 <= i < tail.len() && tail[i] == x;
            assert(text[i + 1] == x);
        }
        lemma_text_has_no_null(tail);
        vstd::utf8::char_is_scalar(c);
        vstd::utf8::char_u32_cast(c, c as u32);
        lemma_scalar_has_no_null(c as u32);
        let head = encode_scalar(c as u32);
        assert forall|i: int| 0 <= i < encode_utf8(text).len() implies encode_utf8(text)[i]
            != 0 by {
            if i < head.len() {
                assert(head.contains(head[i]));
            } else {
                let k = i - head.len();
                assert(encode_utf8(tail).contains(encode_utf8(tail)[k]));
            }
        }
    }
}

proof fn lemma_text_reads_back(text: Seq<char>)
    ensures
        text_of(encode_utf8(text)) == text,
{
    vstd::utf8::encode_utf8_valid_utf8(text);
    vstd::utf8::encode_utf8_decode_utf8(text);
}

proof fn lemma_cstring_reads_back(text: Seq<char>, rest: Seq<u8>)
    requires
        !text.contains('\0'),
    ensures
        read_cstring(cstring_bytes(text) + rest) == Ok::<(Seq<char>, Seq<u8>), FrameError>(
            (text, rest),
        ),
{
    let bytes = encode_utf8(text);
    let d = cstring_bytes(text) + rest;
    lemma_text_has_no_null(text);
    lemma_text_reads_back(text);
    let n = bytes.len() as int;
    assert(d[n] == 0);
    assert(d.contains(0));
    assert forall|k: int| 0 <= k < n implies d[k] != 0 by {
        assert(d[k] == bytes[k]);
        assert(bytes.contains(bytes[k]));
    }
    assert(is_first_null(d, n));
    let end = choose|i: int| is_first_null(d, i);
    assert(end == n);
    assert(d.take(n) =~= bytes);
    assert(d.skip(n + 1) =~= rest);
}

proof fn lemma_byte_reads_back(b: u8, rest: Seq<u8>)
    ensures
        read_u8(seq![b] + rest) == Ok::<(u8, Seq<u8>), FrameError>((b, rest)),
{
    assert((seq![b] + rest).skip(1) =~= rest);
}

proof fn lemma_cell_reads_back(cell: Cell, rest: Seq<u8>)
    requires
        cell matches Cell::Text(text) ==> encode_utf8(text).len() <= u32::MAX,
    ensures
        read_cell(cell_bytes(cell) + rest) == Ok::<(Cell, Seq<u8>), FrameError>((cell, rest)),
{
    match cell {
        Cell::Null => lemma_byte_reads_back(NULL_VALUE, rest),
        Cell::UnchangedToast => lemma_byte_reads_back(UNCHANGED_VALUE, rest),
        Cell::Text(text) => {
            let bytes = encode_utf8(text);
            let n = bytes.len() as u32;
            let after_len = bytes + rest;
            let after_kind = u32_bytes(n) + after_len;
            assert(cell_bytes(cell) + rest =~= seq![TEXT_VALUE] + after_kind);
            lemma_byte_reads_back(TEXT_VALUE, after_kind);
            lemma_u32_reads_back(n, after_len);
            assert(after_len.take(n as int) =~= bytes);
            assert(after_len.skip(n as int) =~= rest);
            lemma_text_reads_back(text);
        },
    }
}

proof fn lemma_row_reads_back(row: Seq<Cell>, rest: Seq<u8>)
    requires
        row_fits(row),
    ensures
        read_row(row_bytes(row) + rest, row.len()) == Ok::<(Seq<Cell>, Seq<u8>), FrameError>(
            (row, rest),
        ),
    decreases row.len(),
{
    if row.len() == 0 {
        assert(row_bytes(row) + rest =~= rest);
        assert(row =~= Seq::<Cell>::empty());
    } else {
        let head = row.drop_last();
        let after = cell_bytes(row.last()) + rest;
        assert forall|i: int| 0 <= i < head.len() implies (#[trigger] head[i] matches Cell::Text(
            text,
        ) ==> encode_utf8(text).len() <= u32::MAX) by {
            assert(head[i] == row[i]);
        }
        lemma_row_reads_back(head, after);
        assert(row_bytes(row) + rest =~= row_bytes(head) + after);
        lemma_cell_reads_back(row.last(), rest);
        assert(head.push(row.last()) =~= row);
    }
}

proof fn lemma_tuple_reads_back(row: Seq<Cell>, rest: Seq<u8>)
    requires
        row_fits(row),
    ensures
        read_tuple(tuple_bytes(row) + rest) == Ok::<(Seq<Cell>, Seq<u8>), FrameError>((row, rest)),
{
    let after = row_bytes(row) + rest;
    assert(tuple_bytes(row) + rest =~= u16_bytes(row.len() as u16) + after);
    lemma_numbers_read_back(after, row.len() as u16, 0, 0);
    lemma_row_reads_back(row, rest);
}

proof fn lemma_column_reads_back(column: Column, rest: Seq<u8>)
    requires
        !column.name.contains('\0'),
    ensures
        read_column(column_bytes(column) + rest) == Ok::<(Column, Seq<u8>), FrameError>(
            (column, rest),
        ),
{
    let after_oid = i32_bytes(column.type_modifier) + rest;
    let after_name = u32_bytes(column.type_oid) + after_oid;
    let after_flags = cstring_bytes(column.name) + after_name;
    assert(column_bytes(column) + rest =~= seq![column.flags] + after_flags);
    lemma_byte_reads_back(column.flags, after_flags);
    lemma_cstring_reads_back(column.name, after_name);
    lemma_u32_reads_back(column.type_oid, after_oid);
    lemma_numbers_read_back(rest, 0, 0, column.type_modifier);
}

proof fn lemma_columns_read_back(columns: Seq<Column>, rest: Seq<u8>)
    requires
        forall|i: int| 0 <= i < columns.len() ==> !(#[trigger] columns[i]).name.contains('\0'),
    ensures
        read_columns(columns_bytes(columns) + rest, columns.len()) == Ok::<
            (Seq<Column>, Seq<u8>),
            FrameError,
        >((columns, rest)),
    decreases columns.len(),
{
    if columns.len() == 0 {
        assert(columns_bytes(columns) + rest =~= rest);
        assert(columns =~= Seq::<Column>::empty());
    } else {
        let head = columns.drop_last();
        let after = column_bytes(columns.last()) + rest;
        lemma_columns_read_back(head, after);
        assert(columns_bytes(columns) + rest =~= columns_bytes(head) + after);
        lemma_column_reads_back(columns.last(), rest);
        assert(head.push(columns.last()) =~= columns);
    }
}

/// A relation message makes its relation known under its id, in place of an
/// earlier one, whatever follows in the frame.
pub proof fn law_relation_is_cached(replica: Replica, id: u32, relation: Relation, rest: Seq<u8>)
    requires
        relation_fits(relation),
    ensures
        frame_step(replica, relation_message(id, relation) + rest) == Step::Next(
            Replica {
                relations: replica.relations.insert(id, relation),
                changes: replica.changes,
            },
            rest,
        ),
{
    let n = relation.columns.len() as u16;
    let d6 = columns_bytes(relation.columns) + rest;
    let d5 = u16_bytes(n) + d6;
    let d4 = seq![relation.replica_identity] + d5;
    let d3 = cstring_bytes(relation.table_name) + d4;
    let d2 = cstring_bytes(relation.namespace) + d3;
    let d1 = u32_bytes(id) + d2;
    let d = relation_message(id, relation) + rest;
    assert(d =~= seq![RELATION] + d1);
    assert(d.skip(1) =~= d1);
    lemma_u32_reads_back(id, d2);
    lemma_cstring_reads_back(relation.namespace, d3);
    lemma_cstring_reads_back(relation.table_name, d4);
    lemma_byte_reads_back(relation.replica_identity, d5);
    lemma_numbers_read_back(d6, n, 0, 0);
    lemma_columns_read_back(relation.columns, rest);
}

/// An insert message for a known relation appends the row under its key, whatever
/// follows in the frame.
pub proof fn law_insert_is_read(replica: Replica, id: u32, row: Seq<Cell>, rest: Seq<u8>)
    requires
        replica.relations.contains_key(id),
        row_fits(row),
    ensures
        ({
            let relation = replica.relations[id];
            frame_step(replica, insert_message(id, row) + rest) == Step::Next(
                Replica {
                    relations: replica.relations,
                    changes: replica.changes.push(
                        Change::Insert {
                            table: relation.table_name,
                            key: key_fields(relation.columns, row),
                            data: data_fields(relation.columns, row),
                        },
                    ),
                },
                rest,
            )
        }),
{
    let d3 = tuple_bytes(row) + rest;
    let d2 = seq![NEW_TUPLE] + d3;
    let d1 = u32_bytes(id) + d2;
    let d = insert_message(id, row) + rest;
    assert(d =~= seq![INSERT] + d1);
    assert(d.skip(1) =~= d1);
    lemma_u32_reads_back(id, d2);
    lemma_byte_reads_back(NEW_TUPLE, d3);
    lemma_tuple_reads_back(row, rest);
}

/// A delete message for a known relation appends the removal of the row under its
/// key, whatever follows in the frame.
pub proof fn law_delete_is_read(
    replica: Replica,
    id: u32,
    kind: u8,
    row: Seq<Cell>,
    rest: Seq<u8>,
)
    requires
        replica.relations.contains_key(id),
        kind == OLD_TUPLE || kind == KEY_TUPLE,
        row_fits(row),
    ensures
        ({
            let relation = replica.relations[id];
            frame_step(replica, delete_message(id, kind, row) + rest) == Step::Next(
                Replica {
                    relations: replica.relations,
                    changes: replica.changes.push(
                        Change::Delete {
                            table: relation.table_name,
                            key: key_fields(relation.columns, row),
                        },
                    ),
                },
                rest,
            )
        }),
{
    let d3 = tuple_bytes(row) + rest;
    let d2 = seq![kind] + d3;
    let d1 = u32_bytes(id) + d2;
    let d = delete_message(id, kind, row) + rest;
    assert(d =~= seq![DELETE] + d1);
    assert(d.skip(1) =~= d1);
    lemma_u32_reads_back(id, d2);
    lemma_byte_reads_back(kind, d3);
    lemma_tuple_reads_back(row, rest);
}

/// A new tuple is read, and what follows it is left where that starts no tuple.
pub proof fn lemma_new_block_reads_back(
    old_row: Option<Seq<Cell>>,
    row: Seq<Cell>,
    rest: Seq<u8>,
)
    requires
        row_fits(row),
        !starts_tuple(rest),
    ensures
        read_blocks(seq![NEW_TUPLE] + (tuple_bytes(row) + rest), old_row, None) == Ok::<
            ((Option<Seq<Cell>>, Option<Seq<Cell>>), Seq<u8>),
            FrameError,
        >(((old_row, Some(row)), rest)),
{
    let d = seq![NEW_TUPLE] + (tuple_bytes(row) + rest);
    assert(d.skip(1) =~= tuple_bytes(row) + rest);
    lemma_tuple_reads_back(row, rest);
    lemma_read_tuple_shrinks(tuple_bytes(row) + rest);
    assert(read_blocks(rest, old_row, Some(row)) == Ok::<
        ((Option<Seq<Cell>>, Option<Seq<Cell>>), Seq<u8>),
        FrameError,
    >(((old_row, Some(row)), rest)));
}

/// An old or key tuple and a new one are read, and what follows them is left where
/// that starts no tuple.
pub proof fn lemma_old_block_reads_back(
    kind: u8,
    old_row: Seq<Cell>,
    row: Seq<Cell>,
    rest: Seq<u8>,
)
    requires
        kind == OLD_TUPLE || kind == KEY_TUPLE,
        row_fits(old_row),
        row_fits(row),
        !starts_tuple(rest),
    ensures
        read_blocks(
            seq![kind] + (tuple_bytes(old_row) + (seq![NEW_TUPLE] + (tuple_bytes(row) + rest))),
            None,
            None,
        ) == Ok::<((Option<Seq<Cell>>, Option<Seq<Cell>>), Seq<u8>), FrameError>(
            ((Some(old_row), Some(row)), rest),
        ),
{
    let after = seq![NEW_TUPLE] + (tuple_bytes(row) + rest);
    let d = seq![kind] + (tuple_bytes(old_row) + after);
    assert(d.skip(1) =~= tuple_bytes(old_row) + after);
    lemma_tuple_reads_back(old_row, after);
    lemma_read_tuple_shrinks(d.skip(1));
    lemma_new_block_reads_back(Some(old_row), row, rest);
}

/// An update message for a known relation, without an earlier key, appends the new
/// row under its own key, whatever message follows in the frame.
pub proof fn law_update_is_read(replica: Replica, id: u32, row: Seq<Cell>, rest: Seq<u8>)
    requires
        replica.relations.contains_key(id),
        row_fits(row),
        !starts_tuple(rest),
    ensures
        ({
            let relation = replica.relations[id];
            frame_step(replica, update_message(id, row) + rest) == Step::Next(
                Replica {
                    relations: replica.relations,
                    changes: replica.changes.push(
                        Change::Update {
                            table: relation.table_name,
                            key: key_fields(relation.columns, row),
                            data: data_fields(relation.columns, row),
                        },
                    ),
                },
                rest,
            )
        }),
{
    let d2 = seq![NEW_TUPLE] + (tuple_bytes(row) + rest);
    let d1 = u32_bytes(id) + d2;
    let d = update_message(id, row) + rest;
    assert(d =~= seq![UPDATE] + d1);
    assert(d.skip(1) =~= d1);
    lemma_u32_reads_back(id, d2);
    lemma_new_block_reads_back(None, row, rest);
}

/// An update message for a known relation, with the old row or key, appends the new
/// row under the key that the row had, whatever message follows in the frame.
pub proof fn law_rekeying_update_is_read(
    replica: Replica,
    id: u32,
    kind: u8,
    old_row: Seq<Cell>,
    row: Seq<Cell>,
    rest: Seq<u8>,
)
    requires
        replica.relations.contains_key(id),
        kind == OLD_TUPLE || kind == KEY_TUPLE,
        row_fits(old_row),
        row_fits(row),
        !starts_tuple(rest),
    ensures
        ({
            let relation = replica.relations[id];
            frame_step(replica, rekeying_message(id, kind, old_row, row) + rest) == Step::Next(
                Replica {
                    relations: replica.relations,
                    changes: replica.changes.push(
                        Change::Update {
                            table: relation.table_name,
                            key: key_fields(relation.columns, old_row),
                            data: data_fields(relation.columns, row),
                        },
                    ),
                },
                rest,
            )
        }),
{
    let d4 = seq![NEW_TUPLE] + (tuple_bytes(row) + rest);
    let d3 = tuple_bytes(old_row) + d4;
    let d2 = seq![kind] + d3;
    let d1 = u32_bytes(id) + d2;
    let d = rekeying_message(id, kind, old_row, row) + rest;
    assert(d =~= seq![UPDATE] + d1);
    assert(d.skip(1) =~= d1);
    lemma_u32_reads_back(id, d2);
    lemma_old_block_reads_back(kind, old_row, row, rest);
}

proof fn lemma_row_fields_of_key(columns: Seq<Column>, row: Seq<Cell>, other: Seq<Cell>, n: nat)
    requires
        n <= columns.len(),
        forall|i: int|
            0 <= i < n && (#[trigger] columns[i]).is_key() ==> row[i] == other[i],
    ensures
        row_fields(columns, row, true, n) == row_fields(columns, other, true, n),
    decreases n,
{
    if n > 0 {
        lemma_row_fields_of_key(columns, row, other, (n - 1) as nat);
    }
}

/// The key of a row comes from its key columns alone: two tuples of a table that
/// agree on them have one key.
pub proof fn law_key_comes_from_key_columns(
    columns: Seq<Column>,
    row: Seq<Cell>,
    other: Seq<Cell>,
)
    requires
        row.len() == other.len(),
        forall|i: int|
            0 <= i < shared_len(columns, row) && (#[trigger] columns[i]).is_key() ==> row[i]
                == other[i],
    ensures
        key_fields(columns, row) == key_fields(columns, other),
{
    lemma_row_fields_of_key(columns, row, other, shared_len(columns, row));
}

/// The fields of the first `n` values, told by index.
proof fn lemma_row_fields_by_index(columns: Seq<Column>, row: Seq<Cell>, keys_only: bool, n: nat)
    requires
        n <= columns.len(),
        n <= row.len(),
    ensures
        forall|name: Seq<char>| #[trigger]
            row_fields(columns, row, keys_only, n).contains_key(name) <==> exists|i: int|
                0 <= i < n && #[trigger] columns[i].name == name && row[i] !is UnchangedToast && (
                keys_only ==> columns[i].flags % 2 == 1),
        forall|i: int|
            0 <= i < n && row[i] !is UnchangedToast && (keys_only ==> columns[i].flags % 2 == 1)
                && (forall|j: int|
                i < j < n && (#[trigger] columns[j]).name == columns[i].name ==> row[j] is
                    UnchangedToast || (keys_only && columns[j].flags % 2 != 1))
                ==> row_fields(columns, row, keys_only, n)[#[trigger] columns[i].name]
                == match row[i] {
                Cell::Text(text) => text,
                _ => "NULL"@,
            },
    decreases n,
{
    if n > 0 {
        let before = row_fields(columns, row, keys_only, (n - 1) as nat);
        let after = row_fields(columns, row, keys_only, n);
        let last = columns[n - 1];
        lemma_row_fields_by_index(columns, row, keys_only, (n - 1) as nat);
        let flags = last.flags;
        assert(flags & 1 == 1 <==> flags % 2 == 1) by (bit_vector);
        assert forall|name: Seq<char>| #[trigger] after.contains_key(name) <==> exists|i: int|
            0 <= i < n && #[trigger] columns[i].name == name && row[i] !is UnchangedToast && (
            keys_only ==> columns[i].flags % 2 == 1) by {
            if after.contains_key(name) && !before.contains_key(name) {
                assert(last.name == name);
            }
            if before.contains_key(name) {
                let i = choose|i: int|
                    0 <= i < n - 1 && #[trigger] columns[i].name == name
                        && row[i] !is UnchangedToast && (keys_only ==> columns[i].flags % 2 == 1);
                assert(columns[i].name == name);
            }
        }
        assert forall|i: int|
            0 <= i < n && row[i] !is UnchangedToast && (keys_only ==> columns[i].flags % 2 == 1)
                && (forall|j: int|
                i < j < n && (#[trigger] columns[j]).name == columns[i].name ==> row[j] is
                    UnchangedToast || (keys_only && columns[j].flags % 2 != 1))
            implies after[#[trigger] columns[i].name] == match row[i] {
            Cell::Text(text) => text,
            _ => "NULL"@,
        } by {
            if i < n - 1 {
                assert(last.name == columns[i].name ==> row[n - 1] is UnchangedToast || (keys_only
                    && columns[n - 1].flags % 2 != 1));
                assert(after[columns[i].name] == before[columns[i].name]);
            }
        }
    }
}

/// The data of a row holds every column that has a value: a name is in it exactly
/// where a column of that name has a text or a null, and the last such column tells
/// the value under it, `NULL` for a null.
pub proof fn law_data_holds_every_column(columns: Seq<Column>, row: Seq<Cell>, i: int)
    requires
        0 <= i < columns.len(),
        i < row.len(),
        forall|j: int|
            i < j < columns.len() && j < row.len() && (#[trigger] columns[j]).name
                == columns[i].name ==> row[j] is UnchangedToast,
    ensures
        row[i] matches Cell::Text(text) ==> data_fields(columns, row).contains_key(
            columns[i].name,
        ) && data_fields(columns, row)[columns[i].name] == text,
        row[i] is Null ==> data_fields(columns, row).contains_key(columns[i].name)
            && data_fields(columns, row)[columns[i].name] == "NULL"@,
        forall|name: Seq<char>| #[trigger]
            data_fields(columns, row).contains_key(name) <==> exists|k: int|
                0 <= k < columns.len() && k < row.len() && #[trigger] columns[k].name == name
                    && row[k] !is UnchangedToast,
{
    let n = shared_len(columns, row);
    lemma_row_fields_by_index(columns, row, false, n);
    lemma_names_by_index(columns, row, false, n);
    let data = data_fields(columns, row);
    if row[i] !is UnchangedToast {
        assert(data.contains_key(columns[i].name));
        assert(data[columns[i].name] == match row[i] {
            Cell::Text(text) => text,
            _ => "NULL"@,
        });
    }
}

/// The key of a row holds every key column that has a value: a name is in it exactly
/// where a key column of that name has a text or a null, and the last such column
/// tells the value under it, `NULL` for a null. A column is a key column where the
/// lowest bit of its flags is set.
pub proof fn law_key_holds_every_key_column(columns: Seq<Column>, row: Seq<Cell>, i: int)
    requires
        0 <= i < columns.len(),
        i < row.len(),
        columns[i].flags % 2 == 1,
        forall|j: int|
            i < j < columns.len() && j < row.len() && (#[trigger] columns[j]).name
                == columns[i].name ==> row[j] is UnchangedToast || columns[j].flags % 2 == 0,
    ensures
        row[i] matches Cell::Text(text) ==> key_fields(columns, row).contains_key(columns[i].name)
            && key_fields(columns, row)[columns[i].name] == text,
        row[i] is Null ==> key_fields(columns, row).contains_key(columns[i].name) && key_fields(
            columns,
            row,
        )[columns[i].name] == "NULL"@,
{
    let n = shared_len(columns, row);
    lemma_row_fields_by_index(columns, row, true, n);
    let key = key_fields(columns, row);
    if row[i] !is UnchangedToast {
        assert(key.contains_key(columns[i].name));
        assert(key[columns[i].name] == match row[i] {
            Cell::Text(text) => text,
            _ => "NULL"@,
        });
    }
}

/// The key of a row holds nothing but key columns: a name is in it exactly where a
/// key column of that name has a text or a null.
pub proof fn law_key_holds_key_columns_alone(columns: Seq<Column>, row: Seq<Cell>)
    ensures
        forall|name: Seq<char>| #[trigger]
            key_fields(columns, row).contains_key(name) <==> exists|k: int|
                0 <= k < columns.len() && k < row.len() && #[trigger] columns[k].name == name
                    && row[k] !is UnchangedToast && columns[k].flags % 2 == 1,
{
    lemma_names_by_index(columns, row, true, shared_len(columns, row));
}

proof fn lemma_names_by_index(columns: Seq<Column>, row: Seq<Cell>, keys_only: bool, n: nat)
    requires
        n == shared_len(columns, row),
    ensures
        forall|name: Seq<char>| #[trigger]
            row_fields(columns, row, keys_only, n).contains_key(name) <==> exists|k: int|
                0 <= k < columns.len() && k < row.len() && #[trigger] columns[k].name == name
                    && row[k] !is UnchangedToast && (keys_only ==> columns[k].flags % 2 == 1),
{
    lemma_row_fields_by_index(columns, row, keys_only, n);
    let fields = row_fields(columns, row, keys_only, n);
    assert forall|name: Seq<char>| #[trigger] fields.contains_key(name) <==> exists|k: int|
        0 <= k < columns.len() && k < row.len() && #[trigger] columns[k].name == name
            && row[k] !is UnchangedToast && (keys_only ==> columns[k].flags % 2 == 1) by {
        if fields.contains_key(name) {
            let k = choose|k: int|
                0 <= k < n && #[trigger] columns[k].name == name && row[k] !is UnchangedToast && (
                keys_only ==> columns[k].flags % 2 == 1);
            assert(columns[k].name == name);
        }
        if exists|k: int|
            0 <= k < columns.len() && k < row.len() && #[trigger] columns[k].name == name
                && row[k] !is UnchangedToast && (keys_only ==> columns[k].flags % 2 == 1) {
            let k = choose|k: int|
                0 <= k < columns.len() && k < row.len() && #[trigger] columns[k].name == name
                    && row[k] !is UnchangedToast && (keys_only ==> columns[k].flags % 2 == 1);
            assert(k < n);
            assert(columns[k].name == name);
        }
    }
}

proof fn lemma_skip_append(d: Seq<u8>, more: Seq<u8>, n: int)
    requires
        0 <= n <= d.len(),
    ensures
        (d + more).skip(n) == d.skip(n) + more,
        (d + more).take(n) == d.take(n),
{
    assert((d + more).skip(n) =~= d.skip(n) + more);
    assert((d + more).take(n) =~= d.take(n));
}

/// Reading a value takes the bytes of that value alone: bytes behind a value that
/// is read are left as they are.
proof fn lemma_numbers_extend(d: Seq<u8>, more: Seq<u8>)
    ensures
        read_u8(d) matches Ok((v, rest)) ==> read_u8(d + more) == Ok::<(u8, Seq<u8>), FrameError>(
            (v, rest + more),
        ),
        read_u16(d) matches Ok((v, rest)) ==> read_u16(d + more) == Ok::<
            (u16, Seq<u8>),
            FrameError,
        >((v, rest + more)),
        read_u32(d) matches Ok((v, rest)) ==> read_u32(d + more) == Ok::<
            (u32, Seq<u8>),
            FrameError,
        >((v, rest + more)),
        read_i32(d) matches Ok((v, rest)) ==> read_i32(d + more) == Ok::<
            (i32, Seq<u8>),
            FrameError,
        >((v, rest + more)),
{
    if d.len() >= 1 {
        lemma_skip_append(d, more, 1);
    }
    if d.len() >= 2 {
        lemma_skip_append(d, more, 2);
    }
    if d.len() >= 4 {
        lemma_skip_append(d, more, 4);
        assert(be_u32(d + more) == be_u32(d));
    }
}

proof fn lemma_cstring_extends(d: Seq<u8>, more: Seq<u8>)
    ensures
        read_cstring(d) matches Ok((v, rest)) ==> read_cstring(d + more) == Ok::<
            (Seq<char>, Seq<u8>),
            FrameError,
        >((v, rest + more)),
{
    if d.contains(0) {
        lemma_first_null_exists(d, d.len() as int);
        let end = choose|i: int| is_first_null(d, i);
        let whole = d + more;
        assert(whole[end] == 0);
        assert(whole.contains(0));
        assert forall|k: int| 0 <= k < end implies whole[k] != 0 by {
            assert(whole[k] == d[k]);
        }
        assert(is_first_null(whole, end));
        let other = choose|i: int| is_first_null(whole, i);
        assert(other == end);
        lemma_skip_append(d, more, end);
        lemma_skip_append(d, more, end + 1);
    }
}

proof fn lemma_cell_extends(d: Seq<u8>, more: Seq<u8>)
    ensures
        read_cell(d) matches Ok((v, rest)) ==> read_cell(d + more) == Ok::<
            (Cell, Seq<u8>),
            FrameError,
        >((v, rest + more)),
{
    lemma_numbers_extend(d, more);
    if let Ok((_, d1)) = read_u8(d) {
        lemma_numbers_extend(d1, more);
        if let Ok((n, d2)) = read_u32(d1) {
            if d2.len() >= n {
                lemma_skip_append(d2, more, n as int);
            }
        }
    }
}

proof fn lemma_row_extends(d: Seq<u8>, n: nat, more: Seq<u8>)
    ensures
        read_row(d, n) matches Ok((v, rest)) ==> read_row(d + more, n) == Ok::<
            (Seq<Cell>, Seq<u8>),
            FrameError,
        >((v, rest + more)),
    decreases n,
{
    if n > 0 {
        lemma_row_extends(d, (n - 1) as nat, more);
        if let Ok((_, rest)) = read_row(d, (n - 1) as nat) {
            lemma_cell_extends(rest, more);
        }
    }
}

proof fn lemma_tuple_extends(d: Seq<u8>, more: Seq<u8>)
    ensures
        read_tuple(d) matches Ok((v, rest)) ==> read_tuple(d + more) == Ok::<
            (Seq<Cell>, Seq<u8>),
            FrameError,
        >((v, rest + more)),
{
    lemma_numbers_extend(d, more);
    if let Ok((n, rest)) = read_u16(d) {
        lemma_row_extends(rest, n as nat, more);
    }
}

proof fn lemma_column_extends(d: Seq<u8>, more: Seq<u8>)
    ensures
        read_column(d) matches Ok((v, rest)) ==> read_column(d + more) == Ok::<
            (Column, Seq<u8>),
            FrameError,
        >((v, rest + more)),
{
    lemma_numbers_extend(d, more);
    if let Ok((_, d1)) = read_u8(d) {
        lemma_cstring_extends(d1, more);
        if let Ok((_, d2)) = read_cstring(d1) {
            lemma_numbers_extend(d2, more);
            if let Ok((_, d3)) = read_u32(d2) {
                lemma_numbers_extend(d3, more);
            }
        }
    }
}

proof fn lemma_columns_extend(d: Seq<u8>, n: nat, more: Seq<u8>)
    ensures
        read_columns(d, n) matches Ok((v, rest)) ==> read_columns(d + more, n) == Ok::<
            (Seq<Column>, Seq<u8>),
            FrameError,
        >((v, rest + more)),
    decreases n,
{
    if n > 0 {
        lemma_columns_extend(d, (n - 1) as nat, more);
        if let Ok((_, rest)) = read_columns(d, (n - 1) as nat) {
            lemma_column_extends(rest, more);
        }
    }
}

#[verifier::spinoff_prover]
#[verifier::rlimit(40)]
proof fn lemma_relation_extends(d: Seq<u8>, more: Seq<u8>)
    ensures
        read_relation(d) matches Ok((v, rest)) ==> read_relation(d + more) == Ok::<
            ((u32, Relation), Seq<u8>),
            FrameError,
        >((v, rest + more)),
{
    lemma_numbers_extend(d, more);
    if let Ok((_, d1)) = read_u32(d) {
        lemma_cstring_extends(d1, more);
        if let Ok((_, d2)) = read_cstring(d1) {
            lemma_cstring_extends(d2, more);
            if let Ok((_, d3)) = read_cstring(d2) {
                lemma_numbers_extend(d3, more);
                if let Ok((_, d4)) = read_u8(d3) {
                    lemma_numbers_extend(d4, more);
                    if let Ok((n, d5)) = read_u16(d4) {
                        lemma_columns_extend(d5, n as nat, more);
                    }
                }
            }
        }
    }
}

proof fn lemma_inserts_and_deletes_extend(
    relations: Map<u32, Relation>,
    d: Seq<u8>,
    more: Seq<u8>,
)
    ensures
        read_insert(relations, d) matches Ok((v, rest)) ==> read_insert(relations, d + more)
            == Ok::<(Change, Seq<u8>), FrameError>((v, rest + more)),
        read_delete(relations, d) matches Ok((v, rest)) ==> read_delete(relations, d + more)
            == Ok::<(Change, Seq<u8>), FrameError>((v, rest + more)),
{
    lemma_numbers_extend(d, more);
    if let Ok((_, d1)) = read_u32(d) {
        lemma_numbers_extend(d1, more);
        if let Ok((_, d2)) = read_u8(d1) {
            lemma_tuple_extends(d2, more);
        }
    }
}

/// Whether the tuples of an update end before the bytes do, with a byte that
/// starts no tuple.
pub open spec fn blocks_are_closed(d: Seq<u8>) -> bool
    decreases d.len(),
{
    proof {
        lemma_read_tuple_shrinks(d.skip(1));
    }
    if d.len() == 0 {
        false
    } else if d[0] == KEY_TUPLE || d[0] == OLD_TUPLE || d[0] == NEW_TUPLE {
        match read_tuple(d.skip(1)) {
            Err(_) => false,
            Ok((_, rest)) => blocks_are_closed(rest),
        }
    } else {
        true
    }
}

proof fn lemma_blocks_extend(
    d: Seq<u8>,
    old_row: Option<Seq<Cell>>,
    new_row: Option<Seq<Cell>>,
    more: Seq<u8>,
)
    requires
        starts_tuple(more) ==> blocks_are_closed(d),
    ensures
        read_blocks(d, old_row, new_row) matches Ok((v, rest)) ==> read_blocks(
            d + more,
            old_row,
            new_row,
        ) == Ok::<((Option<Seq<Cell>>, Option<Seq<Cell>>), Seq<u8>), FrameError>((v, rest + more)),
    decreases d.len(),
{
    if d.len() == 0 {
        assert(d + more =~= more);
    } else {
        lemma_skip_append(d, more, 1);
        lemma_tuple_extends(d.skip(1), more);
        lemma_read_tuple_shrinks(d.skip(1));
        lemma_read_tuple_shrinks((d + more).skip(1));
        assert((d + more)[0] == d[0]);
        if d[0] == KEY_TUPLE || d[0] == OLD_TUPLE || d[0] == NEW_TUPLE {
            if let Ok((row, rest)) = read_tuple(d.skip(1)) {
                lemma_blocks_extend(rest, Some(row), new_row, more);
                lemma_blocks_extend(rest, old_row, Some(row), more);
            }
        }
    }
}

/// Whether the message at the front of a frame takes the same bytes whatever
/// follows the frame. An update whose tuples end with the frame does not: it looks
/// for more of them.
pub open spec fn message_is_closed(d: Seq<u8>) -> bool {
    d[0] == UPDATE ==> blocks_are_closed(d.skip(5))
}

/// Whether a frame is made of messages that are all read, each closed where
/// `closed_ones` asks for it.
pub open spec fn frame_is_whole(replica: Replica, d: Seq<u8>, closed_ones: bool) -> bool
    decreases d.len(),
{
    proof {
        lemma_frame_step_shrinks(replica, d);
    }
    if d.len() == 0 {
        true
    } else {
        match frame_step(replica, d) {
            Step::Next(next, rest) => (closed_ones ==> message_is_closed(d)) && frame_is_whole(
                next,
                rest,
                closed_ones,
            ),
            _ => false,
        }
    }
}

proof fn lemma_step_extends(replica: Replica, d: Seq<u8>, more: Seq<u8>)
    requires
        d.len() > 0,
        starts_tuple(more) ==> message_is_closed(d),
    ensures
        frame_step(replica, d) matches Step::Next(next, rest) ==> frame_step(replica, d + more)
            == Step::Next(next, rest + more),
{
    let body = d.skip(1);
    lemma_skip_append(d, more, 1);
    assert((d + more)[0] == d[0]);
    lemma_relation_extends(body, more);
    lemma_inserts_and_deletes_extend(replica.relations, body, more);
    if d[0] == UPDATE {
        lemma_numbers_extend(body, more);
        if let Ok((_, d1)) = read_u32(body) {
            assert(d1 =~= d.skip(5));
            lemma_blocks_extend(d1, None, None, more);
        }
    }
}

/// Messages that stand one after the other are each read: two frames in one give
/// what the second gives after the first. Only where the second starts with a tuple,
/// which is no message, must the first not end in an update, which would take it.
pub proof fn law_frames_concatenate(replica: Replica, first: Seq<u8>, second: Seq<u8>)
    requires
        frame_is_whole(replica, first, starts_tuple(second)),
    ensures
        frame_run(replica, first).1 is None,
        frame_run(replica, first + second) == frame_run(frame_run(replica, first).0, second),
    decreases first.len(),
{
    lemma_frame_step_shrinks(replica, first);
    lemma_frame_step_shrinks(replica, first + second);
    if first.len() == 0 {
        assert(first + second =~= second);
    } else {
        lemma_step_extends(replica, first, second);
        if let Step::Next(next, rest) = frame_step(replica, first) {
            law_frames_concatenate(next, rest, second);
        }
    }
}

/// The messages of a frame are read one after the other: where the first is read,
/// the rest is read from what it leaves. An empty frame changes nothing.
pub proof fn law_frame_goes_on_behind_a_message(replica: Replica, d: Seq<u8>)
    ensures
        d.len() == 0 ==> frame_run(replica, d) == (replica, None::<FrameError>),
        d.len() > 0 ==> (frame_step(replica, d) matches Step::Next(next, rest) ==> rest.len()
            < d.len() && frame_run(replica, d) == frame_run(next, rest)),
{
    lemma_frame_step_shrinks(replica, d);
}

/// A byte that is none of `R`, `I`, `U` and `D` ends a frame: what stands behind it
/// changes nothing.
pub proof fn law_unknown_message_ends_the_frame(replica: Replica, d: Seq<u8>)
    requires
        d.len() > 0,
        d[0] != 0x52 && d[0] != 0x49 && d[0] != 0x55 && d[0] != 0x44,
    ensures
        frame_run(replica, d) == (replica, None::<FrameError>),
{
}

/// A message that cannot be read is told, and what was read before it is kept.
pub proof fn law_failure_keeps_what_was_read(
    replica: Replica,
    first: Seq<u8>,
    bad: Seq<u8>,
    error: FrameError,
)
    requires
        frame_is_whole(replica, first, starts_tuple(bad)),
        bad.len() > 0,
        frame_step(frame_run(replica, first).0, bad) == Step::Fail(error),
    ensures
        frame_run(replica, first + bad) == (frame_run(replica, first).0, Some(error)),
{
    law_frames_concatenate(replica, first, bad);
}

/// A row message for a relation that was never announced is refused, whatever it
/// holds.
pub proof fn law_unknown_relation_is_refused(replica: Replica, id: u32, kind: u8, rest: Seq<u8>)
    requires
        !replica.relations.contains_key(id),
    ensures
        frame_step(replica, seq![UPDATE] + u32_bytes(id) + rest) == Step::Fail(
            FrameError::UnknownRelation(id),
        ),
        frame_step(replica, seq![INSERT] + u32_bytes(id) + (seq![NEW_TUPLE] + rest)) == Step::Fail(
            FrameError::UnknownRelation(id),
        ),
        kind == OLD_TUPLE || kind == KEY_TUPLE ==> frame_step(
            replica,
            seq![DELETE] + u32_bytes(id) + (seq![kind] + rest),
        ) == Step::Fail(FrameError::UnknownRelation(id)),
{
    lemma_tag_and_id(UPDATE, id, rest);
    lemma_tag_and_id(INSERT, id, seq![NEW_TUPLE] + rest);
    lemma_tag_and_id(DELETE, id, seq![kind] + rest);
    lemma_byte_reads_back(NEW_TUPLE, rest);
    lemma_byte_reads_back(kind, rest);
}

/// An insert without a new tuple, and a delete without an old or key tuple, are
/// refused, whatever tuple they hold.
pub proof fn law_wrong_tuple_is_refused(replica: Replica, id: u32, kind: u8, rest: Seq<u8>)
    ensures
        kind != NEW_TUPLE ==> frame_step(
            replica,
            seq![INSERT] + u32_bytes(id) + (seq![kind] + rest),
        ) == Step::Fail(FrameError::UnexpectedTuple(kind)),
        kind != OLD_TUPLE && kind != KEY_TUPLE ==> frame_step(
            replica,
            seq![DELETE] + u32_bytes(id) + (seq![kind] + rest),
        ) == Step::Fail(FrameError::UnexpectedTuple(kind)),
{
    lemma_tag_and_id(INSERT, id, seq![kind] + rest);
    lemma_tag_and_id(DELETE, id, seq![kind] + rest);
    lemma_byte_reads_back(kind, rest);
}

/// An update without a new tuple is refused: with no tuple at all, and with the old
/// one alone.
pub proof fn law_update_needs_its_new_row(
    replica: Replica,
    id: u32,
    kind: u8,
    old_row: Seq<Cell>,
    rest: Seq<u8>,
)
    requires
        replica.relations.contains_key(id),
        kind == OLD_TUPLE || kind == KEY_TUPLE,
        row_fits(old_row),
        !starts_tuple(rest),
    ensures
        frame_step(replica, seq![UPDATE] + u32_bytes(id) + rest) == Step::Fail(
            FrameError::MissingNewTuple,
        ),
        frame_step(
            replica,
            seq![UPDATE] + u32_bytes(id) + (seq![kind] + (tuple_bytes(old_row) + rest)),
        ) == Step::Fail(FrameError::MissingNewTuple),
{
    let block = seq![kind] + (tuple_bytes(old_row) + rest);
    lemma_tag_and_id(UPDATE, id, rest);
    lemma_tag_and_id(UPDATE, id, block);
    assert(block.skip(1) =~= tuple_bytes(old_row) + rest);
    lemma_tuple_reads_back(old_row, rest);
    lemma_read_tuple_shrinks(block.skip(1));
    assert(read_blocks(rest, Some(old_row), None) == Ok::<
        ((Option<Seq<Cell>>, Option<Seq<Cell>>), Seq<u8>),
        FrameError,
    >(((Some(old_row), None), rest)));
}

/// A column value in a format other than null, unchanged and text is refused.
pub proof fn law_unknown_format_is_refused(format: u8, rest: Seq<u8>)
    requires
        format != 0x6e && format != 0x75 && format != 0x74,
    ensures
        read_cell(seq![format] + rest) == Err::<(Cell, Seq<u8>), FrameError>(
            FrameError::UnknownFormat(format),
        ),
{
    lemma_byte_reads_back(format, rest);
}

proof fn lemma_tag_and_id(tag: u8, id: u32, rest: Seq<u8>)
    ensures
        (seq![tag] + u32_bytes(id) + rest)[0] == tag,
        read_u32((seq![tag] + u32_bytes(id) + rest).skip(1)) == Ok::<(u32, Seq<u8>), FrameError>(
            (id, rest),
        ),
{
    assert((seq![tag] + u32_bytes(id) + rest).skip(1) =~= u32_bytes(id) + rest);
    lemma_u32_reads_back(id, rest);
}

/// A tuple that is cut short is refused: no part of it is taken for a row.
pub proof fn law_cut_tuple_is_refused(row: Seq<Cell>, k: int)
    requires
        row_fits(row),
        0 <= k < tuple_bytes(row).len(),
    ensures
        read_tuple(tuple_bytes(row).take(k)) is Err,
{
    let whole = tuple_bytes(row);
    let part = whole.take(k);
    let more = whole.skip(k);
    assert(part + more =~= whole);
    assert(whole + Seq::<u8>::empty() =~= whole);
    lemma_tuple_reads_back(row, Seq::empty());
    lemma_tuple_extends(part, more);
}

/// An insert, a delete or a relation message that is cut short is refused.
pub proof fn law_cut_message_is_refused(
    replica: Replica,
    id: u32,
    kind: u8,
    row: Seq<Cell>,
    relation: Relation,
    k: int,
)
    requires
        replica.relations.contains_key(id),
        kind == OLD_TUPLE || kind == KEY_TUPLE,
        row_fits(row),
        relation_fits(relation),
        k > 0,
    ensures
        k < insert_message(id, row).len() ==> frame_step(replica, insert_message(id, row).take(k))
            is Fail,
        k < delete_message(id, kind, row).len() ==> frame_step(
            replica,
            delete_message(id, kind, row).take(k),
        ) is Fail,
        k < relation_message(id, relation).len() ==> frame_step(
            replica,
            relation_message(id, relation).take(k),
        ) is Fail,
{
    if k < insert_message(id, row).len() {
        law_insert_is_read(replica, id, row, Seq::empty());
        lemma_cut_step(replica, insert_message(id, row), k);
    }
    if k < delete_message(id, kind, row).len() {
        law_delete_is_read(replica, id, kind, row, Seq::empty());
        lemma_cut_step(replica, delete_message(id, kind, row), k);
    }
    if k < relation_message(id, relation).len() {
        law_relation_is_cached(replica, id, relation, Seq::empty());
        lemma_cut_step(replica, relation_message(id, relation), k);
    }
}

proof fn lemma_cut_step(replica: Replica, message: Seq<u8>, k: int)
    requires
        0 < k < message.len(),
        message[0] == INSERT || message[0] == DELETE || message[0] == RELATION,
        frame_step(replica, message + Seq::<u8>::empty()) matches Step::Next(_, rest)
            && rest.len() == 0,
    ensures
        frame_step(replica, message.take(k)) is Fail,
{
    let part = message.take(k);
    let more = message.skip(k);
    assert(part + more =~= message);
    assert(message + Seq::<u8>::empty() =~= message);
    lemma_step_extends(replica, part, more);
}

/// What a frame tells does not depend on the changes before it: they stay, and the
/// changes of the frame come behind them.
pub proof fn law_frame_only_appends(replica: Replica, d: Seq<u8>)
    ensures
        ({
            let fresh = frame_run(
                Replica { relations: replica.relations, changes: Seq::empty() },
                d,
            );
            frame_run(replica, d) == (
                Replica {
                    relations: fresh.0.relations,
                    changes: replica.changes + fresh.0.changes,
                },
                fresh.1,
            )
        }),
    decreases d.len(),
{
    let bare = Replica { relations: replica.relations, changes: Seq::empty() };
    lemma_frame_step_shrinks(replica, d);
    lemma_frame_step_shrinks(bare, d);
    assert(replica.changes + Seq::<Change>::empty() =~= replica.changes);
    if d.len() > 0 {
        match (frame_step(replica, d), frame_step(bare, d)) {
            (Step::Next(next, rest), Step::Next(bare_next, _)) => {
                law_frame_only_appends(next, rest);
                law_frame_only_appends(bare_next, rest);
                let tail = frame_run(
                    Replica { relations: next.relations, changes: Seq::empty() },
                    rest,
                ).0.changes;
                assert(next.changes =~= replica.changes + bare_next.changes);
                assert(next.changes + tail =~= replica.changes + (bare_next.changes + tail));
            },
            _ => {},
        }
    }
}

/// The tuples of an update are read one by one: an old or key tuple replaces what was
/// read as the old row and leaves the new row, a new tuple replaces the new row and
/// leaves the old one, and a byte that starts no tuple ends them.
pub proof fn law_blocks_are_read_one_by_one(
    old_row: Option<Seq<Cell>>,
    new_row: Option<Seq<Cell>>,
    kind: u8,
    row: Seq<Cell>,
    rest: Seq<u8>,
)
    requires
        row_fits(row),
    ensures
        kind == 0x4b || kind == 0x4f ==> read_blocks(
            seq![kind] + (tuple_bytes(row) + rest),
            old_row,
            new_row,
        ) == read_blocks(rest, Some(row), new_row),
        kind == 0x4e ==> read_blocks(
            seq![kind] + (tuple_bytes(row) + rest),
            old_row,
            new_row,
        ) == read_blocks(rest, old_row, Some(row)),
        kind != 0x4b && kind != 0x4f && kind != 0x4e ==> read_blocks(
            seq![kind] + rest,
            old_row,
            new_row,
        ) == Ok::<((Option<Seq<Cell>>, Option<Seq<Cell>>), Seq<u8>), FrameError>(
            ((old_row, new_row), seq![kind] + rest),
        ),
        read_blocks(Seq::empty(), old_row, new_row) == Ok::<
            ((Option<Seq<Cell>>, Option<Seq<Cell>>), Seq<u8>),
            FrameError,
        >(((old_row, new_row), Seq::empty())),
{
    let d = seq![kind] + (tuple_bytes(row) + rest);
    assert(d.skip(1) =~= tuple_bytes(row) + rest);
    lemma_tuple_reads_back(row, rest);
    lemma_read_tuple_shrinks(tuple_bytes(row) + rest);
    assert((seq![kind] + rest)[0] == kind);
}

/// A column value is told by the letter before it: `n` is null, `u` is unchanged, and
/// `t` is a text of as many bytes as the number behind the letter says.
pub proof fn law_value_is_told_by_its_letter(bytes: Seq<u8>, n: u32, rest: Seq<u8>)
    requires
        bytes.len() == n,
    ensures
        read_cell(seq![0x6e] + rest) == Ok::<(Cell, Seq<u8>), FrameError>((Cell::Null, rest)),
        read_cell(seq![0x75] + rest) == Ok::<(Cell, Seq<u8>), FrameError>(
            (Cell::UnchangedToast, rest),
        ),
        read_cell(seq![0x74] + (u32_bytes(n) + (bytes + rest))) == Ok::<
            (Cell, Seq<u8>),
            FrameError,
        >((Cell::Text(text_of(bytes)), rest)),
{
    lemma_byte_reads_back(0x6e, rest);
    lemma_byte_reads_back(0x75, rest);
    lemma_byte_reads_back(0x74, u32_bytes(n) + (bytes + rest));
    lemma_u32_reads_back(n, bytes + rest);
    assert((bytes + rest).take(n as int) =~= bytes);
    assert((bytes + rest).skip(n as int) =~= rest);
}

/// The messages and their tuples start with the letters of the protocol: `R`, `I`, `U`
/// and `D`, and `N`, `O` and `K`.
pub proof fn law_messages_start_with_their_letters(
    id: u32,
    relation: Relation,
    kind: u8,
    old_row: Seq<Cell>,
    row: Seq<Cell>,
)
    ensures
        relation_message(id, relation)[0] == 0x52,
        insert_message(id, row)[0] == 0x49,
        insert_message(id, row)[5] == 0x4e,
        update_message(id, row)[0] == 0x55,
        update_message(id, row)[5] == 0x4e,
        rekeying_message(id, kind, old_row, row)[0] == 0x55,
        rekeying_message(id, kind, old_row, row)[5] == kind,
        delete_message(id, kind, row)[0] == 0x44,
        delete_message(id, kind, row)[5] == kind,
        OLD_TUPLE == 0x4f,
        KEY_TUPLE == 0x4b,
{
    assert(u32_bytes(id).len() == 4);
}

}
