//! A `pgoutput` parser for streams that carry the begin and commit markers among
//! the row-level messages.

use crate::event::{Cell, Fields, Relation, RelationInfo};
use crate::fields::FieldMap;
use crate::layout::{
    delete_message, insert_message, law_delete_is_read, law_insert_is_read,
    law_relation_is_cached, lemma_new_block_reads_back, lemma_old_block_reads_back,
    lemma_u32_reads_back, lemma_u64_reads_back, rekeying_message, relation_fits,
    relation_message, row_fits, tuple_bytes, u32_bytes, u64_bytes, update_message,
};
use crate::wal::{
    data_fields, extract_key_columns, find_relation, frame_step, key_fields,
    lemma_read_blocks_shrinks, lemma_read_relation_shrinks, lemma_read_tuple_shrinks,
    parse_blocks, parse_counted_tuple, parse_relation_info, read_blocks, read_relation,
    read_target, relations_of, starts_tuple, zip_columns, Replica, DELETE, INSERT, KEY_TUPLE,
    NEW_TUPLE, OLD_TUPLE, RELATION, UPDATE,
};
use crate::wire::{
    has_remaining, read_u32, read_u64, read_u8, take_u32, take_u64, take_u8, FrameError, Reading,
};
use std::collections::HashMap;
use vstd::prelude::*;
use vstd::string::*;

verus! {

broadcast use vstd::std_specs::hash::group_hash_axioms;

/// `B`: a transaction begins.
pub const BEGIN: u8 = 0x42;

/// `C`: a transaction is committed.
pub const COMMIT: u8 = 0x43;

/// A change to one row, with the key that the row had.
pub ghost enum RowChange {
    Insert { table: Seq<char>, data: Fields },
    Update { table: Seq<char>, old_key: Fields, data: Fields },
    Delete { table: Seq<char>, old_key: Fields },
}

/// A row-level change of the open transaction.
#[derive(Debug)]
pub enum TxnEvent {
    Insert { table: String, data: FieldMap },
    Update { table: String, old_key: FieldMap, data: FieldMap },
    Delete { table: String, old_key: FieldMap },
}

impl View for TxnEvent {
    type V = RowChange;

    open spec fn view(&self) -> RowChange {
        match self {
            TxnEvent::Insert { table, data } => RowChange::Insert { table: table@, data: data@ },
            TxnEvent::Update { table, old_key, data } => RowChange::Update {
                table: table@,
                old_key: old_key@,
                data: data@,
            },
            TxnEvent::Delete { table, old_key } => RowChange::Delete {
                table: table@,
                old_key: old_key@,
            },
        }
    }
}

/// The changes that a list of events stands for.
pub open spec fn row_changes_of(events: Seq<TxnEvent>) -> Seq<RowChange> {
    events.map_values(|e: TxnEvent| e@)
}

/// The id and the final position of a transaction that begins.
pub open spec fn read_begin(d: Seq<u8>) -> Reading<(u64, u32)> {
    match read_u64(d) {
        Err(e) => Err(e),
        Ok((final_lsn, d)) => match read_u64(d) {
            Err(e) => Err(e),
            Ok((_, d)) => match read_u32(d) {
                Err(e) => Err(e),
                Ok((xid, d)) => Ok(((final_lsn, xid), d)),
            },
        },
    }
}

/// The position of a commit, which stands after one byte of flags and before the
/// end of the transaction and the time of the commit.
pub open spec fn read_commit(d: Seq<u8>) -> Reading<u64> {
    match read_u8(d) {
        Err(e) => Err(e),
        Ok((_, d)) => match read_u64(d) {
            Err(e) => Err(e),
            Ok((commit_lsn, d)) => match read_u64(d) {
                Err(e) => Err(e),
                Ok((_, d)) => match read_u64(d) {
                    Err(e) => Err(e),
                    Ok((_, d)) => Ok((commit_lsn, d)),
                },
            },
        },
    }
}

/// An insert message: the new row of a known relation.
pub open spec fn read_insert(relations: Map<u32, Relation>, d: Seq<u8>) -> Reading<RowChange> {
    match crate::wal::read_insert(relations, d) {
        Err(e) => Err(e),
        Ok((change, rest)) => Ok(
            (RowChange::Insert { table: change.table(), data: change.data() }, rest),
        ),
    }
}

/// An update message: the new row of a known relation, with the key that the row
/// had where the message tells it.
pub open spec fn read_update(relations: Map<u32, Relation>, d: Seq<u8>) -> Reading<RowChange> {
    match read_u32(d) {
        Err(e) => Err(e),
        Ok((id, d)) => match read_target(relations, id) {
            Err(e) => Err(e),
            Ok(rel) => match read_blocks(d, None, None) {
                Err(e) => Err(e),
                Ok(((old_row, new_row), d)) => match new_row {
                    None => Err(FrameError::MissingNewTuple),
                    Some(row) => Ok(
                        (
                            RowChange::Update {
                                table: rel.table_name,
                                old_key: match old_row {
                                    Some(old) => key_fields(rel.columns, old),
                                    None => Map::empty(),
                                },
                                data: data_fields(rel.columns, row),
                            },
                            d,
                        ),
                    ),
                },
            },
        },
    }
}

/// A delete message: the key of a row of a known relation.
pub open spec fn read_delete(relations: Map<u32, Relation>, d: Seq<u8>) -> Reading<RowChange> {
    match crate::wal::read_delete(relations, d) {
        Err(e) => Err(e),
        Ok((change, rest)) => Ok(
            (RowChange::Delete { table: change.table(), old_key: change.key() }, rest),
        ),
    }
}

/// What the parser knows: the schemas, the changes of the open transaction, its id
/// and its final position.
#[verifier::ext_equal]
pub ghost struct Session {
    pub relations: Map<u32, Relation>,
    pub changes: Seq<RowChange>,
    pub xid: u32,
    pub final_lsn: u64,
}

impl Session {
    pub open spec fn with_relation(self, id: u32, relation: Relation) -> Session {
        Session { relations: self.relations.insert(id, relation), ..self }
    }

    pub open spec fn with_change(self, change: RowChange) -> Session {
        Session { changes: self.changes.push(change), ..self }
    }

    pub open spec fn begun(self, final_lsn: u64, xid: u32) -> Session {
        Session { changes: Seq::empty(), xid, final_lsn, ..self }
    }

    pub open spec fn committed(self) -> Session {
        Session { changes: Seq::empty(), ..self }
    }
}

/// What one message does.
pub ghost enum Step {
    /// It is read, tells a commit position where it is a commit, and leaves these
    /// bytes.
    Next(Session, Option<u64>, Seq<u8>),
    /// Its type is not known: the rest is left alone.
    Stop,
    /// It cannot be read.
    Fail(FrameError),
}

/// The change that a row message appends.
pub open spec fn change_step(session: Session, reading: Reading<RowChange>) -> Step {
    match reading {
        Ok((change, rest)) => Step::Next(session.with_change(change), None, rest),
        Err(e) => Step::Fail(e),
    }
}

/// The message at the front of bytes that are not empty.
pub open spec fn message_step(session: Session, d: Seq<u8>) -> Step {
    let body = d.skip(1);
    if d[0] == BEGIN {
        match read_begin(body) {
            Ok(((final_lsn, xid), rest)) => Step::Next(session.begun(final_lsn, xid), None, rest),
            Err(e) => Step::Fail(e),
        }
    } else if d[0] == RELATION {
        match read_relation(body) {
            Ok(((id, relation), rest)) => Step::Next(
                session.with_relation(id, relation),
                None,
                rest,
            ),
            Err(e) => Step::Fail(e),
        }
    } else if d[0] == INSERT {
        change_step(session, read_insert(session.relations, body))
    } else if d[0] == UPDATE {
        change_step(session, read_update(session.relations, body))
    } else if d[0] == DELETE {
        change_step(session, read_delete(session.relations, body))
    } else if d[0] == COMMIT {
        match read_commit(body) {
            Ok((lsn, rest)) => Step::Next(session.committed(), Some(lsn), rest),
            Err(e) => Step::Fail(e),
        }
    } else {
        Step::Stop
    }
}

/// Messages one after the other: the state after them, the position of the last
/// commit among them (`seen` where there is none), and why one could not be read.
pub open spec fn message_run(session: Session, seen: Option<u64>, d: Seq<u8>) -> (
    Session,
    Option<u64>,
    Option<FrameError>,
)
    decreases d.len(),
{
    proof {
        lemma_message_step_shrinks(session, d);
    }
    if d.len() == 0 {
        (session, seen, None)
    } else {
        match message_step(session, d) {
            Step::Next(next, commit, rest) => message_run(
                next,
                match commit {
                    Some(lsn) => Some(lsn),
                    None => seen,
                },
                rest,
            ),
            Step::Stop => (session, seen, None),
            Step::Fail(e) => (session, seen, Some(e)),
        }
    }
}

pub proof fn lemma_message_step_shrinks(session: Session, d: Seq<u8>)
    ensures
        d.len() > 0 ==> (message_step(session, d) matches Step::Next(_, _, rest) ==> rest.len()
            < d.len()),
{
    if d.len() > 0 {
        let body = d.skip(1);
        lemma_read_relation_shrinks(body);
        if let Ok((_, d)) = read_u32(body) {
            lemma_read_blocks_shrinks(d, None, None);
            if let Ok((_, d)) = read_u8(d) {
                lemma_read_tuple_shrinks(d);
            }
        }
    }
}

/// Collects the row-level changes of a transaction between its begin and commit
/// markers.
pub struct PgoutputParser {
    relation_cache: HashMap<u32, RelationInfo>,
    txn_buffer: Vec<TxnEvent>,
    current_xid: u32,
    current_final_lsn: u64,
}

impl View for PgoutputParser {
    type V = Session;

    closed spec fn view(&self) -> Session {
        Session {
            relations: relations_of(self.relation_cache@),
            changes: row_changes_of(self.txn_buffer@),
            xid: self.current_xid,
            final_lsn: self.current_final_lsn,
        }
    }
}

impl PgoutputParser {
    /// Knows no relation and no transaction.
    pub fn new() -> (parser: PgoutputParser)
        ensures
            parser@ == (Session {
                relations: Map::empty(),
                changes: Seq::empty(),
                xid: 0,
                final_lsn: 0,
            }),
    {
        let parser = PgoutputParser {
            relation_cache: HashMap::new(),
            txn_buffer: Vec::new(),
            current_xid: 0,
            current_final_lsn: 0,
        };
        assert(parser@ =~= (Session {
            relations: Map::empty(),
            changes: Seq::empty(),
            xid: 0,
            final_lsn: 0,
        }));
        parser
    }

    /// The id of the transaction that began last.
    pub fn current_xid(&self) -> (xid: u32)
        ensures
            xid == self@.xid,
    {
        self.current_xid
    }

    /// The final position of the transaction that began last.
    pub fn current_final_lsn(&self) -> (lsn: u64)
        ensures
            lsn == self@.final_lsn,
    {
        self.current_final_lsn
    }

    /// The changes of the open transaction.
    pub fn events(&self) -> (events: &Vec<TxnEvent>)
        ensures
            row_changes_of(events@) == self@.changes,
    {
        &self.txn_buffer
    }

    fn push_event(&mut self, event: TxnEvent)
        ensures
            final(self)@ == old(self)@.with_change(event@),
    {
        self.txn_buffer.push(event);
        assert(self@ =~= old(self)@.with_change(event@));
    }

    fn parse_begin(&mut self, data: &mut &[u8]) -> (done: Result<(), FrameError>)
        ensures
            match read_begin(old(data)@) {
                Ok(((final_lsn, xid), rest)) => done is Ok && final(self)@ == old(self)@.begun(
                    final_lsn,
                    xid,
                ) && final(data)@ == rest,
                Err(e) => done == Err::<(), FrameError>(e) && final(self)@ == old(self)@,
            },
    {
        let final_lsn = match take_u64(data) {
            Ok(n) => n,
            Err(e) => return Err(e),
        };
        match take_u64(data) {
            Ok(_timestamp) => {},
            Err(e) => return Err(e),
        }
        let xid = match take_u32(data) {
            Ok(n) => n,
            Err(e) => return Err(e),
        };
        self.txn_buffer.clear();
        self.current_xid = xid;
        self.current_final_lsn = final_lsn;
        assert(self@ =~= old(self)@.begun(final_lsn, xid));
        Ok(())
    }

    fn parse_relation(&mut self, data: &mut &[u8]) -> (done: Result<(), FrameError>)
        ensures
            match read_relation(old(data)@) {
                Ok(((id, relation), rest)) => done is Ok && final(self)@
                    == old(self)@.with_relation(id, relation) && final(data)@ == rest,
                Err(e) => done == Err::<(), FrameError>(e) && final(self)@ == old(self)@,
            },
    {
        match parse_relation_info(data) {
            Ok((relation_id, relation)) => {
                self.relation_cache.insert(relation_id, relation);
                assert(self@ =~= old(self)@.with_relation(relation_id, relation@));
                Ok(())
            },
            Err(e) => Err(e),
        }
    }

    fn parse_insert(&mut self, data: &mut &[u8]) -> (done: Result<(), FrameError>)
        ensures
            match read_insert(old(self)@.relations, old(data)@) {
                Ok((change, rest)) => done is Ok && final(self)@ == old(self)@.with_change(change)
                    && final(data)@ == rest,
                Err(e) => done == Err::<(), FrameError>(e) && final(self)@ == old(self)@,
            },
    {
        let relation_id = match take_u32(data) {
            Ok(n) => n,
            Err(e) => return Err(e),
        };
        let tuple_type = match take_u8(data) {
            Ok(b) => b,
            Err(e) => return Err(e),
        };
        if tuple_type != NEW_TUPLE {
            return Err(FrameError::UnexpectedTuple(tuple_type));
        }
        let rel = match find_relation(&self.relation_cache, relation_id) {
            Ok(r) => r,
            Err(e) => return Err(e),
        };
        let row_data = match parse_counted_tuple(data) {
            Ok(r) => r,
            Err(e) => return Err(e),
        };
        let event = TxnEvent::Insert {
            table: rel.table_name.clone(),
            data: zip_columns(&rel.columns, &row_data),
        };
        self.push_event(event);
        Ok(())
    }

    fn parse_update(&mut self, data: &mut &[u8]) -> (done: Result<(), FrameError>)
        ensures
            match read_update(old(self)@.relations, old(data)@) {
                Ok((change, rest)) => done is Ok && final(self)@ == old(self)@.with_change(change)
                    && final(data)@ == rest,
                Err(e) => done == Err::<(), FrameError>(e) && final(self)@ == old(self)@,
            },
    {
        let relation_id = match take_u32(data) {
            Ok(n) => n,
            Err(e) => return Err(e),
        };
        let rel = match find_relation(&self.relation_cache, relation_id) {
            Ok(r) => r,
            Err(e) => return Err(e),
        };
        let (old_row, new_row) = match parse_blocks(data) {
            Ok(rows) => rows,
            Err(e) => return Err(e),
        };
        let row_data = match new_row {
            Some(r) => r,
            None => return Err(FrameError::MissingNewTuple),
        };
        let old_key = match &old_row {
            Some(old) => extract_key_columns(&rel.columns, old),
            None => FieldMap::new(),
        };
        let event = TxnEvent::Update {
            table: rel.table_name.clone(),
            old_key,
            data: zip_columns(&rel.columns, &row_data),
        };
        self.push_event(event);
        Ok(())
    }

    fn parse_delete(&mut self, data: &mut &[u8]) -> (done: Result<(), FrameError>)
        ensures
            match read_delete(old(self)@.relations, old(data)@) {
                Ok((change, rest)) => done is Ok && final(self)@ == old(self)@.with_change(change)
                    && final(data)@ == rest,
                Err(e) => done == Err::<(), FrameError>(e) && final(self)@ == old(self)@,
            },
    {
        let relation_id = match take_u32(data) {
            Ok(n) => n,
            Err(e) => return Err(e),
        };
        let tuple_type = match take_u8(data) {
            Ok(b) => b,
            Err(e) => return Err(e),
        };
        if tuple_type != OLD_TUPLE && tuple_type != KEY_TUPLE {
            return Err(FrameError::UnexpectedTuple(tuple_type));
        }
        let rel = match find_relation(&self.relation_cache, relation_id) {
            Ok(r) => r,
            Err(e) => return Err(e),
        };
        let row_data = match parse_counted_tuple(data) {
            Ok(r) => r,
            Err(e) => return Err(e),
        };
        let event = TxnEvent::Delete {
            table: rel.table_name.clone(),
            old_key: extract_key_columns(&rel.columns, &row_data),
        };
        self.push_event(event);
        Ok(())
    }

    fn parse_commit(&mut self, data: &mut &[u8]) -> (lsn: Result<u64, FrameError>)
        ensures
            match read_commit(old(data)@) {
                Ok((commit_lsn, rest)) => lsn == Ok::<u64, FrameError>(commit_lsn) && final(self)@
                    == old(self)@.committed() && final(data)@ == rest,
                Err(e) => lsn == Err::<u64, FrameError>(e) && final(self)@ == old(self)@,
            },
    {
        match take_u8(data) {
            Ok(_flags) => {},
            Err(e) => return Err(e),
        }
        let commit_lsn = match take_u64(data) {
            Ok(n) => n,
            Err(e) => return Err(e),
        };
        match take_u64(data) {
            Ok(_end_lsn) => {},
            Err(e) => return Err(e),
        }
        match take_u64(data) {
            Ok(_commit_timestamp) => {},
            Err(e) => return Err(e),
        }
        self.txn_buffer.clear();
        assert(self@ =~= old(self)@.committed());
        Ok(commit_lsn)
    }

    /// Parses messages one after the other, as far as they can be read, and tells
    /// the position of the last commit among them.
    pub fn try_parse_message(&mut self, data: &[u8]) -> (lsn: Result<Option<u64>, FrameError>)
        ensures
            match message_run(old(self)@, None, data@) {
                (session, commit, None) => lsn == Ok::<Option<u64>, FrameError>(commit)
                    && final(self)@ == session,
                (session, _, Some(e)) => lsn == Err::<Option<u64>, FrameError>(e) && final(self)@
                    == session,
            },
    {
        let mut rest = data;
        let mut commit_lsn: Option<u64> = None;
        while has_remaining(&rest)
            invariant
                message_run(old(self)@, None, data@) == message_run(self@, commit_lsn, rest@),
            decreases rest@.len(),
        {
            proof {
                lemma_message_step_shrinks(self@, rest@);
            }
            let msg_type = match take_u8(&mut rest) {
                Ok(b) => b,
                Err(e) => return Err(e),
            };
            let done = if msg_type == BEGIN {
                self.parse_begin(&mut rest)
            } else if msg_type == RELATION {
                self.parse_relation(&mut rest)
            } else if msg_type == INSERT {
                self.parse_insert(&mut rest)
            } else if msg_type == UPDATE {
                self.parse_update(&mut rest)
            } else if msg_type == DELETE {
                self.parse_delete(&mut rest)
            } else if msg_type == COMMIT {
                match self.parse_commit(&mut rest) {
                    Ok(lsn) => {
                        commit_lsn = Some(lsn);
                        Ok(())
                    },
                    Err(e) => Err(e),
                }
            } else {
                return Ok(commit_lsn);
            };
            if let Err(e) = done {
                return Err(e);
            }
        }
        Ok(commit_lsn)
    }

    /// Parses messages one after the other and tells the position of the last
    /// commit among them.
    pub fn parse_message(&mut self, data: &[u8]) -> (lsn: Option<u64>)
        requires
            message_run(old(self)@, None, data@).2 is None,
        ensures
            final(self)@ == message_run(old(self)@, None, data@).0,
            lsn == message_run(old(self)@, None, data@).1,
    {
        match self.try_parse_message(data) {
            Ok(lsn) => lsn,
            Err(_) => None,
        }
    }
}

/// The message that a transaction begins.
pub open spec fn begin_message(final_lsn: u64, timestamp: u64, xid: u32) -> Seq<u8> {
    seq![BEGIN] + u64_bytes(final_lsn) + u64_bytes(timestamp) + u32_bytes(xid)
}

/// The message that a transaction is committed.
pub open spec fn commit_message(flags: u8, commit_lsn: u64, end_lsn: u64, timestamp: u64) -> Seq<
    u8,
> {
    seq![COMMIT] + seq![flags] + u64_bytes(commit_lsn) + u64_bytes(end_lsn) + u64_bytes(timestamp)
}

/// A begin message drops what an unfinished transaction left, keeps the relations,
/// and remembers the id and the final position of the transaction.
pub proof fn law_begin_starts_afresh(
    session: Session,
    final_lsn: u64,
    timestamp: u64,
    xid: u32,
    rest: Seq<u8>,
)
    ensures
        message_step(session, begin_message(final_lsn, timestamp, xid) + rest) == Step::Next(
            Session { relations: session.relations, changes: Seq::empty(), xid, final_lsn },
            None,
            rest,
        ),
{
    let d3 = u32_bytes(xid) + rest;
    let d2 = u64_bytes(timestamp) + d3;
    let d1 = u64_bytes(final_lsn) + d2;
    let d = begin_message(final_lsn, timestamp, xid) + rest;
    assert(d =~= seq![BEGIN] + d1);
    assert(d.skip(1) =~= d1);
    lemma_u64_reads_back(final_lsn, d2);
    lemma_u64_reads_back(timestamp, d3);
    lemma_u32_reads_back(xid, rest);
}

proof fn lemma_five_parts(
    tag: u8,
    flags: u8,
    a: Seq<u8>,
    b: Seq<u8>,
    c: Seq<u8>,
    rest: Seq<u8>,
)
    ensures
        (seq![tag] + seq![flags] + a + b + c + rest)[0] == tag,
        (seq![tag] + seq![flags] + a + b + c + rest).skip(1) == seq![flags] + (a + (b + (c
            + rest))),
        (seq![flags] + (a + (b + (c + rest))))[0] == flags,
        (seq![flags] + (a + (b + (c + rest)))).skip(1) == a + (b + (c + rest)),
{
    assert((seq![tag] + seq![flags] + a + b + c + rest).skip(1) =~= seq![flags] + (a + (b + (c
        + rest))));
    assert((seq![flags] + (a + (b + (c + rest)))).skip(1) =~= a + (b + (c + rest)));
}

/// A commit message tells its commit position, whatever its other fields, and
/// leaves no change behind.
pub proof fn law_commit_tells_its_position(
    session: Session,
    flags: u8,
    commit_lsn: u64,
    end_lsn: u64,
    timestamp: u64,
    rest: Seq<u8>,
)
    ensures
        message_step(session, commit_message(flags, commit_lsn, end_lsn, timestamp) + rest)
            == Step::Next(
            Session {
                relations: session.relations,
                changes: Seq::empty(),
                xid: session.xid,
                final_lsn: session.final_lsn,
            },
            Some(commit_lsn),
            rest,
        ),
{
    let (a, b, c) = (u64_bytes(commit_lsn), u64_bytes(end_lsn), u64_bytes(timestamp));
    lemma_five_parts(COMMIT, flags, a, b, c, rest);
    lemma_u64_reads_back(commit_lsn, b + (c + rest));
    lemma_u64_reads_back(end_lsn, c + rest);
    lemma_u64_reads_back(timestamp, rest);
    assert(read_commit(seq![flags] + (a + (b + (c + rest)))) == Ok::<_, FrameError>(
        (commit_lsn, rest),
    ));
}

/// An update message for a known relation that tells no old key appends the new
/// row, and leaves the message that follows it.
#[verifier::spinoff_prover]
#[verifier::rlimit(40)]
pub proof fn law_update_leaves_what_follows(
    session: Session,
    id: u32,
    row: Seq<Cell>,
    rest: Seq<u8>,
)
    requires
        session.relations.contains_key(id),
        row_fits(row),
        !starts_tuple(rest),
    ensures
        ({
            let relation = session.relations[id];
            message_step(session, update_message(id, row) + rest) == Step::Next(
                Session {
                    relations: session.relations,
                    changes: session.changes.push(
                        RowChange::Update {
                            table: relation.table_name,
                            old_key: Map::empty(),
                            data: data_fields(relation.columns, row),
                        },
                    ),
                    xid: session.xid,
                    final_lsn: session.final_lsn,
                },
                None,
                rest,
            )
        }),
{
    let block = seq![NEW_TUPLE] + (tuple_bytes(row) + rest);
    let d = update_message(id, row) + rest;
    assert(d =~= seq![UPDATE] + (u32_bytes(id) + block));
    assert(d.skip(1) =~= u32_bytes(id) + block);
    lemma_u32_reads_back(id, block);
    lemma_new_block_reads_back(None, row, rest);
}

proof fn lemma_two_blocks(
    tag: u8,
    a: Seq<u8>,
    kind: u8,
    b: Seq<u8>,
    next: u8,
    c: Seq<u8>,
    rest: Seq<u8>,
)
    ensures
        (seq![tag] + a + seq![kind] + b + seq![next] + c + rest)[0] == tag,
        (seq![tag] + a + seq![kind] + b + seq![next] + c + rest).skip(1) == a + (seq![kind] + (b + (
        seq![next] + (c + rest)))),
{
    assert((seq![tag] + a + seq![kind] + b + seq![next] + c + rest).skip(1) =~= a + (seq![kind] + (b
        + (seq![next] + (c + rest)))));
}

/// An update message for a known relation that tells the old row or key appends the
/// new row with the key that the row had, and leaves the message that follows it.
#[verifier::spinoff_prover]
#[verifier::rlimit(40)]
pub proof fn law_rekeying_update_leaves_what_follows(
    session: Session,
    id: u32,
    kind: u8,
    old_row: Seq<Cell>,
    row: Seq<Cell>,
    rest: Seq<u8>,
)
    requires
        session.relations.contains_key(id),
        kind == OLD_TUPLE || kind == KEY_TUPLE,
        row_fits(old_row),
        row_fits(row),
        !starts_tuple(rest),
    ensures
        ({
            let relation = session.relations[id];
            message_step(session, rekeying_message(id, kind, old_row, row) + rest) == Step::Next(
                Session {
                    relations: session.relations,
                    changes: session.changes.push(
                        RowChange::Update {
                            table: relation.table_name,
                            old_key: key_fields(relation.columns, old_row),
                            data: data_fields(relation.columns, row),
                        },
                    ),
                    xid: session.xid,
                    final_lsn: session.final_lsn,
                },
                None,
                rest,
            )
        }),
{
    let new_block = seq![NEW_TUPLE] + (tuple_bytes(row) + rest);
    let old_block = seq![kind] + (tuple_bytes(old_row) + new_block);
    lemma_two_blocks(
        UPDATE,
        u32_bytes(id),
        kind,
        tuple_bytes(old_row),
        NEW_TUPLE,
        tuple_bytes(row),
        rest,
    );
    lemma_u32_reads_back(id, old_block);
    lemma_old_block_reads_back(kind, old_row, row, rest);
}

/// A relation message is cached under its id, and changes nothing else.
pub proof fn law_relation_is_remembered(
    session: Session,
    id: u32,
    relation: Relation,
    rest: Seq<u8>,
)
    requires
        relation_fits(relation),
    ensures
        message_step(session, relation_message(id, relation) + rest) == Step::Next(
            Session {
                relations: session.relations.insert(id, relation),
                changes: session.changes,
                xid: session.xid,
                final_lsn: session.final_lsn,
            },
            None,
            rest,
        ),
{
    let replica = Replica { relations: session.relations, changes: Seq::empty() };
    let d = relation_message(id, relation) + rest;
    law_relation_is_cached(replica, id, relation, rest);
    assert(d[0] == RELATION);
    law_parsers_agree(session, replica, d);
}

/// An insert message for a known relation appends the row.
pub proof fn law_insert_appends_its_row(
    session: Session,
    id: u32,
    row: Seq<Cell>,
    rest: Seq<u8>,
)
    requires
        session.relations.contains_key(id),
        row_fits(row),
    ensures
        message_step(session, insert_message(id, row) + rest) == Step::Next(
            Session {
                relations: session.relations,
                changes: session.changes.push(
                    RowChange::Insert {
                        table: session.relations[id].table_name,
                        data: data_fields(session.relations[id].columns, row),
                    },
                ),
                xid: session.xid,
                final_lsn: session.final_lsn,
            },
            None,
            rest,
        ),
{
    let replica = Replica { relations: session.relations, changes: Seq::empty() };
    let d = insert_message(id, row) + rest;
    law_insert_is_read(replica, id, row, rest);
    assert(d[0] == INSERT);
    law_parsers_agree(session, replica, d);
}

/// A delete message for a known relation appends the key of the row.
pub proof fn law_delete_appends_its_key(
    session: Session,
    id: u32,
    kind: u8,
    row: Seq<Cell>,
    rest: Seq<u8>,
)
    requires
        session.relations.contains_key(id),
        kind == OLD_TUPLE || kind == KEY_TUPLE,
        row_fits(row),
    ensures
        message_step(session, delete_message(id, kind, row) + rest) == Step::Next(
            Session {
                relations: session.relations,
                changes: session.changes.push(
                    RowChange::Delete {
                        table: session.relations[id].table_name,
                        old_key: key_fields(session.relations[id].columns, row),
                    },
                ),
                xid: session.xid,
                final_lsn: session.final_lsn,
            },
            None,
            rest,
        ),
{
    let replica = Replica { relations: session.relations, changes: Seq::empty() };
    let d = delete_message(id, kind, row) + rest;
    law_delete_is_read(replica, id, kind, row, rest);
    assert(d[0] == DELETE);
    law_parsers_agree(session, replica, d);
}

/// Row-level messages are read alike with and without transaction markers: what one
/// parser refuses the other refuses for the same reason, and what one reads the other
/// reads, up to the same byte, with the same relations after it and the same change to
/// the same table, if any, behind those that were there.
pub proof fn law_parsers_agree(session: Session, replica: Replica, d: Seq<u8>)
    requires
        session.relations == replica.relations,
        d.len() > 0,
        d[0] == 0x52 || d[0] == 0x49 || d[0] == 0x55 || d[0] == 0x44,
    ensures
        match (message_step(session, d), frame_step(replica, d)) {
            (Step::Next(after, commit, rest), crate::wal::Step::Next(kept, left)) => {
                &&& rest == left
                &&& commit is None
                &&& after.relations == kept.relations
                &&& after.xid == session.xid
                &&& after.final_lsn == session.final_lsn
                &&& if d[0] == 0x52 {
                    after.changes == session.changes && kept.changes == replica.changes
                } else {
                    &&& kept.changes.len() == replica.changes.len() + 1
                    &&& after.relations == session.relations
                    &&& after.changes.len() == session.changes.len() + 1
                    &&& after.changes.drop_last() == session.changes
                    &&& match after.changes.last() {
                        RowChange::Insert { table, data } => d[0] == 0x49 && kept.changes.last()
                            is Insert && table == kept.changes.last().table() && data
                            == kept.changes.last().data(),
                        RowChange::Update { table, old_key: _, data } => d[0] == 0x55
                            && kept.changes.last().table() == table,
                        RowChange::Delete { table, old_key } => d[0] == 0x44
                            && kept.changes.last() is Delete && table
                            == kept.changes.last().table() && old_key == kept.changes.last().key(),
                    }
                }
            },
            (Step::Fail(e), crate::wal::Step::Fail(reason)) => e == reason,
            _ => false,
        },
{
    if let Step::Next(after, _, _) = message_step(session, d) {
        if d[0] != 0x52 {
            assert(after.changes.drop_last() =~= session.changes);
        }
    }
}

/// A run goes on behind every message that is read, and remembers the position of a
/// commit until another one is read.
pub proof fn law_run_goes_on_behind_a_message(session: Session, seen: Option<u64>, d: Seq<u8>)
    ensures
        d.len() == 0 ==> message_run(session, seen, d) == (session, seen, None::<FrameError>),
        d.len() > 0 ==> (message_step(session, d) matches Step::Next(next, commit, rest)
            ==> rest.len() < d.len() && (commit is None ==> message_run(session, seen, d)
            == message_run(next, seen, rest)) && (commit is Some ==> message_run(session, seen, d)
            == message_run(next, commit, rest))),
        d.len() > 0 ==> (message_step(session, d) matches Step::Fail(e) ==> message_run(
            session,
            seen,
            d,
        ) == (session, seen, Some(e))),
{
    lemma_message_step_shrinks(session, d);
}

/// A byte that starts no known message ends a run: what stands behind it changes
/// nothing.
pub proof fn law_unknown_message_ends_the_run(session: Session, seen: Option<u64>, d: Seq<u8>)
    requires
        d.len() > 0,
        d[0] != 0x42 && d[0] != 0x43 && d[0] != 0x52 && d[0] != 0x49 && d[0] != 0x55 && d[0] != 0x44,
    ensures
        message_run(session, seen, d) == (session, seen, None::<FrameError>),
{
}

/// A transaction starts and ends without changes: whatever an unfinished one left is
/// dropped by the begin message, and the commit message tells its position and leaves
/// nothing, while the relations stay known.
pub proof fn law_transaction_is_told_by_its_commit(
    session: Session,
    seen: Option<u64>,
    final_lsn: u64,
    began: u64,
    xid: u32,
    flags: u8,
    commit_lsn: u64,
    end_lsn: u64,
    ended: u64,
)
    ensures
        message_run(
            session,
            seen,
            begin_message(final_lsn, began, xid) + commit_message(
                flags,
                commit_lsn,
                end_lsn,
                ended,
            ),
        ) == (
            Session { relations: session.relations, changes: Seq::empty(), xid, final_lsn },
            Some(commit_lsn),
            None::<FrameError>,
        ),
{
    let first = begin_message(final_lsn, began, xid);
    let second = commit_message(flags, commit_lsn, end_lsn, ended);
    let open = Session { relations: session.relations, changes: Seq::empty(), xid, final_lsn };
    let none = Seq::<u8>::empty();
    law_begin_starts_afresh(session, final_lsn, began, xid, second);
    law_run_goes_on_behind_a_message(session, seen, first + second);
    assert(second + none =~= second);
    law_commit_tells_its_position(open, flags, commit_lsn, end_lsn, ended, none);
    law_run_goes_on_behind_a_message(open, seen, second);
    law_run_goes_on_behind_a_message(open, Some(commit_lsn), none);
}

}
