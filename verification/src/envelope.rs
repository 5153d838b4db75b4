//! What a consumer reads out of a published payload: the version of a change and
//! the change itself.

use crate::event::{Change, Fields, TxnEvent};
use crate::fields::{in_order, lemma_finite_set_has_an_order, lists_in_order};
use crate::json::{fields_tree, member_from, Tree};
use vstd::prelude::*;
use vstd::string::*;

verus! {

/// What a payload says, once it is decoded.
#[derive(Debug)]
pub struct Envelope {
    /// External version for OpenSearch (`commit_lsn` + in-txn index).
    pub version: u64,
    pub event: TxnEvent,
}

/// What a payload says.
pub ghost struct Sealed {
    pub version: u64,
    pub change: Change,
}

impl View for Envelope {
    type V = Sealed;

    open spec fn view(&self) -> Sealed {
        Sealed { version: self.version, change: self.event@ }
    }
}

/// The texts under the names of members; `None` where one is no text.
pub open spec fn texts_under(members: Seq<(Seq<char>, Tree)>) -> Option<Fields>
    decreases members.len(),
{
    if members.len() == 0 {
        Some(Map::empty())
    } else {
        match (texts_under(members.drop_last()), members.last().1) {
            (Some(before), Tree::Text(text)) => Some(before.insert(members.last().0, text)),
            _ => None,
        }
    }
}

/// The fields that an optional value holds; `None` where it is no object of texts.
pub open spec fn fields_in(value: Option<Tree>) -> Option<Fields> {
    match value {
        Some(Tree::Object(members)) => texts_under(members),
        _ => None,
    }
}

/// The change that a row stands for under the name of its kind.
pub open spec fn change_in(kind: Seq<char>, row: Tree) -> Option<Change> {
    match (row.get("table"@), fields_in(row.get("key"@)), fields_in(row.get("data"@))) {
        (Some(Tree::Text(table)), Some(key), Some(data)) if kind == "Insert"@ => Some(
            Change::Insert { table, key, data },
        ),
        (Some(Tree::Text(table)), Some(key), Some(data)) if kind == "Update"@ => Some(
            Change::Update { table, key, data },
        ),
        (Some(Tree::Text(table)), Some(key), _) if kind == "Delete"@ => Some(
            Change::Delete { table, key },
        ),
        _ => None,
    }
}

/// The change that a JSON value tells: one member, named by the kind of the change,
/// with the row under it.
pub open spec fn event_in(event: Tree) -> Option<Change> {
    match event {
        Tree::Object(members) if members.len() == 1 => change_in(members[0].0, members[0].1),
        _ => None,
    }
}

/// What a payload says: its version and its change; `None` where one is missing.
pub open spec fn sealed_in(payload: Tree) -> Option<Sealed> {
    match (payload.get("version"@), payload.get("event"@)) {
        (Some(Tree::Unsigned(version)), Some(event)) => match event_in(event) {
            Some(change) => Some(Sealed { version, change }),
            None => None,
        },
        _ => None,
    }
}

proof fn lemma_texts_read_back(names: Seq<Seq<char>>, fields: Fields)
    ensures
        ({
            let members = names.map_values(|name: Seq<char>| (name, Tree::Text(fields[name])));
            texts_under(members) matches Some(read) && (forall|name: Seq<char>| #[trigger]
                read.contains_key(name) <==> names.contains(name)) && (forall|name: Seq<char>|
                read.contains_key(name) ==> #[trigger] read[name] == fields[name])
        }),
    decreases names.len(),
{
    let members = names.map_values(|name: Seq<char>| (name, Tree::Text(fields[name])));
    if names.len() > 0 {
        let head = names.drop_last();
        lemma_texts_read_back(head, fields);
        assert(members.drop_last() =~= head.map_values(
            |name: Seq<char>| (name, Tree::Text(fields[name])),
        ));
        let read = texts_under(members)->0;
        assert forall|name: Seq<char>| #[trigger] read.contains_key(name) <==> names.contains(
            name,
        ) by {
            if names.contains(name) {
                let i = choose|i: int| 0 <= i < names.len() && names[i] == name;
                if i < head.len() {
                    assert(head[i] == name);
                    assert(head.contains(name));
                }
            }
            if head.contains(name) {
                let i = choose|i: int| 0 <= i < head.len() && head[i] == name;
                assert(names[i] == name);
            }
            assert(names[names.len() - 1] == names.last());
        }
    }
}

/// Fields that are written as an object of texts are read back from it.
pub proof fn law_fields_are_read_back(fields: Fields)
    requires
        fields.dom().finite(),
    ensures
        fields_in(Some(fields_tree(fields))) == Some(fields),
{
    let names = in_order(fields.dom());
    lemma_finite_set_has_an_order(fields.dom());
    assert(lists_in_order(names, fields.dom()));
    lemma_texts_read_back(names, fields);
    let read = fields_in(Some(fields_tree(fields)))->0;
    assert forall|name: Seq<char>| read.dom().contains(name) == fields.dom().contains(name) by {
        assert(read.contains_key(name) <==> names.contains(name));
        assert(names.contains(name) <==> fields.dom().contains(name));
    }
    assert(read =~= fields);
}

/// The members of a row are found under their names.
pub proof fn lemma_row_members_are_found(table: Tree, key: Tree, data: Tree)
    ensures
        ({
            let row = Tree::Object(seq![("data"@, data), ("key"@, key), ("table"@, table)]);
            &&& row.get("data"@) == Some(data)
            &&& row.get("key"@) == Some(key)
            &&& row.get("table"@) == Some(table)
        }),
        ({
            let row = Tree::Object(seq![("key"@, key), ("table"@, table)]);
            &&& row.get("key"@) == Some(key)
            &&& row.get("table"@) == Some(table)
        }),
{
    reveal_strlit("data");
    reveal_strlit("key");
    reveal_strlit("table");
    assert("data"@[0] == 'd');
    assert("key"@[0] == 'k');
    assert("table"@[0] == 't');
    reveal_with_fuel(member_from, 4);
}

}
