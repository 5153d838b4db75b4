//! JSON values as plain data, and their text.

use crate::event::Fields;
use crate::fields::{
    in_order, lemma_finite_set_has_an_order, lemma_name_before_is_strict, lists_in_order,
    name_before, FieldMap,
};
use crate::text::same_text;
use vstd::prelude::*;
use vstd::string::*;
use vstd::utf8::encode_utf8;

verus! {

/// A JSON value.
pub ghost enum Tree {
    Null,
    Bool(bool),
    Unsigned(u64),
    /// A negative 64-bit integer.
    Negative(i64),
    /// A number that is no 64-bit integer.
    OtherNumber,
    Text(Seq<char>),
    Array(Seq<Tree>),
    /// Members in the order in which the object lists them.
    Object(Seq<(Seq<char>, Tree)>),
}

/// A JSON value.
#[derive(Debug)]
pub enum Json {
    Null,
    Bool(bool),
    Unsigned(u64),
    /// A negative 64-bit integer.
    Negative(i64),
    /// A number that is no 64-bit integer.
    OtherNumber,
    Text(String),
    Array(Vec<Json>),
    /// Members in the order in which the object lists them.
    Object(Vec<(String, Json)>),
}

/// The value that a `Json` stands for.
pub open spec fn tree_of(json: Json) -> Tree
    decreases json,
{
    match json {
        Json::Null => Tree::Null,
        Json::Bool(b) => Tree::Bool(b),
        Json::Unsigned(n) => Tree::Unsigned(n),
        Json::Negative(n) => Tree::Negative(n),
        Json::OtherNumber => Tree::OtherNumber,
        Json::Text(s) => Tree::Text(s@),
        Json::Array(items) => Tree::Array(
            Seq::new(
                items@.len(),
                |i: int|
                    if 0 <= i < items@.len() {
                        tree_of(items@[i])
                    } else {
                        Tree::Null
                    },
            ),
        ),
        Json::Object(members) => Tree::Object(
            Seq::new(
                members@.len(),
                |i: int|
                    if 0 <= i < members@.len() {
                        (members@[i].0@, tree_of(members@[i].1))
                    } else {
                        (Seq::empty(), Tree::Null)
                    },
            ),
        ),
    }
}

impl View for Json {
    type V = Tree;

    open spec fn view(&self) -> Tree {
        tree_of(*self)
    }
}

/// How deep the arrays and objects of a JSON text may nest for a reader.
pub const DEEPEST: u8 = 127;

impl Tree {
    /// The first member of an object under `name`.
    pub open spec fn get(self, name: Seq<char>) -> Option<Tree> {
        match self {
            Tree::Object(members) => member_from(members, name, 0),
            _ => None,
        }
    }

    /// The value of the first member of an object.
    pub open spec fn first_value(self) -> Option<Tree> {
        match self {
            Tree::Object(members) if members.len() > 0 => Some(members[0].1),
            _ => None,
        }
    }

    /// Whether every number in the value is a 64-bit integer, and every object lists
    /// its members in the order of their names, each name once.
    pub open spec fn is_writable(self) -> bool
        decreases self,
    {
        match self {
            Tree::OtherNumber => false,
            Tree::Negative(n) => n < 0,
            Tree::Array(items) => forall|i: int|
                0 <= i < items.len() ==> (#[trigger] items[i]).is_writable(),
            Tree::Object(members) => names_in_order(members) && forall|i: int|
                0 <= i < members.len() ==> (#[trigger] members[i]).1.is_writable(),
            _ => true,
        }
    }

    /// Whether arrays and objects nest at most `depth` deep in the value.
    pub open spec fn nests_within(self, depth: nat) -> bool
        decreases depth,
    {
        match self {
            Tree::Array(items) => depth > 0 && forall|i: int|
                0 <= i < items.len() ==> (#[trigger] items[i]).nests_within((depth - 1) as nat),
            Tree::Object(members) => depth > 0 && forall|i: int|
                0 <= i < members.len() ==> (#[trigger] members[i]).1.nests_within(
                    (depth - 1) as nat,
                ),
            _ => true,
        }
    }
}

/// The first member under `name` from the place `i` on.
pub open spec fn member_from(members: Seq<(Seq<char>, Tree)>, name: Seq<char>, i: int) -> Option<
    Tree,
>
    decreases members.len() - i,
{
    if i < 0 || i >= members.len() {
        None
    } else if members[i].0 == name {
        Some(members[i].1)
    } else {
        member_from(members, name, i + 1)
    }
}

/// Whether the names of the members rise strictly.
pub open spec fn names_in_order(members: Seq<(Seq<char>, Tree)>) -> bool {
    forall|i: int, j: int|
        0 <= i < j < members.len() ==> name_before(
            (#[trigger] members[i]).0,
            (#[trigger] members[j]).0,
        )
}

/// Fields as an object of texts, in the order of their names.
pub open spec fn fields_tree(fields: Fields) -> Tree {
    Tree::Object(
        in_order(fields.dom()).map_values(|name: Seq<char>| (name, Tree::Text(fields[name]))),
    )
}

/// A JSON value of `serde_json`.
#[verifier::external_type_specification]
#[verifier::external_body]
pub struct ExValue(serde_json::Value);

/// What `serde_json` reports where a text is no JSON.
#[verifier::external_type_specification]
#[verifier::external_body]
pub struct ExError(serde_json::Error);

/// What a `serde_json::Value` holds: a number is what `as_u64` gives out, or else
/// what `as_i64` does, and the others all look alike; an object lists its members
/// as it is walked.
pub uninterp spec fn value_tree(value: serde_json::Value) -> Tree;

/// The compact text that `serde_json` writes for a value.
pub uninterp spec fn json_text_of(tree: Tree) -> Seq<char>;

/// What `serde_json::from_slice` reads as a value; `None` where it reports an error.
pub uninterp spec fn json_parsed(bytes: Seq<u8>) -> Option<Tree>;

/// The outermost layer of a JSON value.
enum Node {
    Null,
    Bool(bool),
    Unsigned(u64),
    Negative(i64),
    OtherNumber,
    Text(String),
    Array(Vec<serde_json::Value>),
    Object(Vec<(String, serde_json::Value)>),
}

spec fn node_tree(node: Node) -> Tree {
    match node {
        Node::Null => Tree::Null,
        Node::Bool(b) => Tree::Bool(b),
        Node::Unsigned(n) => Tree::Unsigned(n),
        Node::Negative(n) => Tree::Negative(n),
        Node::OtherNumber => Tree::OtherNumber,
        Node::Text(s) => Tree::Text(s@),
        Node::Array(items) => Tree::Array(items@.map_values(|v: serde_json::Value| value_tree(v))),
        Node::Object(members) => Tree::Object(
            members@.map_values(|m: (String, serde_json::Value)| (m.0@, value_tree(m.1))),
        ),
    }
}

/// The variants of `serde_json::Value` with their contents: a number by
/// `Number::as_u64` and `Number::as_i64`, an object by walking its map.
#[verifier::external_body]
fn layer_of(value: serde_json::Value) -> (node: Node)
    ensures
        node_tree(node) == value_tree(value),
{
    match value {
        serde_json::Value::Null => Node::Null,
        serde_json::Value::Bool(b) => Node::Bool(b),
        serde_json::Value::Number(n) => match (n.as_u64(), n.as_i64()) {
            (Some(n), _) => Node::Unsigned(n),
            (None, Some(n)) => Node::Negative(n),
            (None, None) => Node::OtherNumber,
        },
        serde_json::Value::String(s) => Node::Text(s),
        serde_json::Value::Array(items) => Node::Array(items),
        serde_json::Value::Object(members) => Node::Object(members.into_iter().collect()),
    }
}

/// The variants of `serde_json::Value` put together from their contents. Its map
/// keeps members in the order of their names, so members that are given in that
/// order are walked in it.
#[verifier::external_body]
fn value_with(node: Node) -> (value: serde_json::Value)
    requires
        node !is OtherNumber,
        node matches Node::Negative(n) ==> n < 0,
        node_tree(node) matches Tree::Object(members) ==> names_in_order(members),
    ensures
        value_tree(value) == node_tree(node),
{
    match node {
        Node::Null | Node::OtherNumber => serde_json::Value::Null,
        Node::Bool(b) => serde_json::Value::Bool(b),
        Node::Unsigned(n) => serde_json::Value::Number(n.into()),
        Node::Negative(n) => serde_json::Value::Number(n.into()),
        Node::Text(s) => serde_json::Value::String(s),
        Node::Array(items) => serde_json::Value::Array(items),
        Node::Object(members) => serde_json::Value::Object(members.into_iter().collect()),
    }
}

/// `Value::to_string`: compact JSON on one line, which `serde_json::from_slice`
/// reads back as the same value unless it nests deeper than a reader allows. How
/// the text is spelled is left to its name.
#[verifier::external_body]
fn value_text(value: &serde_json::Value) -> (text: String)
    requires
        value_tree(*value).is_writable(),
    ensures
        text@ == json_text_of(value_tree(*value)),
        !text@.contains('\n'),
        value_tree(*value).nests_within(DEEPEST as nat) ==> json_parsed(encode_utf8(text@)) == Some(
            value_tree(*value),
        ),
{
    value.to_string()
}

/// `serde_json::from_slice` to a `Value`: its outcome depends on the bytes alone.
/// Which bytes are JSON, and of what, is left to its name.
#[verifier::external_body]
fn value_from_slice(bytes: &[u8]) -> (value: Result<serde_json::Value, serde_json::Error>)
    ensures
        match value {
            Ok(v) => json_parsed(bytes@) == Some(value_tree(v)),
            Err(_) => json_parsed(bytes@) is None,
        },
{
    serde_json::from_slice(bytes)
}

fn json_of(value: serde_json::Value) -> (json: Json)
    ensures
        json@ == value_tree(value),
    decreases value_tree(value),
{
    let node = layer_of(value);
    let ghost tree = node_tree(node);
    match node {
        Node::Null => Json::Null,
        Node::Bool(b) => Json::Bool(b),
        Node::Unsigned(n) => Json::Unsigned(n),
        Node::Negative(n) => Json::Negative(n),
        Node::OtherNumber => Json::OtherNumber,
        Node::Text(s) => Json::Text(s),
        Node::Array(items) => {
            let ghost values = items@;
            let mut out: Vec<Json> = Vec::new();
            for v in iter: items
                invariant
                    iter.seq() == values,
                    tree == value_tree(value),
                    tree == Tree::Array(values.map_values(|v: serde_json::Value| value_tree(v))),
                    out@.len() == iter.index(),
                    forall|i: int|
                        0 <= i < out@.len() ==> (#[trigger] out@[i])@ == value_tree(values[i]),
            {
                assert(tree->Array_0[iter.index() as int] == value_tree(v));
                out.push(json_of(v));
            }
            let json = Json::Array(out);
            assert(json@->Array_0 =~= tree->Array_0);
            json
        },
        Node::Object(members) => {
            let ghost values = members@;
            let mut out: Vec<(String, Json)> = Vec::new();
            for m in iter: members
                invariant
                    iter.seq() == values,
                    tree == value_tree(value),
                    tree == Tree::Object(
                        values.map_values(
                            |m: (String, serde_json::Value)| (m.0@, value_tree(m.1)),
                        ),
                    ),
                    out@.len() == iter.index(),
                    forall|i: int|
                        0 <= i < out@.len() ==> (#[trigger] out@[i]).0@ == values[i].0@
                            && out@[i].1@ == value_tree(values[i].1),
            {
                assert(tree->Object_0[iter.index() as int] == (m.0@, value_tree(m.1)));
                assert(decreases_to!(tree => tree->Object_0[iter.index() as int].1));
                out.push((m.0, json_of(m.1)));
            }
            let json = Json::Object(out);
            assert(json@->Object_0 =~= tree->Object_0);
            json
        },
    }
}

fn value_of(json: &Json) -> (value: serde_json::Value)
    requires
        json@.is_writable(),
    ensures
        value_tree(value) == json@,
    decreases json,
{
    match json {
        Json::Null => value_with(Node::Null),
        Json::Bool(b) => value_with(Node::Bool(*b)),
        Json::Unsigned(n) => value_with(Node::Unsigned(*n)),
        Json::Negative(n) => value_with(Node::Negative(*n)),
        Json::OtherNumber => value_with(Node::Null),
        Json::Text(s) => value_with(Node::Text(s.clone())),
        Json::Array(items) => {
            let mut out: Vec<serde_json::Value> = Vec::new();
            for i in 0..items.len()
                invariant
                    json@.is_writable(),
                    *json == Json::Array(*items),
                    out@.len() == i,
                    forall|k: int| 0 <= k < i ==> value_tree(#[trigger] out@[k]) == items@[k]@,
            {
                assert(json@->Array_0[i as int] == items@[i as int]@);
                out.push(value_of(&items[i]));
            }
            assert(json@->Array_0 =~= out@.map_values(|v: serde_json::Value| value_tree(v)));
            value_with(Node::Array(out))
        },
        Json::Object(members) => {
            let mut out: Vec<(String, serde_json::Value)> = Vec::new();
            for i in 0..members.len()
                invariant
                    json@.is_writable(),
                    *json == Json::Object(*members),
                    out@.len() == i,
                    forall|k: int|
                        0 <= k < i ==> (#[trigger] out@[k]).0@ == members@[k].0@ && value_tree(
                            out@[k].1,
                        ) == members@[k].1@,
            {
                assert(json@->Object_0[i as int] == (members@[i as int].0@, members@[i as int].1@));
                out.push((members[i].0.clone(), value_of(&members[i].1)));
            }
            assert(json@->Object_0 =~= out@.map_values(
                |m: (String, serde_json::Value)| (m.0@, value_tree(m.1)),
            ));
            value_with(Node::Object(out))
        },
    }
}

/// The compact text of a value. It takes one line, and reads back as the value.
pub fn json_text(json: &Json) -> (text: String)
    requires
        json@.is_writable(),
    ensures
        text@ == json_text_of(json@),
        !text@.contains('\n'),
        json@.nests_within(DEEPEST as nat) ==> json_parsed(encode_utf8(text@)) == Some(json@),
{
    let value = value_of(json);
    value_text(&value)
}

/// Reads a JSON text; `None` where it is none.
pub fn parse_json(bytes: &[u8]) -> (json: Option<Json>)
    ensures
        match json {
            Some(j) => json_parsed(bytes@) == Some(j@),
            None => json_parsed(bytes@) is None,
        },
{
    match value_from_slice(bytes) {
        Ok(value) => Some(json_of(value)),
        Err(_) => None,
    }
}

impl Json {
    /// The first member of an object under `name`.
    pub fn get(&self, name: &str) -> (member: Option<&Json>)
        ensures
            match member {
                Some(m) => self@.get(name@) == Some(m@),
                None => self@.get(name@) is None,
            },
    {
        match self {
            Json::Object(members) => {
                let ghost listed = self@->Object_0;
                for i in 0..members.len()
                    invariant
                        *self == Json::Object(*members),
                        listed == self@->Object_0,
                        member_from(listed, name@, 0) == member_from(listed, name@, i as int),
                {
                    assert(listed[i as int] == (members@[i as int].0@, members@[i as int].1@));
                    if same_text(members[i].0.as_str(), name) {
                        return Some(&members[i].1);
                    }
                }
                None
            },
            _ => None,
        }
    }

    /// The value of the first member of an object.
    pub fn first_value(&self) -> (value: Option<&Json>)
        ensures
            match value {
                Some(v) => self@.first_value() == Some(v@),
                None => self@.first_value() is None,
            },
    {
        match self {
            Json::Object(members) => if members.len() > 0 {
                Some(&members[0].1)
            } else {
                None
            },
            _ => None,
        }
    }

    /// The items of an array.
    pub fn as_array(&self) -> (items: Option<&Vec<Json>>)
        ensures
            match items {
                Some(list) => self@ == Tree::Array(list@.map_values(|j: Json| j@)),
                None => self@ !is Array,
            },
    {
        match self {
            Json::Array(items) => {
                assert(self@->Array_0 =~= items@.map_values(|j: Json| j@));
                Some(items)
            },
            _ => None,
        }
    }

    /// An unsigned number.
    pub fn as_u64(&self) -> (n: Option<u64>)
        ensures
            n == match self@ {
                Tree::Unsigned(n) => Some(n),
                _ => None,
            },
    {
        match self {
            Json::Unsigned(n) => Some(*n),
            _ => None,
        }
    }

    /// A text.
    pub fn as_str(&self) -> (text: Option<&str>)
        ensures
            match text {
                Some(t) => self@ == Tree::Text(t@),
                None => self@ !is Text,
            },
    {
        match self {
            Json::Text(s) => Some(s.as_str()),
            _ => None,
        }
    }
}

/// Fields as an object of texts, in the order of their names.
pub fn fields_json(fields: &FieldMap) -> (json: Json)
    ensures
        json@ == fields_tree(fields@),
        json@.is_writable(),
        json@.nests_within(1),
        fields@.dom().finite(),
{
    let entries = fields.entries();
    let mut members: Vec<(String, Json)> = Vec::new();
    for i in 0..entries.len()
        invariant
            members@.len() == i,
            forall|k: int|
                0 <= k < i ==> (#[trigger] members@[k]).0@ == entries@[k].0@ && members@[k].1@
                    == Tree::Text(entries@[k].1@),
    {
        members.push((entries[i].0.clone(), Json::Text(entries[i].1.clone())));
    }
    let json = Json::Object(members);
    proof {
        reveal_with_fuel(Tree::is_writable, 2);
        reveal_with_fuel(Tree::nests_within, 2);
        let listed = json@->Object_0;
        assert(listed =~= fields_tree(fields@)->Object_0);
        assert(lists_in_order(in_order(fields@.dom()), fields@.dom()));
        assert forall|i: int, j: int| 0 <= i < j < listed.len() implies name_before(
            (#[trigger] listed[i]).0,
            (#[trigger] listed[j]).0,
        ) by {
            let names = in_order(fields@.dom());
            assert(listed[i].0 == names[i]);
            assert(listed[j].0 == names[j]);
        }
    }
    json
}

/// A member is the first that is listed under its name, and there is none where no
/// member has that name, or where the value is no object.
pub proof fn law_first_member_counts(members: Seq<(Seq<char>, Tree)>, name: Seq<char>, i: int)
    requires
        0 <= i <= members.len(),
        forall|k: int| 0 <= k < i ==> (#[trigger] members[k]).0 != name,
        i < members.len() ==> members[i].0 == name,
    ensures
        i < members.len() ==> Tree::Object(members).get(name) == Some(members[i].1),
        i == members.len() ==> Tree::Object(members).get(name) is None,
{
    lemma_member_from(members, name, 0, i);
}

proof fn lemma_member_from(members: Seq<(Seq<char>, Tree)>, name: Seq<char>, from: int, i: int)
    requires
        0 <= from <= i <= members.len(),
        forall|k: int| from <= k < i ==> (#[trigger] members[k]).0 != name,
        i < members.len() ==> members[i].0 == name,
    ensures
        member_from(members, name, from) == if i < members.len() {
            Some(members[i].1)
        } else {
            None
        },
    decreases i - from,
{
    if from < i {
        assert(members[from].0 != name);
        lemma_member_from(members, name, from + 1, i);
    }
}

/// Every field is found in the object of the fields, as a text under its name, and
/// nothing else is.
pub proof fn law_every_field_is_found(fields: Fields, name: Seq<char>)
    requires
        fields.dom().finite(),
    ensures
        fields.contains_key(name) ==> fields_tree(fields).get(name) == Some(
            Tree::Text(fields[name]),
        ),
        !fields.contains_key(name) ==> fields_tree(fields).get(name) is None,
{
    let names = in_order(fields.dom());
    let members = fields_tree(fields)->Object_0;
    lemma_finite_set_has_an_order(fields.dom());
    assert(lists_in_order(names, fields.dom()));
    assert(names.contains(name) <==> fields.dom().contains(name));
    if fields.contains_key(name) {
        let i = choose|i: int| 0 <= i < names.len() && names[i] == name;
        assert forall|k: int| 0 <= k < i implies (#[trigger] members[k]).0 != name by {
            assert(members[k].0 == names[k]);
            assert(name_before(names[k], names[i]));
            lemma_name_before_is_strict(name, name);
        }
        assert(members[i].0 == name);
        law_first_member_counts(members, name, i);
    } else {
        assert forall|k: int| 0 <= k < members.len() implies (#[trigger] members[k]).0 != name by {
            assert(members[k].0 == names[k]);
            assert(names.contains(names[k]));
        }
        law_first_member_counts(members, name, members.len() as int);
    }
}

}
