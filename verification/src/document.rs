//! The ids of documents: one for each row, spelled from its table and its key.

use crate::event::Fields;
use crate::fields::{
    in_order, lemma_finite_set_has_an_order, lemma_name_before_is_strict, lemma_order_is_unique,
    lists_in_order, name_before, FieldMap,
};
use crate::text::{decimal_text, digit_value, lemma_radix_text_reads_back, to_decimal};
use vstd::prelude::*;
use vstd::string::*;

verus! {

/// A character of a name or a value where separators are spelled out: `:` and `=`,
/// and the `%` that marks them.
pub open spec fn escaped_char(c: char) -> Seq<char> {
    if c == '%' {
        seq!['%', '2', '5']
    } else if c == ':' {
        seq!['%', '3', 'A']
    } else if c == '=' {
        seq!['%', '3', 'D']
    } else {
        seq![c]
    }
}

/// A name or a value with its separators spelled out.
pub open spec fn escaped(text: Seq<char>) -> Seq<char>
    decreases text.len(),
{
    if text.len() == 0 {
        Seq::empty()
    } else {
        escaped(text.drop_last()) + escaped_char(text.last())
    }
}

/// A name or a value as it stands in an id, with its separators spelled out where
/// the id is marked.
pub open spec fn spelled(text: Seq<char>, marked: bool) -> Seq<char> {
    if marked {
        escaped(text)
    } else {
        text
    }
}

/// A column of a key with its value.
pub open spec fn pair_text(name: Seq<char>, value: Seq<char>, marked: bool) -> Seq<char> {
    spelled(name, marked).push('=') + spelled(value, marked)
}

/// The columns of a key in the order of `names`, with a colon between each two.
pub open spec fn key_text(names: Seq<Seq<char>>, key: Fields, marked: bool) -> Seq<char>
    decreases names.len(),
{
    if names.len() == 0 {
        Seq::empty()
    } else if names.len() == 1 {
        pair_text(names[0], key[names[0]], marked)
    } else {
        key_text(names.drop_last(), key, marked).push(':') + pair_text(
            names.last(),
            key[names.last()],
            marked,
        )
    }
}

/// The plain id of a row: its table, then its key columns in the order of their
/// names, all as they stand.
pub open spec fn plain_id_of(table: Seq<char>, key: Fields) -> Seq<char> {
    table.push(':') + key_text(in_order(key.dom()), key, false)
}

/// What a marked id ends in: the number of characters of its table.
pub open spec fn mark_of(table: Seq<char>) -> Seq<char> {
    seq!['='] + decimal_text(table.len())
}

/// The marked id of a row: its table as it stands, its key columns with their
/// separators spelled out, and the mark.
pub open spec fn marked_id_of(table: Seq<char>, key: Fields) -> Seq<char> {
    (table.push(':') + key_text(in_order(key.dom()), key, true)).push(':') + mark_of(table)
}

/// Whether an equals sign stands somewhere behind a colon.
pub open spec fn equals_behind_colon(text: Seq<char>) -> bool {
    exists|i: int, j: int|
        0 <= i < j < text.len() && #[trigger] text[i] == ':' && #[trigger] text[j] == '='
}

/// Whether a column can be told from its neighbours as it stands.
pub open spec fn is_plain_pair(name: Seq<char>, value: Seq<char>) -> bool {
    !name.contains(':') && !name.contains('=') && !equals_behind_colon(value)
}

/// Whether the parts of a row can be told apart in its plain id.
pub open spec fn is_plain(table: Seq<char>, key: Fields) -> bool {
    if key.dom() == Set::<Seq<char>>::empty() {
        !equals_behind_colon(table)
    } else {
        !table.contains(':') && forall|name: Seq<char>| #[trigger]
            key.contains_key(name) ==> is_plain_pair(name, key[name])
    }
}

/// The id of a row's document: the plain id where the parts of the row can be told
/// apart in it, and the marked id otherwise.
pub open spec fn document_id_of(table: Seq<char>, key: Fields) -> Seq<char> {
    if is_plain(table, key) {
        plain_id_of(table, key)
    } else {
        marked_id_of(table, key)
    }
}

fn has_char(text: &str, wanted: char) -> (found: bool)
    ensures
        found == text@.contains(wanted),
{
    for c in iter: text.chars()
        invariant
            iter.seq() == text@,
            forall|k: int| 0 <= k < iter.index() ==> text@[k] != wanted,
    {
        if c == wanted {
            assert(text@[iter.index() as int] == wanted);
            return true;
        }
    }
    false
}

fn has_equals_behind_colon(text: &str) -> (found: bool)
    ensures
        found == equals_behind_colon(text@),
{
    let mut colon = false;
    let ghost mut at: int = 0;
    for c in iter: text.chars()
        invariant
            iter.seq() == text@,
            colon ==> 0 <= at < iter.index() && text@[at] == ':',
            !colon ==> forall|k: int| 0 <= k < iter.index() ==> text@[k] != ':',
            forall|i: int, j: int|
                0 <= i < j < iter.index() ==> !(#[trigger] text@[i] == ':' && #[trigger] text@[j]
                    == '='),
    {
        if c == '=' && colon {
            assert(text@[at] == ':' && text@[iter.index() as int] == '=');
            return true;
        }
        if c == ':' {
            proof {
                if !colon {
                    at = iter.index() as int;
                }
            }
            colon = true;
        }
    }
    false
}

fn push_escaped(out: &mut String, text: &str)
    ensures
        final(out)@ == old(out)@ + escaped(text@),
{
    let ghost start = out@;
    assert(out@ =~= start + escaped(text@.take(0)));
    for c in iter: text.chars()
        invariant
            iter.seq() == text@,
            out@ == start + escaped(text@.take(iter.index() as int)),
    {
        let ghost before = out@;
        let ghost longer = text@.take(iter.index() + 1);
        assert(longer.drop_last() =~= text@.take(iter.index() as int));
        if c == '%' {
            out.push('%');
            out.push('2');
            out.push('5');
        } else if c == ':' {
            out.push('%');
            out.push('3');
            out.push('A');
        } else if c == '=' {
            out.push('%');
            out.push('3');
            out.push('D');
        } else {
            out.push(c);
        }
        assert(out@ =~= before + escaped_char(c));
        assert(out@ =~= start + escaped(longer));
    }
    assert(text@.take(text@.len() as int) =~= text@);
}

fn push_spelled(out: &mut String, text: &str, marked: bool)
    ensures
        final(out)@ == old(out)@ + spelled(text@, marked),
{
    if marked {
        push_escaped(out, text);
    } else {
        out.append(text);
    }
}

/// Whether the parts of a row can be told apart in its plain id.
fn can_stay_plain(table: &str, key: &FieldMap) -> (plain: bool)
    ensures
        plain == is_plain(table@, key@),
{
    let pairs = key.entries();
    let ghost names = in_order(key@.dom());
    if pairs.len() == 0 {
        assert forall|name: Seq<char>| !key@.dom().contains(name) by {
            assert(names.contains(name) <==> key@.dom().contains(name));
        }
        assert(key@.dom() =~= Set::<Seq<char>>::empty());
        return !has_equals_behind_colon(table);
    }
    assert(names.contains(names[0]));
    assert(key@.dom().contains(names[0]));
    if has_char(table, ':') {
        return false;
    }
    for i in 0..pairs.len()
        invariant
            names == in_order(key@.dom()),
            key@.dom() != Set::<Seq<char>>::empty(),
            lists_in_order(names, key@.dom()),
            pairs@.len() == names.len(),
            forall|k: int|
                0 <= k < pairs@.len() ==> (#[trigger] pairs@[k]).0@ == names[k] && pairs@[k].1@
                    == key@[pairs@[k].0@],
            forall|k: int| 0 <= k < i ==> is_plain_pair(#[trigger] names[k], key@[names[k]]),
    {
        let name = pairs[i].0.as_str();
        let value = pairs[i].1.as_str();
        assert(names.contains(names[i as int]));
        assert(key@.dom().contains(name@));
        assert(key@.contains_key(name@));
        if has_char(name, ':') || has_char(name, '=') || has_equals_behind_colon(value) {
            return false;
        }
    }
    assert forall|name: Seq<char>| #[trigger] key@.contains_key(name) implies is_plain_pair(
        name,
        key@[name],
    ) by {
        assert(key@.dom().contains(name));
        assert(names.contains(name));
        let k = choose|k: int| 0 <= k < names.len() && names[k] == name;
        assert(is_plain_pair(names[k], key@[names[k]]));
    }
    true
}

/// The id of a row's document.
pub fn document_id(table: &str, key: &FieldMap) -> (id: String)
    ensures
        id@ == document_id_of(table@, key@),
        key@.dom().finite(),
{
    let marked = !can_stay_plain(table, key);
    let pairs = key.entries();
    let ghost names = in_order(key@.dom());
    let mut id = table.to_owned();
    id.push(':');
    let ghost head = id@;
    assert(head =~= head + key_text(names.take(0), key@, marked));
    for i in 0..pairs.len()
        invariant
            names == in_order(key@.dom()),
            pairs@.len() == names.len(),
            forall|k: int|
                0 <= k < pairs@.len() ==> (#[trigger] pairs@[k]).0@ == names[k] && pairs@[k].1@
                    == key@[pairs@[k].0@],
            id@ == head + key_text(names.take(i as int), key@, marked),
    {
        let ghost listed = names.take(i + 1);
        assert(listed.drop_last() =~= names.take(i as int));
        if i > 0 {
            id.push(':');
        }
        push_spelled(&mut id, pairs[i].0.as_str(), marked);
        id.push('=');
        push_spelled(&mut id, pairs[i].1.as_str(), marked);
        assert(id@ =~= head + key_text(listed, key@, marked));
    }
    assert(names.take(pairs@.len() as int) =~= names);
    if marked {
        let ghost body = id@;
        id.push(':');
        id.push('=');
        let length = to_decimal(table.unicode_len() as u64);
        id.append(length.as_str());
        assert(id@ =~= body.push(':') + mark_of(table@));
    }
    id
}

/// A text that `separator` ends is read back from what follows it, as far as the
/// text is free of the separator.
proof fn lemma_split_at_first(
    x: Seq<char>,
    rest_x: Seq<char>,
    y: Seq<char>,
    rest_y: Seq<char>,
    separator: char,
)
    requires
        x.push(separator) + rest_x == y.push(separator) + rest_y,
        !x.contains(separator),
        !y.contains(separator),
    ensures
        x == y,
        rest_x == rest_y,
{
    let whole = x.push(separator) + rest_x;
    let other = y.push(separator) + rest_y;
    assert(whole[x.len() as int] == separator);
    assert(other[y.len() as int] == separator);
    if x.len() < y.len() {
        assert(other[x.len() as int] == y[x.len() as int]);
        assert(y.contains(separator));
    } else if y.len() < x.len() {
        assert(whole[y.len() as int] == x[y.len() as int]);
        assert(x.contains(separator));
    }
    assert(x.len() == y.len());
    assert forall|i: int| 0 <= i < x.len() implies x[i] == y[i] by {
        assert(whole[i] == x[i]);
        assert(other[i] == y[i]);
    }
    assert(x =~= y);
    assert(whole.skip((x.len() + 1) as int) =~= rest_x);
    assert(other.skip((x.len() + 1) as int) =~= rest_y);
}

/// A text that follows `separator` is read back from what comes before it, as far
/// as the text is free of the separator.
proof fn lemma_split_at_last(
    head_x: Seq<char>,
    x: Seq<char>,
    head_y: Seq<char>,
    y: Seq<char>,
    separator: char,
)
    requires
        head_x.push(separator) + x == head_y.push(separator) + y,
        !x.contains(separator),
        !y.contains(separator),
    ensures
        x == y,
        head_x == head_y,
{
    let whole = head_x.push(separator) + x;
    let other = head_y.push(separator) + y;
    assert(whole.len() == head_x.len() + 1 + x.len());
    assert(whole[head_x.len() as int] == separator);
    assert(other[head_y.len() as int] == separator);
    if head_x.len() < head_y.len() {
        let i = head_y.len() - head_x.len() - 1;
        assert(whole[head_y.len() as int] == x[i]);
        assert(x.contains(separator));
    } else if head_y.len() < head_x.len() {
        let i = head_x.len() - head_y.len() - 1;
        assert(other[head_x.len() as int] == y[i]);
        assert(y.contains(separator));
    }
    assert(head_x.len() == head_y.len());
    assert(whole.take(head_x.len() as int) =~= head_x);
    assert(other.take(head_x.len() as int) =~= head_y);
    assert(whole.skip((head_x.len() + 1) as int) =~= x);
    assert(other.skip((head_x.len() + 1) as int) =~= y);
}

/// A text that holds a character has a last place of it.
proof fn lemma_last_place(text: Seq<char>, c: char) -> (at: int)
    requires
        text.contains(c),
    ensures
        0 <= at < text.len(),
        text[at] == c,
        !text.skip(at + 1).contains(c),
        text == text.take(at).push(c) + text.skip(at + 1),
    decreases text.len(),
{
    let at = if text.last() == c {
        text.len() - 1
    } else {
        let head = text.drop_last();
        let i = choose|i: int| 0 <= i < text.len() && text[i] == c;
        assert(head[i] == c);
        let at = lemma_last_place(head, c);
        let tail = text.skip(at + 1);
        let head_tail = head.skip(at + 1);
        assert(tail =~= head_tail.push(text.last()));
        assert forall|k: int| 0 <= k < tail.len() implies #[trigger] tail[k] != c by {
            if k < head_tail.len() {
                assert(head_tail.contains(head_tail[k]));
            }
        }
        at
    };
    assert(text =~= text.take(at).push(c) + text.skip(at + 1));
    at
}

/// No separator stands in an escaped text.
proof fn lemma_escaped_has_no_separator(text: Seq<char>)
    ensures
        !escaped(text).contains(':'),
        !escaped(text).contains('='),
    decreases text.len(),
{
    if text.len() > 0 {
        let head = escaped(text.drop_last());
        let code = escaped_char(text.last());
        lemma_escaped_has_no_separator(text.drop_last());
        assert forall|i: int| 0 <= i < escaped(text).len() implies escaped(text)[i] != ':'
            && escaped(text)[i] != '=' by {
            if i < head.len() {
                assert(escaped(text)[i] == head[i]);
                assert(head.contains(head[i]));
            } else {
                assert(escaped(text)[i] == code[i - head.len()]);
            }
        }
    }
}

/// The first character of a text is read back from the front of its escaped form.
proof fn lemma_escaped_starts_with_its_first(text: Seq<char>)
    requires
        text.len() > 0,
    ensures
        escaped(text) == escaped_char(text[0]) + escaped(text.skip(1)),
    decreases text.len(),
{
    if text.len() == 1 {
        assert(text.drop_last() =~= Seq::<char>::empty());
        assert(text.skip(1) =~= Seq::<char>::empty());
        assert(escaped(text.drop_last()) =~= Seq::<char>::empty());
        assert(escaped(text.skip(1)) =~= Seq::<char>::empty());
        assert(escaped(text) =~= escaped_char(text[0]) + escaped(text.skip(1)));
    } else {
        lemma_escaped_starts_with_its_first(text.drop_last());
        assert(text.drop_last().skip(1) =~= text.skip(1).drop_last());
        assert(escaped(text) =~= escaped_char(text[0]) + escaped(text.skip(1)));
    }
}

/// A text is read back from its escaped form.
proof fn lemma_escaped_reads_back(text: Seq<char>, other: Seq<char>)
    requires
        escaped(text) == escaped(other),
    ensures
        text == other,
    decreases text.len(),
{
    if text.len() > 0 {
        lemma_escaped_starts_with_its_first(text);
    }
    if other.len() > 0 {
        lemma_escaped_starts_with_its_first(other);
    }
    if text.len() == 0 || other.len() == 0 {
        assert(text.len() > 0 ==> escaped(text).len() > 0);
        assert(other.len() > 0 ==> escaped(other).len() > 0);
        assert(text =~= other);
    } else {
        let whole = escaped(text);
        let code = escaped_char(text[0]);
        let other_code = escaped_char(other[0]);
        assert(whole[0] == code[0]);
        assert(whole[0] == other_code[0]);
        if whole[0] == '%' {
            assert(whole[1] == code[1] && whole[2] == code[2]);
            assert(whole[1] == other_code[1] && whole[2] == other_code[2]);
        }
        assert(text[0] == other[0]);
        assert(whole.skip(code.len() as int) =~= escaped(text.skip(1)));
        assert(whole.skip(code.len() as int) =~= escaped(other.skip(1)));
        lemma_escaped_reads_back(text.skip(1), other.skip(1));
        assert(text =~= seq![text[0]] + text.skip(1));
        assert(other =~= seq![other[0]] + other.skip(1));
    }
}

proof fn lemma_marked_pair_has_no_colon(name: Seq<char>, value: Seq<char>)
    ensures
        !pair_text(name, value, true).contains(':'),
        pair_text(name, value, true).len() > 0,
{
    let pair = pair_text(name, value, true);
    let n = escaped(name);
    let v = escaped(value);
    lemma_escaped_has_no_separator(name);
    lemma_escaped_has_no_separator(value);
    assert forall|i: int| 0 <= i < pair.len() implies pair[i] != ':' by {
        if i < n.len() {
            assert(pair[i] == n[i]);
            assert(n.contains(n[i]));
        } else if i == n.len() {
            assert(pair[i] == '=');
        } else {
            assert(pair[i] == v[i - n.len() - 1]);
            assert(v.contains(v[i - n.len() - 1]));
        }
    }
}

proof fn lemma_marked_pair_reads_back(
    name: Seq<char>,
    value: Seq<char>,
    other_name: Seq<char>,
    other_value: Seq<char>,
)
    requires
        pair_text(name, value, true) == pair_text(other_name, other_value, true),
    ensures
        name == other_name,
        value == other_value,
{
    lemma_escaped_has_no_separator(name);
    lemma_escaped_has_no_separator(other_name);
    lemma_split_at_first(
        escaped(name),
        escaped(value),
        escaped(other_name),
        escaped(other_value),
        '=',
    );
    lemma_escaped_reads_back(name, other_name);
    lemma_escaped_reads_back(value, other_value);
}

proof fn lemma_marked_key_text_reads_back(
    names: Seq<Seq<char>>,
    key: Fields,
    others: Seq<Seq<char>>,
    other: Fields,
)
    requires
        key_text(names, key, true) == key_text(others, other, true),
    ensures
        names == others,
        forall|i: int| 0 <= i < names.len() ==> key[#[trigger] names[i]] == other[names[i]],
    decreases names.len(),
{
    if names.len() > 0 {
        lemma_marked_pair_has_no_colon(names.last(), key[names.last()]);
    }
    if others.len() > 0 {
        lemma_marked_pair_has_no_colon(others.last(), other[others.last()]);
    }
    if names.len() == 0 || others.len() == 0 {
        assert(names.len() == 0 <==> key_text(names, key, true).len() == 0);
        assert(others.len() == 0 <==> key_text(others, other, true).len() == 0);
        assert(names =~= others);
    } else if names.len() == 1 || others.len() == 1 {
        if names.len() > 1 {
            let head = key_text(names.drop_last(), key, true);
            assert(key_text(names, key, true)[head.len() as int] == ':');
            assert(key_text(others, other, true).contains(':'));
        }
        if others.len() > 1 {
            let head = key_text(others.drop_last(), other, true);
            assert(key_text(others, other, true)[head.len() as int] == ':');
            assert(key_text(names, key, true).contains(':'));
        }
        lemma_marked_pair_reads_back(names[0], key[names[0]], others[0], other[others[0]]);
        assert(names =~= others);
    } else {
        lemma_split_at_last(
            key_text(names.drop_last(), key, true),
            pair_text(names.last(), key[names.last()], true),
            key_text(others.drop_last(), other, true),
            pair_text(others.last(), other[others.last()], true),
            ':',
        );
        lemma_marked_pair_reads_back(
            names.last(),
            key[names.last()],
            others.last(),
            other[others.last()],
        );
        lemma_marked_key_text_reads_back(names.drop_last(), key, others.drop_last(), other);
        lemma_lists_agree(names, key, others, other);
    }
}

/// Lists that agree up to their last names, and there too, agree.
proof fn lemma_lists_agree(
    names: Seq<Seq<char>>,
    key: Fields,
    others: Seq<Seq<char>>,
    other: Fields,
)
    requires
        names.len() > 0,
        others.len() > 0,
        names.drop_last() == others.drop_last(),
        names.last() == others.last(),
        key[names.last()] == other[names.last()],
        forall|i: int|
            0 <= i < names.drop_last().len() ==> key[#[trigger] names.drop_last()[i]]
                == other[names.drop_last()[i]],
    ensures
        names == others,
        forall|i: int| 0 <= i < names.len() ==> key[#[trigger] names[i]] == other[names[i]],
{
    assert(names =~= names.drop_last().push(names.last()));
    assert(others =~= others.drop_last().push(others.last()));
    assert forall|i: int| 0 <= i < names.len() implies key[#[trigger] names[i]]
        == other[names[i]] by {
        if i < names.len() - 1 {
            assert(names.drop_last()[i] == names[i]);
        }
    }
}

/// Keys with the same columns in order, and the same value under each, are one.
proof fn lemma_same_key(key: Fields, other: Fields)
    requires
        key.dom().finite(),
        other.dom().finite(),
        in_order(key.dom()) == in_order(other.dom()),
        forall|i: int|
            0 <= i < in_order(key.dom()).len() ==> key[#[trigger] in_order(key.dom())[i]]
                == other[in_order(key.dom())[i]],
    ensures
        key == other,
{
    let names = in_order(key.dom());
    lemma_finite_set_has_an_order(key.dom());
    lemma_finite_set_has_an_order(other.dom());
    assert forall|name: Seq<char>| #[trigger] key.contains_key(name) implies key[name]
        == other[name] by {
        assert(key.dom().contains(name));
        assert(names.contains(name));
        let i = choose|i: int| 0 <= i < names.len() && names[i] == name;
        assert(key[names[i]] == other[names[i]]);
    }
    assert forall|name: Seq<char>| key.dom().contains(name) == other.dom().contains(name) by {
        assert(names.contains(name) <==> key.dom().contains(name));
        assert(names.contains(name) <==> other.dom().contains(name));
    }
    assert(key =~= other);
}

/// A mark holds no colon.
proof fn lemma_mark_has_no_colon(table: Seq<char>)
    ensures
        !mark_of(table).contains(':'),
{
    let digits = decimal_text(table.len());
    lemma_radix_text_reads_back(table.len(), 10);
    assert forall|i: int| 0 <= i < mark_of(table).len() implies mark_of(table)[i] != ':' by {
        if i > 0 {
            assert(mark_of(table)[i] == digits[i - 1]);
            assert(digit_value(digits[i - 1], 10) is Some);
        }
    }
}

/// A row is read back from its marked id.
proof fn lemma_marked_id_reads_back(
    table: Seq<char>,
    key: Fields,
    other_table: Seq<char>,
    other_key: Fields,
)
    requires
        key.dom().finite(),
        other_key.dom().finite(),
        marked_id_of(table, key) == marked_id_of(other_table, other_key),
    ensures
        table == other_table,
        key == other_key,
{
    let names = in_order(key.dom());
    let others = in_order(other_key.dom());
    let text = key_text(names, key, true);
    let other_text = key_text(others, other_key, true);
    let body = table.push(':') + text;
    let other_body = other_table.push(':') + other_text;
    lemma_mark_has_no_colon(table);
    lemma_mark_has_no_colon(other_table);
    lemma_split_at_last(body, mark_of(table), other_body, mark_of(other_table), ':');
    assert(mark_of(table).skip(1) =~= decimal_text(table.len()));
    assert(mark_of(other_table).skip(1) =~= decimal_text(other_table.len()));
    lemma_radix_text_reads_back(table.len(), 10);
    lemma_radix_text_reads_back(other_table.len(), 10);
    assert(table.len() == other_table.len());
    assert(body.take(table.len() as int) =~= table);
    assert(other_body.take(table.len() as int) =~= other_table);
    assert(body.skip((table.len() + 1) as int) =~= text);
    assert(other_body.skip((table.len() + 1) as int) =~= other_text);
    lemma_marked_key_text_reads_back(names, key, others, other_key);
    lemma_same_key(key, other_key);
}

/// No pair that can be told as it stands ends in another pair behind a colon.
proof fn lemma_no_pair_behind_colon(
    name: Seq<char>,
    value: Seq<char>,
    head: Seq<char>,
    other_name: Seq<char>,
    other_value: Seq<char>,
)
    requires
        is_plain_pair(name, value),
    ensures
        pair_text(name, value, false) != head.push(':') + pair_text(other_name, other_value, false),
{
    if pair_text(name, value, false) == head.push(':') + pair_text(other_name, other_value, false) {
        let pair = pair_text(name, value, false);
        let p = head.len() as int;
        let q = p + 1 + other_name.len();
        assert(pair.len() == q + 1 + other_value.len());
        assert(pair.len() == name.len() + 1 + value.len());
        assert(pair[p] == ':');
        assert((head.push(':') + pair_text(other_name, other_value, false))[q] == '=');
        assert(pair[q] == '=');
        let n = name.len() as int;
        if p < n {
            assert(name[p] == ':');
            assert(name.contains(':'));
        } else if p > n {
            assert(pair == name.push('=') + value);
            assert((name.push('=') + value)[p] == value[p - n - 1]);
            assert((name.push('=') + value)[q] == value[q - n - 1]);
            assert(equals_behind_colon(value));
        }
    }
}

proof fn lemma_plain_key_text_reads_back(
    names: Seq<Seq<char>>,
    key: Fields,
    others: Seq<Seq<char>>,
    other: Fields,
)
    requires
        names.len() > 0,
        others.len() > 0,
        forall|i: int| 0 <= i < names.len() ==> is_plain_pair(#[trigger] names[i], key[names[i]]),
        forall|i: int|
            0 <= i < others.len() ==> is_plain_pair(#[trigger] others[i], other[others[i]]),
        key_text(names, key, false) == key_text(others, other, false),
    ensures
        names == others,
        forall|i: int| 0 <= i < names.len() ==> key[#[trigger] names[i]] == other[names[i]],
    decreases names.len(),
{
    let (n, v) = (names.last(), key[names.last()]);
    let (m, w) = (others.last(), other[others.last()]);
    let whole = key_text(names, key, false);
    let pair = pair_text(n, v, false);
    let other_pair = pair_text(m, w, false);
    assert(is_plain_pair(names[names.len() - 1], v));
    assert(is_plain_pair(others[others.len() - 1], w));
    let head = key_text(names.drop_last(), key, false);
    let other_head = key_text(others.drop_last(), other, false);
    if names.len() == 1 && others.len() == 1 {
        lemma_split_at_first(n, v, m, w, '=');
        assert(names =~= others);
    } else if names.len() == 1 {
        lemma_no_pair_behind_colon(n, v, other_head, m, w);
    } else if others.len() == 1 {
        lemma_no_pair_behind_colon(m, w, head, n, v);
    } else {
        assert(whole == head.push(':') + pair);
        assert(whole == other_head.push(':') + other_pair);
        let (a, b) = (head.len() as int, other_head.len() as int);
        if a < b {
            let between = whole.subrange(a + 1, b);
            assert(pair =~= whole.skip(a + 1));
            assert(pair =~= between.push(':') + other_pair);
            lemma_no_pair_behind_colon(n, v, between, m, w);
        } else if b < a {
            let between = whole.subrange(b + 1, a);
            assert(other_pair =~= whole.skip(b + 1));
            assert(other_pair =~= between.push(':') + pair);
            lemma_no_pair_behind_colon(m, w, between, n, v);
        }
        assert(head =~= whole.take(a));
        assert(other_head =~= whole.take(a));
        assert(pair =~= whole.skip(a + 1));
        assert(other_pair =~= whole.skip(a + 1));
        lemma_split_at_first(n, v, m, w, '=');
        assert forall|i: int| 0 <= i < names.drop_last().len() implies is_plain_pair(
            #[trigger] names.drop_last()[i],
            key[names.drop_last()[i]],
        ) by {
            assert(names.drop_last()[i] == names[i]);
        }
        assert forall|i: int| 0 <= i < others.drop_last().len() implies is_plain_pair(
            #[trigger] others.drop_last()[i],
            other[others.drop_last()[i]],
        ) by {
            assert(others.drop_last()[i] == others[i]);
        }
        lemma_plain_key_text_reads_back(names.drop_last(), key, others.drop_last(), other);
        lemma_lists_agree(names, key, others, other);
    }
}

/// What the order of a key lists: its columns, each of them plain where the row is,
/// and at least one where it has one.
proof fn lemma_listed_columns(table: Seq<char>, key: Fields)
    requires
        key.dom().finite(),
    ensures
        lists_in_order(in_order(key.dom()), key.dom()),
        in_order(key.dom()).len() == 0 <==> key.dom() == Set::<Seq<char>>::empty(),
        forall|i: int|
            0 <= i < in_order(key.dom()).len() ==> key.contains_key(
                #[trigger] in_order(key.dom())[i],
            ),
        is_plain(table, key) ==> forall|i: int|
            0 <= i < in_order(key.dom()).len() ==> is_plain_pair(
                #[trigger] in_order(key.dom())[i],
                key[in_order(key.dom())[i]],
            ),
{
    let names = in_order(key.dom());
    lemma_finite_set_has_an_order(key.dom());
    assert forall|i: int| 0 <= i < names.len() implies key.contains_key(#[trigger] names[i]) by {
        assert(names.contains(names[i]));
        assert(key.dom().contains(names[i]));
    }
    if names.len() == 0 {
        assert forall|name: Seq<char>| !key.dom().contains(name) by {
            assert(names.contains(name) <==> key.dom().contains(name));
        }
        assert(key.dom() =~= Set::<Seq<char>>::empty());
    } else {
        assert(key.contains_key(names[0]));
        assert(key.dom().contains(names[0]));
    }
}

/// The first column of a key brings an equals sign.
proof fn lemma_key_text_has_equals(names: Seq<Seq<char>>, key: Fields)
    requires
        names.len() > 0,
    ensures
        key_text(names, key, false).contains('='),
{
    let pair = pair_text(names.last(), key[names.last()], false);
    let at = names.last().len() as int;
    assert(pair[at] == '=');
    let text = key_text(names, key, false);
    let before = text.len() - pair.len();
    assert(text[before + at] == pair[at]);
}

/// A row is read back from its plain id, where its parts can be told apart there.
proof fn lemma_plain_id_reads_back(
    table: Seq<char>,
    key: Fields,
    other_table: Seq<char>,
    other_key: Fields,
)
    requires
        key.dom().finite(),
        other_key.dom().finite(),
        is_plain(table, key),
        is_plain(other_table, other_key),
        plain_id_of(table, key) == plain_id_of(other_table, other_key),
    ensures
        table == other_table,
        key == other_key,
{
    let names = in_order(key.dom());
    let others = in_order(other_key.dom());
    let text = key_text(names, key, false);
    let other_text = key_text(others, other_key, false);
    lemma_listed_columns(table, key);
    lemma_listed_columns(other_table, other_key);
    if names.len() == 0 && others.len() == 0 {
        let id = plain_id_of(table, key);
        assert(id.drop_last() =~= table);
        assert(id.drop_last() =~= other_table);
        assert(key =~= other_key);
    } else if names.len() == 0 {
        lemma_bare_id_is_no_other(table, key, other_table, other_key);
    } else if others.len() == 0 {
        lemma_bare_id_is_no_other(other_table, other_key, table, key);
    } else {
        lemma_split_at_first(table, text, other_table, other_text, ':');
        lemma_plain_key_text_reads_back(names, key, others, other_key);
        lemma_same_key(key, other_key);
    }
}

/// The plain id of a row without key columns is not that of one with them.
proof fn lemma_bare_id_is_no_other(
    table: Seq<char>,
    key: Fields,
    other_table: Seq<char>,
    other_key: Fields,
)
    requires
        in_order(key.dom()).len() == 0,
        in_order(other_key.dom()).len() > 0,
        !equals_behind_colon(table),
    ensures
        plain_id_of(table, key) != plain_id_of(other_table, other_key),
{
    if plain_id_of(table, key) == plain_id_of(other_table, other_key) {
        let id = plain_id_of(table, key);
        let other = plain_id_of(other_table, other_key);
        let other_text = key_text(in_order(other_key.dom()), other_key, false);
        lemma_key_text_has_equals(in_order(other_key.dom()), other_key);
        let k = choose|k: int| 0 <= k < other_text.len() && other_text[k] == '=';
        let i = other_table.len() as int;
        let j = i + 1 + k;
        assert(id =~= table.push(':'));
        assert(other[i] == ':');
        assert(other[j] == '=');
        assert(table[i] == ':');
        assert(table[j] == '=');
    }
}

/// No plain id of a row whose parts can be told apart there is a marked id.
proof fn lemma_plain_id_is_not_marked(
    table: Seq<char>,
    key: Fields,
    other_table: Seq<char>,
    other_key: Fields,
)
    requires
        key.dom().finite(),
        is_plain(table, key),
    ensures
        plain_id_of(table, key) != marked_id_of(other_table, other_key),
{
    if plain_id_of(table, key) == marked_id_of(other_table, other_key) {
        let names = in_order(key.dom());
        let text = key_text(names, key, false);
        let id = plain_id_of(table, key);
        let body = other_table.push(':') + key_text(in_order(other_key.dom()), other_key, true);
        let mark = mark_of(other_table);
        lemma_mark_has_no_colon(other_table);
        lemma_listed_columns(table, key);
        assert(body[other_table.len() as int] == ':');
        assert(body.contains(':'));
        assert(mark[0] == '=');
        if names.len() == 0 {
            assert(id =~= table.push(':') + Seq::<char>::empty());
            lemma_split_at_last(table, Seq::empty(), body, mark, ':');
        } else {
            let (n, v) = (names.last(), key[names.last()]);
            let pair = pair_text(n, v, false);
            assert(is_plain_pair(names[names.len() - 1], v));
            let head = if names.len() == 1 {
                table
            } else {
                table.push(':') + key_text(names.drop_last(), key, false)
            };
            assert(id =~= head.push(':') + pair);
            if v.contains(':') {
                let at = lemma_last_place(v, ':');
                let tail = v.skip(at + 1);
                let front = head.push(':') + n.push('=') + v.take(at);
                assert(id =~= front.push(':') + tail);
                lemma_split_at_last(front, tail, body, mark, ':');
                assert(v[at + 1] == tail[0]);
                assert(equals_behind_colon(v));
            } else {
                assert forall|i: int| 0 <= i < pair.len() implies pair[i] != ':' by {
                    if i < n.len() {
                        assert(pair[i] == n[i]);
                        assert(n.contains(n[i]));
                    } else if i > n.len() {
                        assert(pair[i] == v[i - n.len() - 1]);
                        assert(v.contains(v[i - n.len() - 1]));
                    }
                }
                lemma_split_at_last(head, pair, body, mark, ':');
                assert(pair[0] == '=');
                if n.len() > 0 {
                    assert(n[0] == '=');
                    assert(n.contains('='));
                } else if names.len() > 1 {
                    assert(name_before(names[0], names[names.len() - 1]));
                    lemma_nothing_before_the_empty_name(names[0], n);
                }
            }
        }
    }
}

proof fn lemma_nothing_before_the_empty_name(name: Seq<char>, empty: Seq<char>)
    requires
        empty.len() == 0,
    ensures
        !name_before(name, empty),
{
    assert(vstd::utf8::encode_utf8(empty).len() == 0);
}

/// A document id is unique: two rows have one id exactly where they are rows of one
/// table with one key, whatever characters their names and values hold.
pub proof fn law_document_id_is_unique(
    table: Seq<char>,
    key: Fields,
    other_table: Seq<char>,
    other_key: Fields,
)
    requires
        key.dom().finite(),
        other_key.dom().finite(),
    ensures
        document_id_of(table, key) == document_id_of(other_table, other_key) <==> table
            == other_table && key == other_key,
{
    if document_id_of(table, key) == document_id_of(other_table, other_key) {
        let plain = is_plain(table, key);
        let other_plain = is_plain(other_table, other_key);
        if plain && other_plain {
            lemma_plain_id_reads_back(table, key, other_table, other_key);
        } else if plain {
            lemma_plain_id_is_not_marked(table, key, other_table, other_key);
        } else if other_plain {
            lemma_plain_id_is_not_marked(other_table, other_key, table, key);
        } else {
            lemma_marked_id_reads_back(table, key, other_table, other_key);
        }
    }
}

/// A document id starts with the table as it stands and a colon.
pub proof fn law_document_id_starts_with_table(table: Seq<char>, key: Fields)
    ensures
        document_id_of(table, key).len() > table.len(),
        document_id_of(table, key).take((table.len() + 1) as int) == table.push(':'),
{
    assert(document_id_of(table, key).take((table.len() + 1) as int) =~= table.push(':'));
}

/// A row without a colon in its table, its names and its values, and without an
/// equals sign in a name, has its plain id.
pub proof fn law_ordinary_row_has_its_plain_id(table: Seq<char>, key: Fields)
    requires
        !table.contains(':'),
        forall|name: Seq<char>| #[trigger]
            key.contains_key(name) ==> !name.contains(':') && !name.contains('=')
                && !key[name].contains(':'),
    ensures
        document_id_of(table, key) == plain_id_of(table, key),
{
    assert forall|text: Seq<char>| #[trigger] equals_behind_colon(text) implies text.contains(':') by {
        let (i, j) = choose|i: int, j: int|
            0 <= i < j < text.len() && #[trigger] text[i] == ':' && #[trigger] text[j] == '=';
        assert(text[i] == ':');
    }
}

proof fn lemma_single_column_id(table: Seq<char>, name: Seq<char>, value: Seq<char>)
    ensures
        plain_id_of(table, map![name => value]) == table.push(':') + (name.push('=') + value),
{
    let key = map![name => value];
    let names = seq![name];
    assert(names[0] == name);
    assert forall|n: Seq<char>| names.contains(n) <==> #[trigger] key.dom().contains(n) by {
        if key.dom().contains(n) {
            assert(n == name);
            assert(names.contains(n));
        }
    }
    assert(lists_in_order(names, key.dom()));
    lemma_order_is_unique(names, in_order(key.dom()), key.dom());
}

/// An equals sign behind a colon makes a text the plain id of a row with one key
/// column.
proof fn lemma_text_is_a_plain_id(text: Seq<char>, i: int, j: int)
    requires
        0 <= i < j < text.len(),
        text[i] == ':',
        text[j] == '=',
    ensures
        plain_id_of(text.take(i), map![text.subrange(i + 1, j) => text.skip(j + 1)]) == text,
{
    let (table, name, value) = (text.take(i), text.subrange(i + 1, j), text.skip(j + 1));
    lemma_single_column_id(table, name, value);
    assert(text =~= table.push(':') + (name.push('=') + value));
}

/// Where the column at a place starts in the text of a key.
proof fn lemma_place_of_pair(names: Seq<Seq<char>>, key: Fields, m: int) -> (at: int)
    requires
        0 <= m < names.len(),
    ensures
        0 <= at,
        at + pair_text(names[m], key[names[m]], false).len() <= key_text(names, key, false).len(),
        forall|k: int|
            0 <= k < pair_text(names[m], key[names[m]], false).len() ==> key_text(
                names,
                key,
                false,
            )[at + k] == #[trigger] pair_text(names[m], key[names[m]], false)[k],
    decreases names.len(),
{
    let text = key_text(names, key, false);
    let head = key_text(names.drop_last(), key, false);
    if names.len() == 1 {
        0
    } else if m == names.len() - 1 {
        (head.len() + 1) as int
    } else {
        assert(names.drop_last()[m] == names[m]);
        let at = lemma_place_of_pair(names.drop_last(), key, m);
        assert forall|k: int|
            0 <= k < pair_text(names[m], key[names[m]], false).len() implies text[at + k]
            == #[trigger] pair_text(names[m], key[names[m]], false)[k] by {
            assert(text[at + k] == head[at + k]);
        }
        at
    }
}

/// Whether another row has the same plain id.
pub open spec fn shares_plain_id(table: Seq<char>, key: Fields) -> bool {
    exists|other_table: Seq<char>, other_key: Fields|
        {
            &&& other_key.dom().finite()
            &&& !(other_table == table && other_key == key)
            &&& #[trigger] plain_id_of(other_table, other_key) == plain_id_of(table, key)
        }
}

/// A colon in a plain id with an equals sign behind it gives another row with that
/// id, unless it is the colon behind the table.
proof fn lemma_another_colon_is_shared(table: Seq<char>, key: Fields, i: int, j: int)
    requires
        0 <= i < j < plain_id_of(table, key).len(),
        i != table.len(),
        plain_id_of(table, key)[i] == ':',
        plain_id_of(table, key)[j] == '=',
    ensures
        shares_plain_id(table, key),
{
    let id = plain_id_of(table, key);
    lemma_text_is_a_plain_id(id, i, j);
    let other_key = map![id.subrange(i + 1, j) => id.skip(j + 1)];
    assert(id.take(i).len() != table.len());
    assert(other_key.dom().finite());
    assert(plain_id_of(id.take(i), other_key) == plain_id_of(table, key));
}

/// A colon in a column with an equals sign behind it gives another row with the same
/// plain id.
proof fn lemma_colon_in_column_is_shared(table: Seq<char>, key: Fields, m: int, i: int, j: int)
    requires
        0 <= m < in_order(key.dom()).len(),
        ({
            let name = in_order(key.dom())[m];
            let pair = pair_text(name, key[name], false);
            0 <= i < j < pair.len() && pair[i] == ':' && pair[j] == '='
        }),
    ensures
        shares_plain_id(table, key),
{
    let names = in_order(key.dom());
    let text = key_text(names, key, false);
    let at = lemma_place_of_pair(names, key, m);
    let start = table.len() + 1;
    assert(plain_id_of(table, key)[start + at + i] == text[at + i]);
    assert(plain_id_of(table, key)[start + at + j] == text[at + j]);
    lemma_another_colon_is_shared(table, key, start + at + i, start + at + j);
}

/// A row with several key columns shares its plain id.
proof fn lemma_several_columns_are_shared(table: Seq<char>, key: Fields)
    requires
        in_order(key.dom()).len() > 1,
    ensures
        shares_plain_id(table, key),
{
    let names = in_order(key.dom());
    let last = names.last();
    let head = key_text(names.drop_last(), key, false);
    let pair = pair_text(last, key[last], false);
    let text = key_text(names, key, false);
    let start = table.len() + 1;
    let i = head.len() as int;
    let j = i + 1 + last.len();
    assert(text == head.push(':') + pair);
    assert(text[i] == ':');
    assert(pair[last.len() as int] == '=');
    assert(text[j] == pair[last.len() as int]);
    assert(plain_id_of(table, key)[start + i] == text[i]);
    assert(plain_id_of(table, key)[start + j] == text[j]);
    lemma_another_colon_is_shared(table, key, start + i, start + j);
}

/// A row whose one key column has an equals sign in its name shares its plain id.
proof fn lemma_equals_in_single_name_is_shared(table: Seq<char>, key: Fields, k: int)
    requires
        key.dom().finite(),
        in_order(key.dom()).len() == 1,
        0 <= k < in_order(key.dom())[0].len(),
        in_order(key.dom())[0][k] == '=',
    ensures
        shares_plain_id(table, key),
{
    let names = in_order(key.dom());
    let name = names[0];
    let pair = pair_text(name, key[name], false);
    let id = plain_id_of(table, key);
    let (i, j) = (table.len() as int, table.len() + 1 + k);
    assert(pair[k] == '=');
    assert(id[i] == ':');
    assert(id[j] == pair[k]);
    lemma_text_is_a_plain_id(id, i, j);
    let other_name = id.subrange(i + 1, j);
    let other_key = map![other_name => id.skip(j + 1)];
    assert(other_name.len() == k);
    assert(other_key.dom().contains(other_name));
    lemma_finite_set_has_an_order(key.dom());
    assert(!names.contains(other_name));
    assert(!key.dom().contains(other_name));
    assert(other_key.dom().finite());
    assert(plain_id_of(id.take(i), other_key) == plain_id_of(table, key));
}

/// A column whose name holds a separator, or whose value holds an equals sign behind
/// a colon, gives another row with the same plain id.
proof fn lemma_ambiguous_column_is_shared(table: Seq<char>, key: Fields, m: int)
    requires
        key.dom().finite(),
        0 <= m < in_order(key.dom()).len(),
        !is_plain_pair(in_order(key.dom())[m], key[in_order(key.dom())[m]]),
    ensures
        shares_plain_id(table, key),
{
    let names = in_order(key.dom());
    let (name, value) = (names[m], key[names[m]]);
    let pair = pair_text(name, value, false);
    let n = name.len() as int;
    assert(pair == name.push('=') + value);
    assert(pair[n] == '=');
    if names.len() > 1 {
        lemma_several_columns_are_shared(table, key);
    } else if name.contains(':') {
        let k = choose|k: int| 0 <= k < name.len() && name[k] == ':';
        assert(pair[k] == ':');
        lemma_colon_in_column_is_shared(table, key, m, k, n);
    } else if equals_behind_colon(value) {
        let (i, j) = choose|i: int, j: int|
            0 <= i < j < value.len() && #[trigger] value[i] == ':' && #[trigger] value[j] == '=';
        assert(pair[n + 1 + i] == value[i]);
        assert(pair[n + 1 + j] == value[j]);
        lemma_colon_in_column_is_shared(table, key, m, n + 1 + i, n + 1 + j);
    } else {
        let k = choose|k: int| 0 <= k < name.len() && name[k] == '=';
        lemma_equals_in_single_name_is_shared(table, key, k);
    }
}

/// A row changes its plain id only for the sake of uniqueness: where no other row
/// has that id too, the row keeps it.
pub proof fn law_unshared_plain_id_is_kept(table: Seq<char>, key: Fields)
    requires
        key.dom().finite(),
        !shares_plain_id(table, key),
    ensures
        document_id_of(table, key) == plain_id_of(table, key),
{
    let names = in_order(key.dom());
    let id = plain_id_of(table, key);
    let text = key_text(names, key, false);
    lemma_listed_columns(table, key);
    if !is_plain(table, key) {
        if key.dom() == Set::<Seq<char>>::empty() {
            let (i, j) = choose|i: int, j: int|
                0 <= i < j < table.len() && #[trigger] table[i] == ':' && #[trigger] table[j]
                    == '=';
            assert(id[i] == ':');
            assert(id[j] == '=');
            lemma_another_colon_is_shared(table, key, i, j);
        } else if table.contains(':') {
            let i = choose|i: int| 0 <= i < table.len() && table[i] == ':';
            lemma_key_text_has_equals(names, key);
            let k = choose|k: int| 0 <= k < text.len() && text[k] == '=';
            assert(id[i] == ':');
            assert(id[table.len() + 1 + k] == '=');
            lemma_another_colon_is_shared(table, key, i, table.len() + 1 + k);
        } else {
            let name = choose|name: Seq<char>| #[trigger]
                key.contains_key(name) && !is_plain_pair(name, key[name]);
            assert(key.dom().contains(name));
            assert(names.contains(name));
            let m = choose|m: int| 0 <= m < names.len() && names[m] == name;
            lemma_ambiguous_column_is_shared(table, key, m);
        }
    }
}

/// The plain id of a row without key columns is its table and a colon.
pub proof fn law_bare_id_is_the_table(table: Seq<char>)
    ensures
        plain_id_of(table, Map::empty()) == table.push(':'),
{
    let key: Fields = Map::empty();
    let names = in_order(key.dom());
    lemma_finite_set_has_an_order(key.dom());
    if names.len() > 0 {
        assert(names.contains(names[0]));
        assert(key.dom().contains(names[0]));
    }
    assert(plain_id_of(table, key) =~= table.push(':'));
}

/// The columns of a plain id stand one behind the other, in the order of their names:
/// a column whose name comes behind all others is appended as `name=value`, with a
/// colon before it where it is not the first.
pub proof fn law_last_column_is_appended(
    table: Seq<char>,
    key: Fields,
    name: Seq<char>,
    value: Seq<char>,
)
    requires
        key.dom().finite(),
        forall|other: Seq<char>| #[trigger] key.contains_key(other) ==> name_before(other, name),
    ensures
        plain_id_of(table, key.insert(name, value)) == plain_id_of(table, key) + (if key.dom()
            == Set::<Seq<char>>::empty() {
            Seq::<char>::empty()
        } else {
            seq![':']
        }) + name + seq!['='] + value,
{
    let longer = key.insert(name, value);
    let names = in_order(key.dom());
    let more = names.push(name);
    lemma_listed_columns(table, key);
    lemma_name_before_is_strict(name, name);
    assert(longer.dom() =~= key.dom().insert(name));
    assert forall|n: Seq<char>| more.contains(n) <==> #[trigger] longer.dom().contains(n) by {
        assert(names.contains(n) <==> key.dom().contains(n));
        if more.contains(n) {
            let i = choose|i: int| 0 <= i < more.len() && more[i] == n;
            if i < names.len() {
                assert(names[i] == n);
            }
        }
        if names.contains(n) {
            let i = choose|i: int| 0 <= i < names.len() && names[i] == n;
            assert(more[i] == n);
        }
        assert(more[names.len() as int] == name);
    }
    assert forall|i: int, j: int| 0 <= i < j < more.len() implies name_before(
        #[trigger] more[i],
        #[trigger] more[j],
    ) by {
        assert(more[i] == names[i]);
        if j == names.len() {
            assert(key.contains_key(names[i]));
        } else {
            assert(more[j] == names[j]);
        }
    }
    assert(lists_in_order(more, longer.dom()));
    lemma_finite_set_has_an_order(longer.dom());
    lemma_order_is_unique(more, in_order(longer.dom()), longer.dom());
    assert(!key.contains_key(name));
    lemma_key_text_ignores_other_columns(names, key, name, value);
    assert(more.drop_last() =~= names);
    assert(key_text(more, longer, false) =~= (if names.len() == 0 {
        Seq::<char>::empty()
    } else {
        key_text(names, key, false).push(':')
    }) + name + seq!['='] + value);
    assert(plain_id_of(table, longer) =~= plain_id_of(table, key) + (if key.dom() == Set::<
        Seq<char>,
    >::empty() {
        Seq::<char>::empty()
    } else {
        seq![':']
    }) + name + seq!['='] + value);
}

proof fn lemma_key_text_ignores_other_columns(
    names: Seq<Seq<char>>,
    key: Fields,
    name: Seq<char>,
    value: Seq<char>,
)
    requires
        forall|i: int| 0 <= i < names.len() ==> key.contains_key(#[trigger] names[i]),
        !key.contains_key(name),
    ensures
        key_text(names, key.insert(name, value), false) == key_text(names, key, false),
    decreases names.len(),
{
    if names.len() > 0 {
        assert(key.contains_key(names[names.len() - 1]));
        assert forall|i: int| 0 <= i < names.drop_last().len() implies key.contains_key(
            #[trigger] names.drop_last()[i],
        ) by {
            assert(names.drop_last()[i] == names[i]);
        }
        lemma_key_text_ignores_other_columns(names.drop_last(), key, name, value);
    }
}

}
