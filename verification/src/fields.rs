//! Named text fields of a row, kept in the order of their names.

use crate::text::same_text;
use vstd::prelude::*;
use vstd::string::*;
use vstd::utf8::{
    encode_utf8, is_ascii_chars, is_ascii_chars_encode_utf8, is_ascii_chars_nat_bound,
};

verus! {

/// Lexicographic order of byte sequences.
pub open spec fn bytes_before(x: Seq<u8>, y: Seq<u8>) -> bool
    decreases x.len(),
{
    y.len() > 0 && (x.len() == 0 || x[0] < y[0] || (x[0] == y[0] && bytes_before(
        x.drop_first(),
        y.drop_first(),
    )))
}

/// The order of names: that of their UTF-8 bytes.
pub open spec fn name_before(x: Seq<char>, y: Seq<char>) -> bool {
    bytes_before(encode_utf8(x), encode_utf8(y))
}

/// Whether `names` holds exactly the names of `set`, each once and in order.
pub open spec fn lists_in_order(names: Seq<Seq<char>>, set: Set<Seq<char>>) -> bool {
    &&& forall|i: int, j: int|
        0 <= i < j < names.len() ==> name_before(#[trigger] names[i], #[trigger] names[j])
    &&& forall|name: Seq<char>| names.contains(name) <==> #[trigger] set.contains(name)
}

/// The names of a finite set in order.
pub open spec fn in_order(set: Set<Seq<char>>) -> Seq<Seq<char>> {
    choose|names: Seq<Seq<char>>| lists_in_order(names, set)
}

proof fn lemma_bytes_before_is_strict(x: Seq<u8>, y: Seq<u8>)
    ensures
        !bytes_before(x, x),
        bytes_before(x, y) ==> !bytes_before(y, x),
        x != y ==> bytes_before(x, y) || bytes_before(y, x),
    decreases x.len(),
{
    if x.len() > 0 {
        lemma_bytes_before_is_strict(x.drop_first(), x.drop_first());
        if y.len() > 0 {
            lemma_bytes_before_is_strict(x.drop_first(), y.drop_first());
            if x[0] == y[0] && x.drop_first() == y.drop_first() {
                assert(x =~= seq![x[0]] + x.drop_first());
                assert(y =~= seq![y[0]] + y.drop_first());
            }
        }
    } else if y.len() == 0 {
        assert(x =~= y);
    }
}

proof fn lemma_bytes_before_is_transitive(x: Seq<u8>, y: Seq<u8>, z: Seq<u8>)
    requires
        bytes_before(x, y),
        bytes_before(y, z),
    ensures
        bytes_before(x, z),
    decreases x.len(),
{
    if x.len() > 0 && x[0] == y[0] && y[0] == z[0] {
        lemma_bytes_before_is_transitive(x.drop_first(), y.drop_first(), z.drop_first());
    }
}

/// The order of names is strict and total.
pub proof fn lemma_name_before_is_strict(x: Seq<char>, y: Seq<char>)
    ensures
        !name_before(x, x),
        name_before(x, y) ==> !name_before(y, x),
        x != y ==> name_before(x, y) || name_before(y, x),
{
    lemma_bytes_before_is_strict(encode_utf8(x), encode_utf8(y));
    vstd::utf8::encode_utf8_decode_utf8(x);
    vstd::utf8::encode_utf8_decode_utf8(y);
}

/// The order of names is transitive.
pub proof fn lemma_name_before_is_transitive(x: Seq<char>, y: Seq<char>, z: Seq<char>)
    requires
        name_before(x, y),
        name_before(y, z),
    ensures
        name_before(x, z),
{
    lemma_bytes_before_is_transitive(encode_utf8(x), encode_utf8(y), encode_utf8(z));
}

/// Bytes that agree up to a place are ordered by what stands there.
proof fn lemma_bytes_differ_at(x: Seq<u8>, y: Seq<u8>, at: int)
    requires
        0 <= at <= x.len(),
        at < y.len(),
        forall|i: int| 0 <= i < at ==> x[i] == y[i],
        at == x.len() || x[at] < y[at],
    ensures
        bytes_before(x, y),
    decreases at,
{
    if at > 0 {
        lemma_bytes_differ_at(x.drop_first(), y.drop_first(), at - 1);
    }
}

/// ASCII names that agree up to a place are ordered by what stands there.
pub proof fn lemma_names_differ_at(x: Seq<char>, y: Seq<char>, at: int)
    requires
        is_ascii_chars(x),
        is_ascii_chars(y),
        0 <= at <= x.len(),
        at < y.len(),
        forall|i: int| 0 <= i < at ==> x[i] == y[i],
        at == x.len() || x[at] < y[at],
    ensures
        name_before(x, y),
{
    is_ascii_chars_encode_utf8(x);
    is_ascii_chars_encode_utf8(y);
    is_ascii_chars_nat_bound(x);
    is_ascii_chars_nat_bound(y);
    lemma_bytes_differ_at(encode_utf8(x), encode_utf8(y), at);
}

/// There is one way to list a set of names in order.
pub proof fn lemma_order_is_unique(
    names: Seq<Seq<char>>,
    others: Seq<Seq<char>>,
    set: Set<Seq<char>>,
)
    requires
        lists_in_order(names, set),
        lists_in_order(others, set),
    ensures
        names == others,
    decreases names.len(),
{
    if names.len() == 0 {
        if others.len() > 0 {
            assert(others.contains(others[0]));
            assert(set.contains(others[0]));
            assert(names.contains(others[0]));
        }
        assert(names =~= others);
    } else {
        let first = names[0];
        assert(names.contains(first));
        assert(set.contains(first));
        assert(others.contains(first));
        let k = choose|k: int| 0 <= k < others.len() && others[k] == first;
        let other = others[0];
        assert(others.contains(other));
        assert(set.contains(other));
        assert(names.contains(other));
        let m = choose|m: int| 0 <= m < names.len() && names[m] == other;
        lemma_name_before_is_strict(first, other);
        assert(first == other) by {
            if first != other {
                assert(m > 0);
                assert(k > 0);
                assert(name_before(names[0], names[m]));
                assert(name_before(others[0], others[k]));
            }
        }
        let rest = set.remove(first);
        lemma_tail_lists_the_rest(names, set);
        lemma_tail_lists_the_rest(others, set);
        lemma_order_is_unique(names.drop_first(), others.drop_first(), rest);
        assert(names =~= seq![first] + names.drop_first());
        assert(others =~= seq![first] + others.drop_first());
    }
}

proof fn lemma_tail_lists_the_rest(names: Seq<Seq<char>>, set: Set<Seq<char>>)
    requires
        lists_in_order(names, set),
        names.len() > 0,
    ensures
        lists_in_order(names.drop_first(), set.remove(names[0])),
{
    let tail = names.drop_first();
    let rest = set.remove(names[0]);
    assert forall|name: Seq<char>| tail.contains(name) <==> #[trigger] rest.contains(name) by {
        if tail.contains(name) {
            let i = choose|i: int| 0 <= i < tail.len() && tail[i] == name;
            assert(names[i + 1] == name);
            assert(names.contains(name));
            assert(set.contains(name));
            assert(name_before(names[0], names[i + 1]));
            lemma_name_before_is_strict(names[0], name);
        }
        if rest.contains(name) {
            assert(set.contains(name));
            assert(names.contains(name));
            let i = choose|i: int| 0 <= i < names.len() && names[i] == name;
            assert(i > 0);
            assert(tail[i - 1] == name);
        }
    }
}

/// Every finite set of names can be listed in order.
pub proof fn lemma_finite_set_has_an_order(set: Set<Seq<char>>)
    requires
        set.finite(),
    ensures
        lists_in_order(in_order(set), set),
    decreases set.len(),
{
    if set.len() == 0 {
        let names = Seq::<Seq<char>>::empty();
        assert(set =~= Set::empty());
        assert(lists_in_order(names, set));
    } else {
        let leq = |x: Seq<char>, y: Seq<char>| x == y || name_before(x, y);
        assert(vstd::relations::total_ordering(leq)) by {
            assert forall|x: Seq<char>, y: Seq<char>| #[trigger]
                leq(x, y) && #[trigger] leq(y, x) implies x == y by {
                lemma_name_before_is_strict(x, y);
            }
            assert forall|x: Seq<char>, y: Seq<char>| #[trigger] leq(x, y) || #[trigger] leq(y, x) by {
                lemma_name_before_is_strict(x, y);
            }
            assert forall|x: Seq<char>, y: Seq<char>, z: Seq<char>| #[trigger]
                leq(x, y) && #[trigger] leq(y, z) implies leq(x, z) by {
                if x != y && y != z {
                    lemma_name_before_is_transitive(x, y, z);
                }
            }
        }
        set.find_unique_minimal_ensures(leq);
        let first = set.find_unique_minimal(leq);
        let rest = set.remove(first);
        lemma_finite_set_has_an_order(rest);
        let tail = in_order(rest);
        let names = seq![first] + tail;
        assert forall|name: Seq<char>| names.contains(name) <==> #[trigger] set.contains(name) by {
            if names.contains(name) {
                let i = choose|i: int| 0 <= i < names.len() && names[i] == name;
                if i > 0 {
                    assert(tail[i - 1] == name);
                    assert(tail.contains(name));
                    assert(rest.contains(name));
                }
            }
            if set.contains(name) {
                if name == first {
                    assert(names[0] == name);
                } else {
                    assert(rest.contains(name));
                    assert(tail.contains(name));
                    let i = choose|i: int| 0 <= i < tail.len() && tail[i] == name;
                    assert(names[i + 1] == name);
                }
            }
        }
        assert forall|i: int, j: int| 0 <= i < j < names.len() implies name_before(
            #[trigger] names[i],
            #[trigger] names[j],
        ) by {
            assert(names[j] == tail[j - 1]);
            if i == 0 {
                assert(tail.contains(names[j]));
                assert(rest.contains(names[j]));
                assert(set.contains(names[j]));
                assert(leq(first, names[j]) || leq(names[j], first));
                assert(leq(names[j], first) ==> leq(first, names[j]));
            } else {
                assert(names[i] == tail[i - 1]);
            }
        }
        assert(lists_in_order(names, set));
    }
}

/// Whether the first name comes before the second.
pub fn is_before(x: &str, y: &str) -> (before: bool)
    ensures
        before == name_before(x@, y@),
{
    let a = x.as_bytes();
    let b = y.as_bytes();
    let mut i: usize = 0;
    assert(a@.skip(0) =~= a@);
    assert(b@.skip(0) =~= b@);
    while i < a.len() && i < b.len() && a[i] == b[i]
        invariant
            i <= a.len(),
            i <= b.len(),
            bytes_before(a@, b@) == bytes_before(a@.skip(i as int), b@.skip(i as int)),
        decreases a.len() - i,
    {
        assert(a@.skip(i as int).drop_first() =~= a@.skip(i + 1));
        assert(b@.skip(i as int).drop_first() =~= b@.skip(i + 1));
        i = i + 1;
    }
    i < b.len() && (i == a.len() || a[i] < b[i])
}

spec fn ordered(entries: Seq<(String, String)>) -> bool {
    forall|i: int, j: int|
        0 <= i < j < entries.len() ==> name_before(
            (#[trigger] entries[i]).0@,
            (#[trigger] entries[j]).0@,
        )
}

spec fn has_name(entries: Seq<(String, String)>, name: Seq<char>) -> bool {
    exists|i: int| 0 <= i < entries.len() && (#[trigger] entries[i]).0@ == name
}

spec fn value_under(entries: Seq<(String, String)>, name: Seq<char>) -> Seq<char> {
    let i = choose|i: int| 0 <= i < entries.len() && (#[trigger] entries[i]).0@ == name;
    entries[i].1@
}

/// Text values under names that each occur once.
#[derive(Debug)]
pub struct FieldMap {
    entries: Vec<(String, String)>,
}

impl View for FieldMap {
    type V = Map<Seq<char>, Seq<char>>;

    closed spec fn view(&self) -> Map<Seq<char>, Seq<char>> {
        Map::new(
            |name: Seq<char>| has_name(self.entries@, name),
            |name: Seq<char>| value_under(self.entries@, name),
        )
    }
}

proof fn lemma_entries_have_one_value(entries: Seq<(String, String)>, i: int)
    requires
        ordered(entries),
        0 <= i < entries.len(),
    ensures
        has_name(entries, entries[i].0@),
        value_under(entries, entries[i].0@) == entries[i].1@,
{
    let name = entries[i].0@;
    let k = choose|k: int| 0 <= k < entries.len() && (#[trigger] entries[k]).0@ == name;
    assert(entries[i].0@ == name);
    lemma_name_before_is_strict(name, name);
    assert(k == i) by {
        if k < i {
            assert(name_before(entries[k].0@, entries[i].0@));
        } else if i < k {
            assert(name_before(entries[i].0@, entries[k].0@));
        }
    }
}

/// Putting a value where its name belongs keeps the order and changes that name alone.
proof fn lemma_put(
    before: Seq<(String, String)>,
    after: Seq<(String, String)>,
    at: int,
    name: String,
    value: String,
)
    requires
        ordered(before),
        0 <= at <= before.len(),
        forall|k: int| 0 <= k < at ==> name_before((#[trigger] before[k]).0@, name@),
        ({
            ||| at < before.len() && before[at].0@ == name@ && after == before.update(
                at,
                (name, value),
            )
            ||| (at < before.len() ==> name_before(name@, before[at].0@)) && after
                == before.insert(at, (name, value))
        }),
    ensures
        ordered(after),
        forall|n: Seq<char>| #[trigger]
            has_name(after, n) <==> has_name(before, n) || n == name@,
        forall|n: Seq<char>|
            has_name(after, n) ==> #[trigger] value_under(after, n) == if n == name@ {
                value@
            } else {
                value_under(before, n)
            },
{
    let inserted = after.len() > before.len();
    let shift = |k: int|
        if inserted && k >= at {
            k + 1
        } else {
            k
        };
    assert forall|k: int| 0 <= k < before.len() && k != at implies name_before(
        (#[trigger] before[k]).0@,
        name@,
    ) || name_before(name@, before[k].0@) by {
        if at < k {
            assert(name_before(before[at].0@, before[k].0@));
            if before[at].0@ != name@ {
                lemma_name_before_is_transitive(name@, before[at].0@, before[k].0@);
            }
        }
    }
    assert forall|i: int, j: int| 0 <= i < j < after.len() implies name_before(
        (#[trigger] after[i]).0@,
        (#[trigger] after[j]).0@,
    ) by {
        if inserted {
            if j == at {
                assert(after[i] == before[i]);
            } else if i == at {
                assert(after[j] == before[j - 1]);
                if j - 1 > at {
                    lemma_name_before_is_transitive(name@, before[at].0@, before[j - 1].0@);
                }
            } else {
                let a = if i < at {
                    i
                } else {
                    i - 1
                };
                let b = if j < at {
                    j
                } else {
                    j - 1
                };
                assert(after[i] == before[a]);
                assert(after[j] == before[b]);
            }
        } else {
            assert(name_before(before[i].0@, before[j].0@));
        }
    }
    assert forall|n: Seq<char>| #[trigger]
        has_name(after, n) <==> has_name(before, n) || n == name@ by {
        assert(after[at].0@ == name@);
        if has_name(after, n) && n != name@ {
            let i = choose|i: int| 0 <= i < after.len() && (#[trigger] after[i]).0@ == n;
            let k = if inserted && i > at {
                i - 1
            } else {
                i
            };
            assert(before[k].0@ == n);
        }
        if has_name(before, n) {
            let k = choose|k: int| 0 <= k < before.len() && (#[trigger] before[k]).0@ == n;
            assert(after[shift(k)].0@ == n);
        }
    }
    assert forall|n: Seq<char>| has_name(after, n) implies #[trigger] value_under(after, n)
        == if n == name@ {
        value@
    } else {
        value_under(before, n)
    } by {
        if n == name@ {
            lemma_entries_have_one_value(after, at);
        } else {
            assert(has_name(before, n));
            let k = choose|k: int| 0 <= k < before.len() && (#[trigger] before[k]).0@ == n;
            lemma_entries_have_one_value(before, k);
            assert(after[shift(k)] == before[k]);
            lemma_entries_have_one_value(after, shift(k));
        }
    }
}

impl Clone for FieldMap {
    fn clone(&self) -> (map: FieldMap)
        ensures
            map@ == self@,
    {
        proof {
            use_type_invariant(self);
        }
        let mut entries: Vec<(String, String)> = Vec::new();
        for i in 0..self.entries.len()
            invariant
                entries@ == self.entries@.take(i as int),
        {
            entries.push((self.entries[i].0.clone(), self.entries[i].1.clone()));
        }
        assert(entries@ =~= self.entries@);
        FieldMap { entries }
    }
}

impl FieldMap {
    #[verifier::type_invariant]
    spec fn is_ordered(self) -> bool {
        ordered(self.entries@)
    }

    /// No fields.
    pub fn new() -> (map: FieldMap)
        ensures
            map@ == Map::<Seq<char>, Seq<char>>::empty(),
    {
        let map = FieldMap { entries: Vec::new() };
        assert(map@ =~= Map::<Seq<char>, Seq<char>>::empty());
        map
    }

    /// Puts `value` under `name`, in place of what was there.
    pub fn insert(&mut self, name: String, value: String)
        ensures
            final(self)@ == old(self)@.insert(name@, value@),
    {
        proof {
            use_type_invariant(&*self);
        }
        let mut entries: Vec<(String, String)> = Vec::new();
        std::mem::swap(&mut entries, &mut self.entries);
        let ghost before = entries@;
        let mut i: usize = 0;
        while i < entries.len() && is_before(&entries[i].0, &name)
            invariant
                entries@ == before,
                i <= entries.len(),
                forall|k: int| 0 <= k < i ==> name_before((#[trigger] before[k]).0@, name@),
            decreases entries.len() - i,
        {
            i = i + 1;
        }
        assert(i < entries.len() && before[i as int].0@ != name@ ==> name_before(
            name@,
            before[i as int].0@,
        )) by {
            if i < entries.len() {
                lemma_name_before_is_strict(before[i as int].0@, name@);
            }
        }
        let ghost put = (name, value);
        if i < entries.len() && entries[i].0 == name {
            entries[i] = (name, value);
        } else {
            entries.insert(i, (name, value));
        }
        proof {
            lemma_put(before, entries@, i as int, put.0, put.1);
        }
        self.entries = entries;
        assert(self@ =~= old(self)@.insert(name@, value@));
    }

    /// The value under `name`.
    pub fn get(&self, name: &str) -> (value: Option<&String>)
        ensures
            match value {
                Some(v) => self@.contains_key(name@) && v@ == self@[name@],
                None => !self@.contains_key(name@),
            },
    {
        proof {
            use_type_invariant(self);
        }
        let mut i: usize = 0;
        while i < self.entries.len()
            invariant
                ordered(self.entries@),
                i <= self.entries.len(),
                forall|k: int| 0 <= k < i ==> (#[trigger] self.entries@[k]).0@ != name@,
            decreases self.entries.len() - i,
        {
            if same_text(self.entries[i].0.as_str(), name) {
                proof {
                    lemma_entries_have_one_value(self.entries@, i as int);
                }
                return Some(&self.entries[i].1);
            }
            i = i + 1;
        }
        None
    }

    /// The fields in the order of their names.
    pub fn entries(&self) -> (entries: &Vec<(String, String)>)
        ensures
            self@.dom().finite(),
            lists_in_order(in_order(self@.dom()), self@.dom()),
            entries@.len() == in_order(self@.dom()).len(),
            forall|i: int|
                0 <= i < entries@.len() ==> (#[trigger] entries@[i]).0@ == in_order(
                    self@.dom(),
                )[i] && entries@[i].1@ == self@[entries@[i].0@],
    {
        proof {
            use_type_invariant(self);
            let names = self.entries@.map_values(|e: (String, String)| e.0@);
            assert forall|name: Seq<char>| names.contains(name) <==> #[trigger] self@.dom().contains(
                name,
            ) by {
                if names.contains(name) {
                    let i = choose|i: int| 0 <= i < names.len() && names[i] == name;
                    assert(self.entries@[i].0@ == name);
                }
                if self@.dom().contains(name) {
                    let i = choose|i: int|
                        0 <= i < self.entries@.len() && (#[trigger] self.entries@[i]).0@ == name;
                    assert(names[i] == name);
                }
            }
            assert(self@.dom() =~= names.to_set());
            vstd::seq_lib::seq_to_set_is_finite(names);
            assert(lists_in_order(names, self@.dom()));
            lemma_order_is_unique(names, in_order(self@.dom()), self@.dom());
            assert forall|i: int| 0 <= i < self.entries@.len() implies (
            #[trigger] self.entries@[i]).0@ == in_order(self@.dom())[i] && self.entries@[i].1@
                == self@[self.entries@[i].0@] by {
                lemma_entries_have_one_value(self.entries@, i);
                assert(names[i] == self.entries@[i].0@);
            }
        }
        &self.entries
    }
}

/// Names are ordered by the first byte in which they differ, and a name comes before
/// those that it starts.
pub proof fn law_names_are_ordered_by_their_bytes(x: Seq<char>, y: Seq<char>, at: int)
    requires
        ({
            let (a, b) = (encode_utf8(x), encode_utf8(y));
            &&& 0 <= at <= a.len()
            &&& at < b.len()
            &&& forall|i: int| 0 <= i < at ==> a[i] == b[i]
            &&& at == a.len() || a[at] < b[at]
        }),
    ensures
        name_before(x, y),
        !name_before(y, x),
{
    lemma_bytes_differ_at(encode_utf8(x), encode_utf8(y), at);
    lemma_bytes_before_is_strict(encode_utf8(x), encode_utf8(y));
}

}
