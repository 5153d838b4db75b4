//! Settings read from a list of named variables, with defaults.

use crate::text::{
    decimal_text, law_written_numbers_are_read, parse_decimal, same_text, unsigned_value,
};
use vstd::prelude::*;
use vstd::string::*;

verus! {

/// Variables by name, in the order in which they are listed.
pub type Variables = Seq<(Seq<char>, Seq<char>)>;

/// The variables that pairs of a name and a value stand for.
pub open spec fn variables_of(vars: Seq<(String, String)>) -> Variables {
    vars.map_values(|var: (String, String)| (var.0@, var.1@))
}

/// The value of the first variable under `name`.
pub open spec fn variable(vars: Variables, name: Seq<char>) -> Option<Seq<char>>
    decreases vars.len(),
{
    if vars.len() == 0 {
        None
    } else if vars[0].0 == name {
        Some(vars[0].1)
    } else {
        variable(vars.skip(1), name)
    }
}

/// A text setting: the variable under `name`, or the default where there is none.
pub open spec fn text_or(vars: Variables, name: Seq<char>, default: Seq<char>) -> Seq<char> {
    match variable(vars, name) {
        Some(value) => value,
        None => default,
    }
}

/// A number setting of at most `max`: the variable under `name`, or the default
/// where there is none or it is no such number.
pub open spec fn number_or(vars: Variables, name: Seq<char>, default: nat, max: nat) -> nat {
    match variable(vars, name) {
        Some(value) => match unsigned_value(value, 10, max) {
            Some(n) => n,
            None => default,
        },
        None => default,
    }
}

/// A setting that is given only where the variable under `name` is not empty.
pub open spec fn given(vars: Variables, name: Seq<char>) -> Option<Seq<char>> {
    match variable(vars, name) {
        Some(value) if value.len() > 0 => Some(value),
        _ => None,
    }
}

/// The value of the first variable under `name`.
pub fn lookup<'a>(vars: &'a Vec<(String, String)>, name: &str) -> (value: Option<&'a String>)
    ensures
        match value {
            Some(v) => variable(variables_of(vars@), name@) == Some(v@),
            None => variable(variables_of(vars@), name@) is None,
        },
{
    let ghost all = variables_of(vars@);
    assert(all.skip(0) =~= all);
    for i in 0..vars.len()
        invariant
            all == variables_of(vars@),
            variable(all, name@) == variable(all.skip(i as int), name@),
    {
        assert(all.skip(i as int)[0] == all[i as int]);
        assert(all[i as int] == (vars@[i as int].0@, vars@[i as int].1@));
        if same_text(vars[i].0.as_str(), name) {
            return Some(&vars[i].1);
        }
        assert(all.skip(i as int).skip(1) =~= all.skip(i + 1));
    }
    None
}

/// A text setting.
pub fn text_setting(vars: &Vec<(String, String)>, name: &str, default: &str) -> (value: String)
    ensures
        value@ == text_or(variables_of(vars@), name@, default@),
{
    match lookup(vars, name) {
        Some(value) => value.clone(),
        None => default.to_owned(),
    }
}

/// A number setting of at most `max`.
pub fn number_setting(vars: &Vec<(String, String)>, name: &str, default: u64, max: u64) -> (value:
    u64)
    requires
        default <= max,
    ensures
        value == number_or(variables_of(vars@), name@, default as nat, max as nat),
        value <= max,
{
    match lookup(vars, name) {
        Some(value) => match parse_decimal(value.as_str(), max) {
            Some(n) => n,
            None => default,
        },
        None => default,
    }
}

/// A setting that is given only where its variable is not empty.
pub fn optional_setting(vars: &Vec<(String, String)>, name: &str) -> (value: Option<String>)
    ensures
        match value {
            Some(v) => given(variables_of(vars@), name@) == Some(v@),
            None => given(variables_of(vars@), name@) is None,
        },
{
    match lookup(vars, name) {
        Some(value) => if same_text(value.as_str(), "") {
            proof {
                reveal_strlit("");
            }
            None
        } else {
            proof {
                reveal_strlit("");
                assert(value@.len() == 0 ==> value@ =~= ""@);
            }
            Some(value.clone())
        },
        None => None,
    }
}

/// A variable is the first that is listed under its name, and there is none where no
/// variable has that name.
pub proof fn law_first_variable_counts(vars: Variables, name: Seq<char>, i: int)
    requires
        forall|k: int| 0 <= k < i && k < vars.len() ==> (#[trigger] vars[k]).0 != name,
        0 <= i <= vars.len(),
        i < vars.len() ==> vars[i].0 == name,
    ensures
        i < vars.len() ==> variable(vars, name) == Some(vars[i].1),
        i == vars.len() ==> variable(vars, name) is None,
    decreases vars.len(),
{
    if vars.len() > 0 && i > 0 {
        let rest = vars.skip(1);
        assert(vars[0].0 != name);
        assert forall|k: int| 0 <= k < i - 1 && k < rest.len() implies (#[trigger] rest[k]).0
            != name by {
            assert(rest[k] == vars[k + 1]);
        }
        law_first_variable_counts(rest, name, i - 1);
    }
}

/// A setting is what its variable says, and the default where there is no variable.
/// A number setting keeps its default where the variable is no number that fits; an
/// optional one is given exactly where its variable is not empty.
pub proof fn law_settings_follow_their_variables(
    vars: Variables,
    name: Seq<char>,
    text: Seq<char>,
    number: nat,
    max: nat,
    n: nat,
)
    ensures
        variable(vars, name) is None ==> text_or(vars, name, text) == text && number_or(
            vars,
            name,
            number,
            max,
        ) == number && given(vars, name) is None,
        variable(vars, name) matches Some(value) ==> text_or(vars, name, text) == value,
        variable(vars, name) matches Some(value) ==> given(vars, name) == if value.len() == 0 {
            None
        } else {
            Some(value)
        },
        variable(vars, name) == Some(decimal_text(n)) && n <= max ==> number_or(
            vars,
            name,
            number,
            max,
        ) == n,
        variable(vars, name) == Some(decimal_text(n)) && n > max ==> number_or(
            vars,
            name,
            number,
            max,
        ) == number,
        variable(vars, name) matches Some(value) ==> (unsigned_value(value, 10, max) is None
            ==> number_or(vars, name, number, max) == number),
{
    law_written_numbers_are_read(n, max, 0);
}

}
