//! Variables in the manifest text: `${name}` stands for a value, `$$` for a dollar sign.

use crate::text::{
    chars_of, find_char, first_at, join3, lemma_first_at, lemma_first_at_skip, str_eq, text_of,
};
use vstd::prelude::*;

verus! {

/// What `str::to_uppercase` makes of a text.
pub uninterp spec fn uppercased(s: Seq<char>) -> Seq<char>;

/// `str::to_uppercase`: the upper-case form of `s`, which depends on `s` alone.
#[verifier::external_body]
fn to_upper(s: &str) -> (r: String)
    ensures
        r@ == uppercased(s@),
{
    s.to_uppercase()
}

/// What `toml::from_str` reads under one key of a document, where that is a table: the names in it,
/// each with its value where that is a string.
pub uninterp spec fn toml_table(text: Seq<char>, key: Seq<char>) -> Option<
    Seq<(Seq<char>, Option<Seq<char>>)>,
>;

/// The texts of a list of named values that may be no strings.
pub open spec fn loose_pairs(v: Seq<(String, Option<String>)>) -> Seq<
    (Seq<char>, Option<Seq<char>>),
> {
    Seq::new(
        v.len(),
        |i: int|
            (
                v[i].0@,
                match v[i].1 {
                    Some(s) => Some(s@),
                    None => None,
                },
            ),
    )
}

/// `toml::from_str` on the whole document, and of the table it gives the entry `key`, taken as a
/// table with `Value::as_table` and each of its values as a string with `Value::as_str`. `None`
/// where the text is no TOML, has no such entry, or the entry is no table; a value that is no
/// string stands as `None` beside its name. Which of these holds of a text is left to the crate.
#[verifier::external_body]
fn read_table(text: &str, key: &str) -> (r: Option<Vec<(String, Option<String>)>>)
    ensures
        match r {
            Some(v) => toml_table(text@, key@) == Some(loose_pairs(v@)),
            None => toml_table(text@, key@) is None,
        },
{
    let table = toml::from_str::<toml::Table>(text).ok()?;
    let entries = table.get(key)?.as_table()?.iter();
    Some(entries.map(|(k, v)| (k.clone(), v.as_str().map(String::from))).collect())
}

/// Whether every value is a string.
pub open spec fn all_strings(list: Seq<(Seq<char>, Option<Seq<char>>)>) -> bool {
    forall|i: int| 0 <= i < list.len() ==> (#[trigger] list[i]).1 is Some
}

/// The named values of a table in which every value is a string; none of any other.
pub open spec fn string_table(table: Option<Seq<(Seq<char>, Option<Seq<char>>)>>) -> Seq<
    (Seq<char>, Seq<char>),
> {
    match table {
        Some(list) => if all_strings(list) {
            Seq::new(list.len(), |i: int| (list[i].0, list[i].1->0))
        } else {
            seq![]
        },
        None => seq![],
    }
}

/// The texts of a table that may not be there.
pub open spec fn loose_table(table: Option<Vec<(String, Option<String>)>>) -> Option<
    Seq<(Seq<char>, Option<Seq<char>>)>,
> {
    match table {
        Some(v) => Some(loose_pairs(v@)),
        None => None,
    }
}

/// The named values of a table in which every value is a string: one value of another kind, and
/// nothing of the table counts.
pub fn only_strings(table: Option<Vec<(String, Option<String>)>>) -> (r: Vec<(String, String)>)
    ensures
        pairs(r@) == string_table(loose_table(table)),
{
    let mut out: Vec<(String, String)> = Vec::new();
    let list = match table {
        Some(v) => v,
        None => {
            assert(pairs(out@) =~= seq![]);
            return out;
        },
    };
    let ghost all = loose_pairs(list@);
    let mut i: usize = 0;
    while i < list.len()
        invariant
            i <= list@.len(),
            all == loose_pairs(list@),
            loose_table(table) == Some(all),
            out@.len() == i,
            forall|j: int| 0 <= j < i ==> (#[trigger] all[j]).1 is Some,
            forall|j: int|
                0 <= j < i ==> (#[trigger] out@[j]).0@ == all[j].0 && out@[j].1@ == all[j].1->0,
        decreases list@.len() - i,
    {
        match &list[i].1 {
            Some(s) => {
                out.push((list[i].0.clone(), s.clone()));
            },
            None => {
                let none: Vec<(String, String)> = Vec::new();
                assert(all[i as int].1 is None);
                assert(pairs(none@) =~= seq![]);
                return none;
            },
        }
        i += 1;
    }
    assert(pairs(out@) =~= string_table(Some(all)));
    out
}

/// The texts of a list of named values.
pub open spec fn pairs(v: Seq<(String, String)>) -> Seq<(Seq<char>, Seq<char>)> {
    Seq::new(v.len(), |i: int| (v[i].0@, v[i].1@))
}

/// The value that a list gives a name: that of the first entry of the name.
pub open spec fn value_of(list: Seq<(Seq<char>, Seq<char>)>, name: Seq<char>) -> Option<Seq<char>>
    decreases list.len(),
{
    if list.len() == 0 {
        None
    } else if list[0].0 == name {
        Some(list[0].1)
    } else {
        value_of(list.skip(1), name)
    }
}

/// Looks a name up in a list of named values.
pub fn find_value<'a>(list: &'a Vec<(String, String)>, name: &str) -> (r: Option<&'a String>)
    ensures
        match r {
            Some(v) => value_of(pairs(list@), name@) == Some(v@),
            None => value_of(pairs(list@), name@) is None,
        },
{
    let ghost all = pairs(list@);
    let mut i: usize = 0;
    assert(all.skip(0) =~= all);
    while i < list.len()
        invariant
            i <= list@.len(),
            all == pairs(list@),
            value_of(all, name@) == value_of(all.skip(i as int), name@),
        decreases list@.len() - i,
    {
        proof {
            assert(all.skip(i as int)[0] == all[i as int]);
            assert(all.skip(i as int).skip(1) =~= all.skip(i + 1));
        }
        if str_eq(list[i].0.as_str(), name) {
            return Some(&list[i].1);
        }
        i += 1;
    }
    None
}

/// The name of the environment variable that overrides a variable.
pub open spec fn override_name(name: Seq<char>) -> Seq<char> {
    "ARTZAIN_VAR_"@ + uppercased(name)
}

/// The value of a variable: what the environment says of it, else what the manifest says.
pub open spec fn resolved(
    env: Seq<(Seq<char>, Seq<char>)>,
    vars: Seq<(Seq<char>, Seq<char>)>,
    name: Seq<char>,
) -> Option<Seq<char>> {
    match value_of(env, override_name(name)) {
        Some(v) => Some(v),
        None => value_of(vars, name),
    }
}

/// The values that the variables have, each name taken to its value.
pub open spec fn lookup(env: Seq<(Seq<char>, Seq<char>)>, vars: Seq<(Seq<char>, Seq<char>)>) -> (
spec_fn(Seq<char>) -> Option<Seq<char>>) {
    |name: Seq<char>| resolved(env, vars, name)
}

/// Why a text cannot be interpolated.
pub enum Fault {
    /// A `${` without a `}` behind it.
    Unterminated,
    /// A `${name}` whose name has no value.
    Unknown(Seq<char>),
}

/// `head` in front of a result.
pub open spec fn after(head: Seq<char>, rest: Result<Seq<char>, Fault>) -> Result<
    Seq<char>,
    Fault,
> {
    match rest {
        Ok(r) => Ok(head + r),
        Err(e) => Err(e),
    }
}

/// The text `s` from `from` on with `$$` read as `$`, each `${name}` replaced by the value of its
/// name, and any other `$` kept. The first reference that cannot be replaced decides the fault.
pub open spec fn interpolated(
    s: Seq<char>,
    from: int,
    look: spec_fn(Seq<char>) -> Option<Seq<char>>,
) -> Result<Seq<char>, Fault>
    decreases s.len() - from,
{
    if from < 0 || from >= s.len() {
        Ok(seq![])
    } else if s[from] != '$' {
        after(seq![s[from]], interpolated(s, from + 1, look))
    } else if from + 1 < s.len() && s[from + 1] == '$' {
        after(seq!['$'], interpolated(s, from + 2, look))
    } else if from + 1 >= s.len() || s[from + 1] != '{' {
        after(seq!['$'], interpolated(s, from + 1, look))
    } else {
        match first_at(s, '}', from + 2) {
            None => Err(Fault::Unterminated),
            Some(end) => {
                if end < from + 2 || end >= s.len() {
                    Err(Fault::Unterminated)
                } else {
                    let name = s.subrange(from + 2, end);
                    match look(name) {
                        None => Err(Fault::Unknown(name)),
                        Some(v) => after(v, interpolated(s, end + 1, look)),
                    }
                }
            },
        }
    }
}

/// The message of a fault.
pub open spec fn fault_message(path: Seq<char>, fault: Fault) -> Seq<char> {
    match fault {
        Fault::Unterminated => path + ": unterminated ${...} reference"@,
        Fault::Unknown(name) => path + ": unknown variable ${"@ + name
            + "} — define it under [vars] or set ARTZAIN_VAR_"@ + uppercased(name),
    }
}

/// The value of a variable.
fn resolve(env: &Vec<(String, String)>, vars: &Vec<(String, String)>, name: &str) -> (r: Option<
    String,
>)
    ensures
        match r {
            Some(v) => resolved(pairs(env@), pairs(vars@), name@) == Some(v@),
            None => resolved(pairs(env@), pairs(vars@), name@) is None,
        },
{
    let mut key = "ARTZAIN_VAR_".to_owned();
    key.append(to_upper(name).as_str());
    match find_value(env, key.as_str()) {
        Some(v) => Some(v.clone()),
        None => match find_value(vars, name) {
            Some(v) => Some(v.clone()),
            None => None,
        },
    }
}

/// Replaces the references in `raw` by the values in `env` and `vars`. `path` is the manifest's,
/// and stands in front of the message of a fault.
pub fn interpolate_with(
    raw: &str,
    path: &str,
    env: &Vec<(String, String)>,
    vars: &Vec<(String, String)>,
) -> (r: Result<String, String>)
    ensures
        match interpolated(raw@, 0, lookup(pairs(env@), pairs(vars@))) {
            Ok(text) => r matches Ok(out) && out@ == text,
            Err(fault) => r matches Err(e) && e@ == fault_message(path@, fault),
        },
{
    let chars = chars_of(raw);
    let ghost look = lookup(pairs(env@), pairs(vars@));
    let mut out = String::new();
    let mut i: usize = 0;
    while i < chars.len()
        invariant
            i <= chars@.len(),
            chars@ == raw@,
            look == lookup(pairs(env@), pairs(vars@)),
            interpolated(raw@, 0, look) == after(out@, interpolated(raw@, i as int, look)),
        decreases chars@.len() - i,
    {
        let ghost before = out@;
        let ghost at = i as int;
        if chars[i] != '$' {
            out.push(chars[i]);
            proof {
                lemma_after(before, seq![raw@[at]], interpolated(raw@, at + 1, look));
                assert(before + seq![raw@[at]] =~= out@);
            }
            i += 1;
        } else if i + 1 < chars.len() && chars[i + 1] == '$' {
            out.push('$');
            proof {
                lemma_after(before, seq!['$'], interpolated(raw@, at + 2, look));
                assert(before + seq!['$'] =~= out@);
            }
            i += 2;
        } else if i + 1 >= chars.len() || chars[i + 1] != '{' {
            out.push('$');
            proof {
                lemma_after(before, seq!['$'], interpolated(raw@, at + 1, look));
                assert(before + seq!['$'] =~= out@);
            }
            i += 1;
        } else {
            match find_char(&chars, '}', i + 2) {
                None => {
                    let mut m = path.to_owned();
                    m.append(": unterminated ${...} reference");
                    return Err(m);
                },
                Some(end) => {
                    let name = text_of(&chars, i + 2, end);
                    match resolve(env, vars, name.as_str()) {
                        None => {
                            let mut m = join3(path, ": unknown variable ${", name.as_str());
                            m.append("} — define it under [vars] or set ARTZAIN_VAR_");
                            m.append(to_upper(name.as_str()).as_str());
                            return Err(m);
                        },
                        Some(value) => {
                            out.append(value.as_str());
                            proof {
                                lemma_after(before, value@, interpolated(raw@, end + 1, look));
                            }
                            i = end + 1;
                        },
                    }
                },
            }
        }
    }
    proof {
        assert(out@ + seq![] =~= out@);
    }
    Ok(out)
}

/// Two texts in front of a result are one text in front of it.
proof fn lemma_after(a: Seq<char>, b: Seq<char>, rest: Result<Seq<char>, Fault>)
    ensures
        after(a, after(b, rest)) == after(a + b, rest),
{
    if let Ok(r) = rest {
        assert(a + (b + r) =~= (a + b) + r);
    }
}

/// The variables that a manifest's text gives under `[vars]`; none where that cannot be read as a
/// table of strings.
pub open spec fn declared_vars(raw: Seq<char>) -> Seq<(Seq<char>, Seq<char>)> {
    string_table(toml_table(raw, "vars"@))
}

/// Replaces the references in a manifest's text by the values it declares itself, or by those
/// that the environment gives.
pub fn interpolate_vars(raw: &str, path: &str, env: &Vec<(String, String)>) -> (r: Result<
    String,
    String,
>)
    ensures
        match interpolated(raw@, 0, lookup(pairs(env@), declared_vars(raw@))) {
            Ok(text) => r matches Ok(out) && out@ == text,
            Err(fault) => r matches Err(e) && e@ == fault_message(path@, fault),
        },
{
    let vars = only_strings(read_table(raw, "vars"));
    interpolate_with(raw, path, env, &vars)
}

/// A text with every `$` doubled.
pub open spec fn escaped(s: Seq<char>) -> Seq<char>
    decreases s.len(),
{
    if s.len() == 0 {
        seq![]
    } else if s[0] == '$' {
        seq!['$', '$'] + escaped(s.skip(1))
    } else {
        seq![s[0]] + escaped(s.skip(1))
    }
}

/// A text whose dollar signs are doubled interpolates to the text itself, whatever the variables
/// are.
pub proof fn law_escaped_text_survives(s: Seq<char>, look: spec_fn(Seq<char>) -> Option<Seq<char>>)
    ensures
        interpolated(escaped(s), 0, look) == Ok::<Seq<char>, Fault>(s),
    decreases s.len(),
{
    if s.len() == 0 {
        assert(s =~= seq![]);
    } else {
        let rest = s.skip(1);
        law_escaped_text_survives(rest, look);
        let whole = escaped(s);
        let k: int = if s[0] == '$' {
            2
        } else {
            1
        };
        assert(whole.skip(k) =~= escaped(rest));
        lemma_interpolated_skip(whole, k, 0, look);
        assert(seq![s[0]] + rest =~= s);
    }
}

/// What stands before a place does not matter to the interpolation of what follows.
proof fn lemma_interpolated_skip(
    s: Seq<char>,
    k: int,
    from: int,
    look: spec_fn(Seq<char>) -> Option<Seq<char>>,
)
    requires
        0 <= k <= s.len(),
        0 <= from,
    ensures
        interpolated(s, k + from, look) == interpolated(s.skip(k), from, look),
    decreases s.len() - k - from,
{
    let t = s.skip(k);
    if k + from < s.len() {
        lemma_interpolated_skip(s, k, from + 1, look);
        if k + from + 1 < s.len() {
            lemma_interpolated_skip(s, k, from + 2, look);
        }
        lemma_first_at_skip(s, '}', k, from + 2);
        lemma_first_at(s, '}', k + from + 2);
        match first_at(t, '}', from + 2) {
            Some(end) => {
                lemma_first_at(t, '}', from + 2);
                assert(t.subrange(from + 2, end) =~= s.subrange(k + from + 2, k + end));
                lemma_interpolated_skip(s, k, end + 1, look);
            },
            None => {},
        }
    }
}

/// A text without a dollar sign is left as it is.
pub proof fn law_text_without_dollar_is_kept(
    s: Seq<char>,
    look: spec_fn(Seq<char>) -> Option<Seq<char>>,
)
    requires
        !s.contains('$'),
    ensures
        interpolated(s, 0, look) == Ok::<Seq<char>, Fault>(s),
    decreases s.len(),
{
    lemma_escaped_plain(s);
    law_escaped_text_survives(s, look);
}

proof fn lemma_escaped_plain(s: Seq<char>)
    requires
        !s.contains('$'),
    ensures
        escaped(s) == s,
    decreases s.len(),
{
    if s.len() > 0 {
        assert(s.contains(s[0]));
        let rest = s.skip(1);
        assert forall|i: int| 0 <= i < rest.len() implies rest[i] != '$' by {
            assert(s.contains(s[i + 1]));
        }
        lemma_escaped_plain(rest);
        assert(seq![s[0]] + rest =~= s);
    } else {
        assert(s =~= seq![]);
    }
}

/// A reference is replaced by the value of its name, and what follows it is interpolated in turn;
/// a name without a value is refused.
pub proof fn law_reference_is_replaced_or_refused(
    name: Seq<char>,
    rest: Seq<char>,
    look: spec_fn(Seq<char>) -> Option<Seq<char>>,
)
    requires
        !name.contains('}'),
    ensures
        interpolated(seq!['$', '{'] + name + seq!['}'] + rest, 0, look) == match look(name) {
            Some(v) => after(v, interpolated(rest, 0, look)),
            None => Err(Fault::Unknown(name)),
        },
{
    let s = seq!['$', '{'] + name + seq!['}'] + rest;
    let end = 2 + name.len() as int;
    assert(s[0] == '$' && s[1] == '{' && s[end] == '}');
    lemma_first_at(s, '}', 2);
    let found = first_at(s, '}', 2)->0;
    if found < end {
        assert(s[found] == name[found - 2]);
        assert(name.contains(name[found - 2]));
    }
    assert(s.subrange(2, end) =~= name);
    lemma_interpolated_skip(s, end + 1, 0, look);
    assert(s.skip(end + 1) =~= rest);
}

} // verus!
