//! The fingerprint of a specification: a hash of the parts of an app whose change means that its
//! instances have to be replaced.

use crate::env::{configured_env, env_texts, with_configured, with_entries};
use crate::manifest::{App, Manifest};
use crate::order::{
    ascending, lemma_ascending_distinct, lemma_ascending_insert, lemma_text_lt_irreflexive,
    lemma_text_lt_total, lemma_text_lt_transitive, text_lt, NameMap,
};
use crate::paths::{path_parts, split_path};
use crate::text::{chars_of, decimal_text, texts};
use crate::vars::pairs;
use std::collections::hash_map::DefaultHasher;
use std::hash::Hasher;
use vstd::bytes::{
    lemma_auto_spec_u64_to_from_le_bytes, spec_u64_from_le_bytes, spec_u64_to_le_bytes,
    u64_to_le_bytes,
};
use vstd::prelude::*;
use vstd::std_specs::hash::DefaultHasherAdditionalSpecFns;

verus! {

/// The names of a list of entries.
pub open spec fn entry_names(list: Seq<(Seq<char>, Seq<char>)>) -> Seq<Seq<char>> {
    Seq::new(list.len(), |i: int| list[i].0)
}

/// Whether a list holds the entries of a map, in ascending order of their names.
pub open spec fn lists(list: Seq<(Seq<char>, Seq<char>)>, env: Map<Seq<char>, Seq<char>>) -> bool {
    &&& ascending(entry_names(list))
    &&& forall|i: int|
        0 <= i < list.len() ==> env.dom().contains((#[trigger] list[i]).0) && env[list[i].0]
            == list[i].1
    &&& forall|k: Seq<char>| #[trigger]
        env.dom().contains(k) ==> entry_names(list).contains(k)
}

/// The entries of a map in ascending order of their names.
pub open spec fn listing(env: Map<Seq<char>, Seq<char>>) -> Seq<(Seq<char>, Seq<char>)> {
    choose|list: Seq<(Seq<char>, Seq<char>)>| lists(list, env)
}

/// A text as a row of numbers: its characters, none of them 0, and a 0 behind them.
pub open spec fn text_words(s: Seq<char>) -> Seq<u64> {
    Seq::new(s.len(), |i: int| ((s[i] as u32) + 1) as u64).push(0)
}

/// A truth.
pub open spec fn flag_word(b: bool) -> u64 {
    if b {
        1
    } else {
        0
    }
}

/// A path, by its parts: how it is written does not matter.
pub open spec fn path_words(p: Seq<char>) -> Seq<u64> {
    let (absolute, here, names) = path_parts(p);
    seq![flag_word(absolute), flag_word(here)] + list_words(names)
}

/// A path that may be missing.
pub open spec fn option_words(p: Option<Seq<char>>) -> Seq<u64> {
    match p {
        None => seq![0u64],
        Some(t) => seq![1u64] + path_words(t),
    }
}

/// The parts of a path that may be missing.
pub open spec fn option_parts(p: Option<Seq<char>>) -> Option<(bool, bool, Seq<Seq<char>>)> {
    match p {
        None => None,
        Some(t) => Some(path_parts(t)),
    }
}

/// A list of texts, each with a 1 in front of it, and a 0 behind them.
pub open spec fn list_words(list: Seq<Seq<char>>) -> Seq<u64>
    decreases list.len(),
{
    if list.len() == 0 {
        seq![0u64]
    } else {
        seq![1u64] + text_words(list[0]) + list_words(list.skip(1))
    }
}

/// A list of entries.
pub open spec fn entry_words(list: Seq<(Seq<char>, Seq<char>)>) -> Seq<u64>
    decreases list.len(),
{
    if list.len() == 0 {
        seq![0u64]
    } else {
        seq![1u64] + text_words(list[0].0) + text_words(list[0].1) + entry_words(list.skip(1))
    }
}

/// The text that a string holds, where there is one.
pub open spec fn option_text(s: Option<String>) -> Option<Seq<char>> {
    match s {
        None => None,
        Some(t) => Some(t@),
    }
}

/// The row of numbers that stands for the specification of one instance.
pub open spec fn spec_words(m: Manifest, app: App, replica: nat, port: u16) -> Seq<u64> {
    path_words(app.bin@) + (list_words(texts(app.args@)) + (option_words(option_text(app.dir)) + (
    seq![port as u64] + (text_words(app.ready_path@) + (text_words(app.live_path@) + (seq![
        app.live_period,
        app.live_failures as u64,
        app.ready_timeout,
    ] + entry_words(
        listing(with_configured(Map::empty(), m, app, replica, port as nat)),
    )))))))
}

/// A row of numbers as bytes.
pub open spec fn bytes_of(words: Seq<u64>) -> Seq<u8>
    decreases words.len(),
{
    if words.len() == 0 {
        seq![]
    } else {
        bytes_of(words.drop_last()) + spec_u64_to_le_bytes(words.last())
    }
}

/// The bytes that are hashed for one instance.
pub open spec fn hashed(m: Manifest, app: App, replica: nat, port: u16) -> Seq<u8> {
    bytes_of(spec_words(m, app, replica, port))
}

/// The fingerprint of the specification of one instance.
pub open spec fn fingerprint(m: Manifest, app: App, replica: nat, port: u16) -> u64 {
    DefaultHasher::spec_finish(seq![hashed(m, app, replica, port)])
}

/// A map has one listing.
proof fn lemma_one_listing(
    a: Seq<(Seq<char>, Seq<char>)>,
    b: Seq<(Seq<char>, Seq<char>)>,
    env: Map<Seq<char>, Seq<char>>,
)
    requires
        lists(a, env),
        lists(b, env),
    ensures
        a == b,
    decreases a.len(),
{
    let x = entry_names(a);
    let y = entry_names(b);
    if a.len() == 0 {
        if b.len() > 0 {
            assert(env.dom().contains(b[0].0));
            assert(x.contains(b[0].0));
        }
        assert(a =~= b);
    } else {
        assert(env.dom().contains(a[0].0));
        assert(y.contains(x[0]));
        let j = y.index_of(x[0]);
        assert(0 <= j < y.len() && y[j] == x[0]);
        assert(env.dom().contains(b[0].0));
        assert(x.contains(y[0]));
        let i = x.index_of(y[0]);
        assert(0 <= i < x.len() && x[i] == y[0]);
        if j > 0 {
            // y[0] < y[j] == x[0] <= x[i] == y[0]
            assert(text_lt(y[0], y[j]));
            if i > 0 {
                assert(text_lt(x[0], x[i]));
                lemma_text_lt_transitive(y[0], x[0], y[0]);
            }
            lemma_text_lt_irreflexive(y[0]);
        }
        assert(a[0] == b[0]);
        let rest = env.remove(a[0].0);
        lemma_listing_rest(a, env);
        lemma_listing_rest(b, env);
        lemma_one_listing(a.skip(1), b.skip(1), rest);
        assert(a =~= seq![a[0]] + a.skip(1));
        assert(b =~= seq![b[0]] + b.skip(1));
    }
}

proof fn lemma_listing_rest(a: Seq<(Seq<char>, Seq<char>)>, env: Map<Seq<char>, Seq<char>>)
    requires
        lists(a, env),
        a.len() > 0,
    ensures
        lists(a.skip(1), env.remove(a[0].0)),
{
    let x = entry_names(a);
    let z = entry_names(a.skip(1));
    let rest = env.remove(a[0].0);
    assert forall|i: int, j: int| 0 <= i < j < z.len() implies #[trigger] text_lt(z[i], z[j]) by {
        assert(text_lt(x[i + 1], x[j + 1]));
    }
    assert forall|i: int| 0 <= i < a.skip(1).len() implies rest.dom().contains(
        (#[trigger] a.skip(1)[i]).0,
    ) && rest[a.skip(1)[i].0] == a.skip(1)[i].1 by {
        assert(a.skip(1)[i] == a[i + 1]);
        assert(text_lt(x[0], x[i + 1]));
        lemma_text_lt_irreflexive(x[0]);
    }
    assert forall|k: Seq<char>| #[trigger] rest.dom().contains(k) implies z.contains(k) by {
        assert(env.dom().contains(k));
        let i = x.index_of(k);
        assert(0 <= i < x.len() && x[i] == k);
        assert(i != 0);
        assert(z[i - 1] == k);
    }
}

/// The entries of a map, as its listing.
pub open spec fn map_entries(map: NameMap<String>) -> Seq<(Seq<char>, Seq<char>)> {
    Seq::new(map.keys().len(), |i: int| (map.keys()[i], map.values()[i]@))
}

proof fn lemma_map_listing(map: NameMap<String>)
    requires
        map.wf(),
    ensures
        listing(env_texts(map@)) == map_entries(map),
{
    let list = map_entries(map);
    let env = env_texts(map@);
    assert(entry_names(list) =~= map.keys());
    assert forall|i: int| 0 <= i < list.len() implies env.dom().contains((#[trigger] list[i]).0)
        && env[list[i].0] == list[i].1 by {
        map.lemma_entry(i);
    }
    assert(lists(list, env));
    lemma_one_listing(listing(env), list, env);
}

/// Appends a text to a row of numbers.
fn put_text(out: &mut Vec<u64>, s: &str)
    ensures
        final(out)@ == old(out)@ + text_words(s@),
{
    let chars = chars_of(s);
    let ghost row = text_words(s@);
    let mut i: usize = 0;
    while i < chars.len()
        invariant
            i <= chars@.len(),
            chars@ == s@,
            row == text_words(s@),
            out@ == old(out)@ + row.take(i as int),
        decreases chars@.len() - i,
    {
        out.push(chars[i] as u32 as u64 + 1);
        assert(row.take(i + 1) =~= row.take(i as int).push(row[i as int]));
        i += 1;
    }
    out.push(0);
    assert(row =~= row.take(i as int).push(0));
}

/// Appends a list of texts to a row of numbers.
fn put_list(out: &mut Vec<u64>, list: &Vec<String>)
    ensures
        final(out)@ == old(out)@ + list_words(texts(list@)),
{
    let ghost all = texts(list@);
    let ghost whole = old(out)@ + list_words(all);
    let mut i: usize = 0;
    assert(all.skip(0) =~= all);
    while i < list.len()
        invariant
            i <= list@.len(),
            all == texts(list@),
            out@ + list_words(all.skip(i as int)) == whole,
        decreases list@.len() - i,
    {
        let ghost before = out@;
        out.push(1);
        put_text(out, list[i].as_str());
        proof {
            let rest = all.skip(i as int);
            assert(rest[0] == list@[i as int]@);
            assert(rest.skip(1) =~= all.skip(i + 1));
            assert(before + list_words(rest) =~= out@ + list_words(all.skip(i + 1)));
        }
        i += 1;
    }
    out.push(0);
    assert(all.skip(i as int) =~= seq![]);
}

/// Appends a path to a row of numbers.
fn put_path(out: &mut Vec<u64>, p: &str)
    ensures
        final(out)@ == old(out)@ + path_words(p@),
{
    let parts = split_path(p);
    out.push(if parts.absolute {
        1
    } else {
        0
    });
    out.push(if parts.here {
        1
    } else {
        0
    });
    put_list(out, &parts.names);
    assert(out@ =~= old(out)@ + path_words(p@));
}

/// Appends a path that may be missing to a row of numbers.
fn put_option(out: &mut Vec<u64>, s: &Option<String>)
    ensures
        final(out)@ == old(out)@ + option_words(option_text(*s)),
{
    match s {
        None => {
            out.push(0);
        },
        Some(t) => {
            out.push(1);
            put_path(out, t.as_str());
            assert(out@ =~= old(out)@ + (seq![1u64] + path_words(t@)));
        },
    }
}

/// Appends the entries of a map to a row of numbers.
fn put_entries(out: &mut Vec<u64>, map: &NameMap<String>)
    ensures
        final(out)@ == old(out)@ + entry_words(map_entries(*map)),
{
    let ghost all = map_entries(*map);
    let ghost whole = old(out)@ + entry_words(all);
    let mut i: usize = 0;
    assert(all.skip(0) =~= all);
    while i < map.len()
        invariant
            i <= map.keys().len(),
            all == map_entries(*map),
            out@ + entry_words(all.skip(i as int)) == whole,
        decreases map.keys().len() - i,
    {
        let ghost before = out@;
        out.push(1);
        put_text(out, map.key(i));
        put_text(out, map.value(i).as_str());
        proof {
            let rest = all.skip(i as int);
            assert(rest[0] == all[i as int]);
            assert(rest.skip(1) =~= all.skip(i + 1));
            assert(before + entry_words(rest) =~= out@ + entry_words(all.skip(i + 1)));
        }
        i += 1;
    }
    out.push(0);
    assert(all.skip(i as int) =~= seq![]);
}

/// The bytes of a row of numbers.
fn to_bytes(words: &Vec<u64>) -> (out: Vec<u8>)
    ensures
        out@ == bytes_of(words@),
{
    let mut out: Vec<u8> = Vec::new();
    let mut i: usize = 0;
    assert(words@.take(0) =~= seq![]);
    while i < words.len()
        invariant
            i <= words@.len(),
            out@ == bytes_of(words@.take(i as int)),
        decreases words@.len() - i,
    {
        let mut b = u64_to_le_bytes(words[i]);
        out.append(&mut b);
        proof {
            assert(words@.take(i + 1).drop_last() =~= words@.take(i as int));
        }
        i += 1;
    }
    assert(words@.take(i as int) =~= words@);
    out
}

/// Rows put together one by one are the rows put together.
proof fn lemma_one_row(
    a: Seq<u64>,
    b: Seq<u64>,
    c: Seq<u64>,
    d: Seq<u64>,
    e: Seq<u64>,
    f: Seq<u64>,
    g: Seq<u64>,
    h: Seq<u64>,
)
    ensures
        a + b + c + d + e + f + g + h == a + (b + (c + (d + (e + (f + (g + h)))))),
{
    assert(a + b + c + d + e + f + g + h =~= a + (b + (c + (d + (e + (f + (g + h)))))));
}

/// The fingerprint of the specification of one instance. How many replicas the app has is not
/// part of it, nor is what an instance inherits from its parent's environment.
pub fn spec_hash(manifest: &Manifest, app: &App, replica: u32, port: u16) -> (h: u64)
    ensures
        h == fingerprint(*manifest, *app, replica as nat, port),
{
    let env = configured_env(manifest, app, replica, port);
    proof {
        lemma_map_listing(env);
    }
    let ghost numbers = seq![app.live_period, app.live_failures as u64, app.ready_timeout];
    let mut words: Vec<u64> = Vec::new();
    put_path(&mut words, app.bin.as_str());
    assert(words@ =~= path_words(app.bin@));
    put_list(&mut words, &app.args);
    put_option(&mut words, &app.dir);
    let ghost before = words@;
    words.push(port as u64);
    assert(words@ =~= before + seq![port as u64]);
    put_text(&mut words, app.ready_path.as_str());
    put_text(&mut words, app.live_path.as_str());
    let ghost before = words@;
    words.push(app.live_period);
    words.push(app.live_failures as u64);
    words.push(app.ready_timeout);
    assert(words@ =~= before + numbers);
    put_entries(&mut words, &env);
    proof {
        lemma_one_row(
            path_words(app.bin@),
            list_words(texts(app.args@)),
            option_words(option_text(app.dir)),
            seq![port as u64],
            text_words(app.ready_path@),
            text_words(app.live_path@),
            numbers,
            entry_words(map_entries(env)),
        );
    }
    assert(words@ == spec_words(*manifest, *app, replica as nat, port));
    let bytes = to_bytes(&words);
    let mut h = DefaultHasher::new();
    h.write(bytes.as_slice());
    proof {
        assert(h@ =~= seq![hashed(*manifest, *app, replica as nat, port)]);
    }
    h.finish()
}

/// Whether two instances have one specification: everything that an instance is started with and
/// probed by.
pub open spec fn same_spec(
    m1: Manifest,
    app1: App,
    replica1: nat,
    port1: u16,
    m2: Manifest,
    app2: App,
    replica2: nat,
    port2: u16,
) -> bool {
    &&& path_parts(app1.bin@) == path_parts(app2.bin@)
    &&& texts(app1.args@) == texts(app2.args@)
    &&& option_parts(option_text(app1.dir)) == option_parts(option_text(app2.dir))
    &&& port1 == port2
    &&& app1.ready_path@ == app2.ready_path@
    &&& app1.live_path@ == app2.live_path@
    &&& app1.live_period == app2.live_period
    &&& app1.live_failures == app2.live_failures
    &&& app1.ready_timeout == app2.ready_timeout
    &&& with_configured(Map::empty(), m1, app1, replica1, port1 as nat) == with_configured(
        Map::empty(),
        m2,
        app2,
        replica2,
        port2 as nat,
    )
}

/// The place of a name in an ascending list: how many names stand before it.
spec fn place_of(names: Seq<Seq<char>>, k: Seq<char>, from: int) -> int
    decreases names.len() - from,
{
    if from < 0 || from >= names.len() || !text_lt(names[from], k) {
        from
    } else {
        place_of(names, k, from + 1)
    }
}

proof fn lemma_place_of(names: Seq<Seq<char>>, k: Seq<char>, from: int)
    requires
        0 <= from <= names.len(),
        forall|i: int| 0 <= i < from ==> text_lt(#[trigger] names[i], k),
    ensures
        from <= place_of(names, k, from) <= names.len(),
        forall|i: int| 0 <= i < place_of(names, k, from) ==> text_lt(#[trigger] names[i], k),
        place_of(names, k, from) < names.len() ==> !text_lt(names[place_of(names, k, from)], k),
    decreases names.len() - from,
{
    if from < names.len() && text_lt(names[from], k) {
        lemma_place_of(names, k, from + 1);
    }
}

/// A map that has a listing has one after one more entry.
proof fn lemma_listing_insert(
    list: Seq<(Seq<char>, Seq<char>)>,
    env: Map<Seq<char>, Seq<char>>,
    k: Seq<char>,
    v: Seq<char>,
)
    requires
        lists(list, env),
    ensures
        lists(listing(env.insert(k, v)), env.insert(k, v)),
{
    let names = entry_names(list);
    let after = env.insert(k, v);
    if names.contains(k) {
        let i = names.index_of(k);
        assert(0 <= i < names.len() && names[i] == k);
        let out = list.update(i, (k, v));
        assert(entry_names(out) =~= names);
        assert forall|j: int| 0 <= j < out.len() implies after.dom().contains((#[trigger] out[j]).0)
            && after[out[j].0] == out[j].1 by {
            if j != i {
                assert(out[j] == list[j]);
                if names[j] == names[i] {
                    lemma_ascending_distinct(names, i, j);
                }
            }
        }
        assert forall|x: Seq<char>| #[trigger] after.dom().contains(x) implies entry_names(
            out,
        ).contains(x) by {
            if x != k {
                assert(env.dom().contains(x));
            }
        }
        assert(lists(out, after));
    } else {
        let at = place_of(names, k, 0);
        lemma_place_of(names, k, 0);
        assert forall|i: int| at <= i < names.len() implies text_lt(k, #[trigger] names[i]) by {
            assert(names.contains(names[at]));
            lemma_text_lt_total(names[at], k);
            if i > at {
                assert(text_lt(names[at], names[i]));
                lemma_text_lt_transitive(k, names[at], names[i]);
            }
        }
        lemma_ascending_insert(names, at, k);
        let out = list.insert(at, (k, v));
        assert(entry_names(out) =~= names.insert(at, k));
        assert forall|j: int| 0 <= j < out.len() implies after.dom().contains((#[trigger] out[j]).0)
            && after[out[j].0] == out[j].1 by {
            if j < at {
                assert(out[j] == list[j]);
                assert(names.contains(names[j]));
            } else if j > at {
                assert(out[j] == list[j - 1]);
                assert(names.contains(names[j - 1]));
            }
        }
        assert forall|x: Seq<char>| #[trigger] after.dom().contains(x) implies entry_names(
            out,
        ).contains(x) by {
            if x == k {
                assert(entry_names(out)[at] == k);
            } else {
                assert(env.dom().contains(x));
                let i = names.index_of(x);
                assert(0 <= i < names.len() && names[i] == x);
                if i < at {
                    assert(entry_names(out)[i] == x);
                } else {
                    assert(entry_names(out)[i + 1] == x);
                }
            }
        }
        assert(lists(out, after));
    }
}

proof fn lemma_listing_entries(
    env: Map<Seq<char>, Seq<char>>,
    list: Seq<(Seq<char>, Seq<char>)>,
)
    requires
        lists(listing(env), env),
    ensures
        lists(listing(with_entries(env, list)), with_entries(env, list)),
    decreases list.len(),
{
    if list.len() > 0 {
        lemma_listing_entries(env, list.drop_last());
        let before = with_entries(env, list.drop_last());
        lemma_listing_insert(listing(before), before, list.last().0, list.last().1);
    }
}

proof fn lemma_configured_has_listing(m: Manifest, app: App, replica: nat, port: nat)
    ensures
        lists(
            listing(with_configured(Map::empty(), m, app, replica, port)),
            with_configured(Map::empty(), m, app, replica, port),
        ),
{
    let empty: Map<Seq<char>, Seq<char>> = Map::empty();
    let none: Seq<(Seq<char>, Seq<char>)> = seq![];
    assert(lists(none, empty));
    lemma_listing_entries(empty, pairs(m.defaults.env@));
    let a = with_entries(empty, pairs(m.defaults.env@));
    lemma_listing_entries(a, pairs(app.env@));
    let b = with_entries(a, pairs(app.env@));
    lemma_listing_insert(listing(b), b, "PORT"@, decimal_text(port));
    let c = b.insert("PORT"@, decimal_text(port));
    lemma_listing_insert(listing(c), c, "ARTZAIN_APP"@, app.name@);
    let d = c.insert("ARTZAIN_APP"@, app.name@);
    lemma_listing_insert(listing(d), d, "ARTZAIN_REPLICA"@, decimal_text(replica));
}

/// Rows that begin with the same number go on alike.
proof fn lemma_same_head(w: u64, x: Seq<u64>, v: u64, y: Seq<u64>)
    requires
        seq![w] + x == seq![v] + y,
    ensures
        w == v,
        x == y,
{
    let a = seq![w] + x;
    let b = seq![v] + y;
    assert(a[0] == w && b[0] == v);
    assert(x =~= a.skip(1));
    assert(y =~= b.skip(1));
}

/// Where a text ends can be told from its row.
proof fn lemma_text_words(a: Seq<char>, x: Seq<u64>, b: Seq<char>, y: Seq<u64>)
    requires
        text_words(a) + x == text_words(b) + y,
    ensures
        a == b,
        x == y,
    decreases a.len(),
{
    if a.len() == 0 {
        assert(text_words(a) =~= seq![0u64]);
        if b.len() == 0 {
            assert(text_words(b) =~= seq![0u64]);
            lemma_same_head(0, x, 0, y);
            assert(a =~= b);
        } else {
            assert((text_words(a) + x)[0] == 0);
            assert((text_words(b) + y)[0] == text_words(b)[0]);
        }
    } else if b.len() == 0 {
        assert((text_words(a) + x)[0] == text_words(a)[0]);
        assert((text_words(b) + y)[0] == 0);
    } else {
        let wa = ((a[0] as u32) + 1) as u64;
        let wb = ((b[0] as u32) + 1) as u64;
        assert(text_words(a) + x =~= seq![wa] + (text_words(a.skip(1)) + x));
        assert(text_words(b) + y =~= seq![wb] + (text_words(b.skip(1)) + y));
        lemma_same_head(wa, text_words(a.skip(1)) + x, wb, text_words(b.skip(1)) + y);
        vstd::utf8::char_u32_cast(a[0], a[0] as u32);
        vstd::utf8::char_u32_cast(b[0], b[0] as u32);
        lemma_text_words(a.skip(1), x, b.skip(1), y);
        assert(a =~= seq![a[0]] + a.skip(1));
        assert(b =~= seq![b[0]] + b.skip(1));
    }
}

/// Where a path ends can be told from its row.
proof fn lemma_path_words(a: Seq<char>, x: Seq<u64>, b: Seq<char>, y: Seq<u64>)
    requires
        path_words(a) + x == path_words(b) + y,
    ensures
        path_parts(a) == path_parts(b),
        x == y,
{
    let (a0, a1, a2) = path_parts(a);
    let (b0, b1, b2) = path_parts(b);
    let ra = list_words(a2) + x;
    let rb = list_words(b2) + y;
    assert(path_words(a) + x =~= seq![flag_word(a0)] + (seq![flag_word(a1)] + ra));
    assert(path_words(b) + y =~= seq![flag_word(b0)] + (seq![flag_word(b1)] + rb));
    lemma_same_head(flag_word(a0), seq![flag_word(a1)] + ra, flag_word(b0), seq![flag_word(b1)] + rb);
    lemma_same_head(flag_word(a1), ra, flag_word(b1), rb);
    lemma_list_words(a2, x, b2, y);
}

proof fn lemma_option_words(a: Option<Seq<char>>, x: Seq<u64>, b: Option<Seq<char>>, y: Seq<u64>)
    requires
        option_words(a) + x == option_words(b) + y,
    ensures
        option_parts(a) == option_parts(b),
        x == y,
{
    let ta = match a {
        None => x,
        Some(t) => path_words(t) + x,
    };
    let tb = match b {
        None => y,
        Some(t) => path_words(t) + y,
    };
    let ha = flag_word(a is Some);
    let hb = flag_word(b is Some);
    assert(option_words(a) + x =~= seq![ha] + ta);
    assert(option_words(b) + y =~= seq![hb] + tb);
    lemma_same_head(ha, ta, hb, tb);
    if let (Some(s), Some(t)) = (a, b) {
        lemma_path_words(s, x, t, y);
    }
}

proof fn lemma_list_words(a: Seq<Seq<char>>, x: Seq<u64>, b: Seq<Seq<char>>, y: Seq<u64>)
    requires
        list_words(a) + x == list_words(b) + y,
    ensures
        a == b,
        x == y,
    decreases a.len(),
{
    let ta = if a.len() == 0 {
        x
    } else {
        text_words(a[0]) + (list_words(a.skip(1)) + x)
    };
    let tb = if b.len() == 0 {
        y
    } else {
        text_words(b[0]) + (list_words(b.skip(1)) + y)
    };
    let ha: u64 = if a.len() == 0 {
        0
    } else {
        1
    };
    let hb: u64 = if b.len() == 0 {
        0
    } else {
        1
    };
    assert(list_words(a) + x =~= seq![ha] + ta);
    assert(list_words(b) + y =~= seq![hb] + tb);
    lemma_same_head(ha, ta, hb, tb);
    if a.len() > 0 {
        lemma_text_words(a[0], list_words(a.skip(1)) + x, b[0], list_words(b.skip(1)) + y);
        lemma_list_words(a.skip(1), x, b.skip(1), y);
        assert(a =~= seq![a[0]] + a.skip(1));
        assert(b =~= seq![b[0]] + b.skip(1));
    } else {
        assert(a =~= b);
    }
}

proof fn lemma_entry_words(
    a: Seq<(Seq<char>, Seq<char>)>,
    x: Seq<u64>,
    b: Seq<(Seq<char>, Seq<char>)>,
    y: Seq<u64>,
)
    requires
        entry_words(a) + x == entry_words(b) + y,
    ensures
        a == b,
        x == y,
    decreases a.len(),
{
    let ra = entry_words(a.skip(1)) + x;
    let rb = entry_words(b.skip(1)) + y;
    let ta = if a.len() == 0 {
        x
    } else {
        text_words(a[0].0) + (text_words(a[0].1) + ra)
    };
    let tb = if b.len() == 0 {
        y
    } else {
        text_words(b[0].0) + (text_words(b[0].1) + rb)
    };
    let ha: u64 = if a.len() == 0 {
        0
    } else {
        1
    };
    let hb: u64 = if b.len() == 0 {
        0
    } else {
        1
    };
    assert(entry_words(a) + x =~= seq![ha] + ta);
    assert(entry_words(b) + y =~= seq![hb] + tb);
    lemma_same_head(ha, ta, hb, tb);
    if a.len() > 0 {
        lemma_text_words(a[0].0, text_words(a[0].1) + ra, b[0].0, text_words(b[0].1) + rb);
        lemma_text_words(a[0].1, ra, b[0].1, rb);
        lemma_entry_words(a.skip(1), x, b.skip(1), y);
        assert(a =~= seq![a[0]] + a.skip(1));
        assert(b =~= seq![b[0]] + b.skip(1));
    } else {
        assert(a =~= b);
    }
}

proof fn lemma_bytes_of_len(words: Seq<u64>)
    ensures
        bytes_of(words).len() == 8 * words.len(),
    decreases words.len(),
{
    lemma_auto_spec_u64_to_from_le_bytes();
    if words.len() > 0 {
        lemma_bytes_of_len(words.drop_last());
    }
}

/// Rows with the same bytes are the same.
proof fn lemma_bytes_of(a: Seq<u64>, b: Seq<u64>)
    requires
        bytes_of(a) == bytes_of(b),
    ensures
        a == b,
    decreases a.len(),
{
    lemma_bytes_of_len(a);
    lemma_bytes_of_len(b);
    if a.len() == 0 {
        assert(a =~= b);
    } else {
        lemma_auto_spec_u64_to_from_le_bytes();
        lemma_bytes_of_len(a.drop_last());
        let k = bytes_of(a.drop_last()).len() as int;
        lemma_bytes_of_len(b.drop_last());
        assert(bytes_of(a).take(k) =~= bytes_of(a.drop_last()));
        assert(bytes_of(b).take(k) =~= bytes_of(b.drop_last()));
        assert(bytes_of(a).skip(k) =~= spec_u64_to_le_bytes(a.last()));
        assert(bytes_of(b).skip(k) =~= spec_u64_to_le_bytes(b.last()));
        assert(a.last() == spec_u64_from_le_bytes(spec_u64_to_le_bytes(a.last())));
        assert(b.last() == spec_u64_from_le_bytes(spec_u64_to_le_bytes(b.last())));
        lemma_bytes_of(a.drop_last(), b.drop_last());
        assert(a =~= a.drop_last().push(a.last()));
        assert(b =~= b.drop_last().push(b.last()));
    }
}

/// What is hashed for two instances is the same exactly where they have the same specification:
/// a change to anything that an instance is started with or probed by changes the hashed bytes,
/// and a change to anything else (the number of replicas, the parent's environment) does not.
pub proof fn law_hashed_iff_same_spec(
    m1: Manifest,
    app1: App,
    replica1: nat,
    port1: u16,
    m2: Manifest,
    app2: App,
    replica2: nat,
    port2: u16,
)
    ensures
        hashed(m1, app1, replica1, port1) == hashed(m2, app2, replica2, port2) <==> same_spec(
            m1,
            app1,
            replica1,
            port1,
            m2,
            app2,
            replica2,
            port2,
        ),
        same_spec(m1, app1, replica1, port1, m2, app2, replica2, port2) ==> fingerprint(
            m1,
            app1,
            replica1,
            port1,
        ) == fingerprint(m2, app2, replica2, port2),
{
    if hashed(m1, app1, replica1, port1) == hashed(m2, app2, replica2, port2) {
        let w1 = spec_words(m1, app1, replica1, port1);
        let w2 = spec_words(m2, app2, replica2, port2);
        lemma_bytes_of(w1, w2);
        let env1 = with_configured(Map::empty(), m1, app1, replica1, port1 as nat);
        let env2 = with_configured(Map::empty(), m2, app2, replica2, port2 as nat);
        let g1 = entry_words(listing(env1));
        let g2 = entry_words(listing(env2));
        let n1 = seq![app1.live_period, app1.live_failures as u64, app1.ready_timeout];
        let n2 = seq![app2.live_period, app2.live_failures as u64, app2.ready_timeout];
        let f1 = n1 + g1;
        let f2 = n2 + g2;
        let e1 = text_words(app1.live_path@) + f1;
        let e2 = text_words(app2.live_path@) + f2;
        let d1 = text_words(app1.ready_path@) + e1;
        let d2 = text_words(app2.ready_path@) + e2;
        let c1 = seq![port1 as u64] + d1;
        let c2 = seq![port2 as u64] + d2;
        let b1 = option_words(option_text(app1.dir)) + c1;
        let b2 = option_words(option_text(app2.dir)) + c2;
        let a1 = list_words(texts(app1.args@)) + b1;
        let a2 = list_words(texts(app2.args@)) + b2;
        lemma_path_words(app1.bin@, a1, app2.bin@, a2);
        lemma_list_words(texts(app1.args@), b1, texts(app2.args@), b2);
        lemma_option_words(option_text(app1.dir), c1, option_text(app2.dir), c2);
        lemma_same_head(port1 as u64, d1, port2 as u64, d2);
        lemma_text_words(app1.ready_path@, e1, app2.ready_path@, e2);
        lemma_text_words(app1.live_path@, f1, app2.live_path@, f2);
        assert(f1[0] == n1[0] && f1[1] == n1[1] && f1[2] == n1[2]);
        assert(f2[0] == n2[0] && f2[1] == n2[1] && f2[2] == n2[2]);
        assert(g1 =~= f1.skip(3));
        assert(g2 =~= f2.skip(3));
        assert(g1 + seq![] =~= g1);
        assert(g2 + seq![] =~= g2);
        lemma_entry_words(listing(env1), seq![], listing(env2), seq![]);
        lemma_configured_has_listing(m1, app1, replica1, port1 as nat);
        lemma_configured_has_listing(m2, app2, replica2, port2 as nat);
        let list = listing(env1);
        assert forall|k: Seq<char>| env1.dom().contains(k) <==> #[trigger] env2.dom().contains(
            k,
        ) by {
            if env1.dom().contains(k) {
                let i = entry_names(list).index_of(k);
                assert(list[i].0 == k);
            }
            if env2.dom().contains(k) {
                let i = entry_names(list).index_of(k);
                assert(list[i].0 == k);
            }
        }
        assert forall|k: Seq<char>| #[trigger] env1.dom().contains(k) implies env1[k]
            == env2[k] by {
            let i = entry_names(list).index_of(k);
            assert(list[i].0 == k);
        }
        assert(env1 =~= env2);
    }
}

} // verus!
