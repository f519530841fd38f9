//! The environment of an instance.

use crate::manifest::{App, BASE_ENV_KEYS, DEFAULT_PATH, Manifest};
use crate::order::NameMap;
use crate::text::{decimal, decimal_text, texts};
use crate::vars::{find_value, pairs, value_of};
use vstd::prelude::*;

verus! {

/// The texts of an environment.
pub open spec fn env_texts(env: Map<Seq<char>, String>) -> Map<Seq<char>, Seq<char>> {
    Map::new(|k: Seq<char>| env.dom().contains(k), |k: Seq<char>| env[k]@)
}

/// An environment with a list of entries put over it, the later ones over the earlier ones.
pub open spec fn with_entries(
    env: Map<Seq<char>, Seq<char>>,
    list: Seq<(Seq<char>, Seq<char>)>,
) -> Map<Seq<char>, Seq<char>>
    decreases list.len(),
{
    if list.len() == 0 {
        env
    } else {
        with_entries(env, list.drop_last()).insert(list.last().0, list.last().1)
    }
}

/// The environment with what `parent` has of the names put over it.
pub open spec fn with_inherited(
    env: Map<Seq<char>, Seq<char>>,
    parent: Seq<(Seq<char>, Seq<char>)>,
    names: Seq<Seq<char>>,
) -> Map<Seq<char>, Seq<char>>
    decreases names.len(),
{
    if names.len() == 0 {
        env
    } else {
        let before = with_inherited(env, parent, names.drop_last());
        match value_of(parent, names.last()) {
            Some(v) => before.insert(names.last(), v),
            None => before,
        }
    }
}

/// The names that every child inherits, but for `PATH`.
pub open spec fn base_names() -> Seq<Seq<char>> {
    seq![
        "HOME"@,
        "TMPDIR"@,
        "USER"@,
        "LOGNAME"@,
        "SHELL"@,
        "LANG"@,
        "LC_ALL"@,
    ]
}

/// What a child inherits from its parent: the base names that the parent has, and a `PATH`
/// whether it has one or not.
pub open spec fn base_env(parent: Seq<(Seq<char>, Seq<char>)>) -> Map<Seq<char>, Seq<char>> {
    let path = match value_of(parent, "PATH"@) {
        Some(v) => v,
        None => DEFAULT_PATH@,
    };
    with_inherited(map!["PATH"@ => path], parent, base_names())
}

/// What the manifest says of an instance's environment, put over `env`: the defaults, then the
/// app's own entries, then the entries that tell the instance who it is.
pub open spec fn with_configured(
    env: Map<Seq<char>, Seq<char>>,
    m: Manifest,
    app: App,
    replica: nat,
    port: nat,
) -> Map<Seq<char>, Seq<char>> {
    with_entries(with_entries(env, pairs(m.defaults.env@)), pairs(app.env@)).insert(
        "PORT"@,
        decimal_text(port),
    ).insert("ARTZAIN_APP"@, app.name@).insert("ARTZAIN_REPLICA"@, decimal_text(replica))
}

/// The whole environment of an instance.
pub open spec fn instance_env_texts(
    parent: Seq<(Seq<char>, Seq<char>)>,
    m: Manifest,
    app: App,
    replica: nat,
    port: nat,
) -> Map<Seq<char>, Seq<char>> {
    with_configured(
        with_inherited(base_env(parent), parent, texts(m.defaults.inherit_env@)),
        m,
        app,
        replica,
        port,
    )
}

/// Puts one entry into an environment.
fn put(env: &mut NameMap<String>, name: &str, value: &str)
    requires
        old(env).wf(),
    ensures
        final(env).wf(),
        env_texts(final(env)@) == env_texts(old(env)@).insert(name@, value@),
{
    let ghost before = env@;
    let v = value.to_owned();
    let ghost w = v;
    env.insert(name.to_owned(), v);
    assert(env_texts(before.insert(name@, w)) =~= env_texts(before).insert(name@, value@));
}

/// Puts a list of entries into an environment.
fn put_all(env: &mut NameMap<String>, list: &Vec<(String, String)>)
    requires
        old(env).wf(),
    ensures
        final(env).wf(),
        env_texts(final(env)@) == with_entries(env_texts(old(env)@), pairs(list@)),
{
    let ghost all = pairs(list@);
    let mut i: usize = 0;
    assert(all.take(0) =~= seq![]);
    while i < list.len()
        invariant
            i <= list@.len(),
            all == pairs(list@),
            env.wf(),
            env_texts(env@) == with_entries(env_texts(old(env)@), all.take(i as int)),
        decreases list@.len() - i,
    {
        put(env, list[i].0.as_str(), list[i].1.as_str());
        proof {
            assert(all.take(i + 1).drop_last() =~= all.take(i as int));
            assert(all.take(i + 1).last() == all[i as int]);
        }
        i += 1;
    }
    assert(all.take(i as int) =~= all);
}

/// Puts into an environment what the parent has of one name.
fn inherit(env: &mut NameMap<String>, parent: &Vec<(String, String)>, name: &str)
    requires
        old(env).wf(),
    ensures
        final(env).wf(),
        env_texts(final(env)@) == match value_of(pairs(parent@), name@) {
            Some(v) => env_texts(old(env)@).insert(name@, v),
            None => env_texts(old(env)@),
        },
{
    match find_value(parent, name) {
        Some(v) => put(env, name, v.as_str()),
        None => {},
    }
}

/// The manifest's part of the environment, over what `env` holds.
fn configure(env: &mut NameMap<String>, manifest: &Manifest, app: &App, replica: u32, port: u16)
    requires
        old(env).wf(),
    ensures
        final(env).wf(),
        env_texts(final(env)@) == with_configured(
            env_texts(old(env)@),
            *manifest,
            *app,
            replica as nat,
            port as nat,
        ),
{
    put_all(env, &manifest.defaults.env);
    put_all(env, &app.env);
    let p = decimal(port as u64);
    put(env, "PORT", p.as_str());
    put(env, "ARTZAIN_APP", app.name.as_str());
    let r = decimal(replica as u64);
    put(env, "ARTZAIN_REPLICA", r.as_str());
}

/// The environment of one instance: what it inherits from `parent`, and over that what the
/// manifest says. A child has nothing else in its environment.
pub fn instance_env(
    parent: &Vec<(String, String)>,
    manifest: &Manifest,
    app: &App,
    replica: u32,
    port: u16,
) -> (env: NameMap<String>)
    ensures
        env.wf(),
        env_texts(env@) == instance_env_texts(
            pairs(parent@),
            *manifest,
            *app,
            replica as nat,
            port as nat,
        ),
{
    let mut env: NameMap<String> = NameMap::new();
    assert(env_texts(env@) =~= Map::empty());
    let path = match find_value(parent, "PATH") {
        Some(v) => v.as_str(),
        None => DEFAULT_PATH,
    };
    put(&mut env, "PATH", path);
    assert(env_texts(env@) =~= map!["PATH"@ => path@]);
    let ghost start = env_texts(env@);
    let ghost names = base_names();
    let mut i: usize = 1;
    assert(names.take(0) =~= seq![]);
    while i < 8
        invariant
            1 <= i <= 8,
            env.wf(),
            names == base_names(),
            env_texts(env@) == with_inherited(start, pairs(parent@), names.take(i - 1)),
        decreases 8 - i,
    {
        let key = BASE_ENV_KEYS[i];
        proof {
            assert(names.take(i as int).drop_last() =~= names.take(i - 1));
            assert(names.take(i as int).last() == key@);
        }
        inherit(&mut env, parent, key);
        i += 1;
    }
    assert(names.take(7) =~= names);
    let ghost base = env_texts(env@);
    let keys = &manifest.defaults.inherit_env;
    let ghost all = texts(keys@);
    let mut k: usize = 0;
    assert(all.take(0) =~= seq![]);
    while k < keys.len()
        invariant
            k <= keys@.len(),
            all == texts(keys@),
            env.wf(),
            env_texts(env@) == with_inherited(base, pairs(parent@), all.take(k as int)),
        decreases keys@.len() - k,
    {
        inherit(&mut env, parent, keys[k].as_str());
        proof {
            assert(all.take(k + 1).drop_last() =~= all.take(k as int));
            assert(all.take(k + 1).last() == keys@[k as int]@);
        }
        k += 1;
    }
    assert(all.take(k as int) =~= all);
    configure(&mut env, manifest, app, replica, port);
    env
}

/// The part of an instance's environment that the manifest configures. What the instance inherits
/// is left out, so that a change there replaces nothing.
pub fn configured_env(manifest: &Manifest, app: &App, replica: u32, port: u16) -> (env: NameMap<
    String,
>)
    ensures
        env.wf(),
        env_texts(env@) == with_configured(
            Map::empty(),
            *manifest,
            *app,
            replica as nat,
            port as nat,
        ),
{
    let mut env: NameMap<String> = NameMap::new();
    assert(env_texts(env@) =~= Map::empty());
    configure(&mut env, manifest, app, replica, port);
    env
}

/// The names of a list of entries.
pub open spec fn names_of(list: Seq<(Seq<char>, Seq<char>)>) -> Set<Seq<char>> {
    Set::new(|n: Seq<char>| exists|i: int| 0 <= i < list.len() && (#[trigger] list[i]).0 == n)
}

/// Entries add their names, and leave what has other names.
pub proof fn lemma_with_entries_names(
    env: Map<Seq<char>, Seq<char>>,
    list: Seq<(Seq<char>, Seq<char>)>,
    n: Seq<char>,
)
    ensures
        with_entries(env, list).dom().contains(n) <==> env.dom().contains(n) || names_of(
            list,
        ).contains(n),
        !names_of(list).contains(n) && env.dom().contains(n) ==> with_entries(env, list)[n]
            == env[n],
    decreases list.len(),
{
    if list.len() > 0 {
        let head = list.drop_last();
        lemma_with_entries_names(env, head, n);
        if names_of(head).contains(n) {
            let i = choose|i: int| 0 <= i < head.len() && (#[trigger] head[i]).0 == n;
            assert(list[i].0 == n);
        }
        if names_of(list).contains(n) && n != list.last().0 {
            let i = choose|i: int| 0 <= i < list.len() && (#[trigger] list[i]).0 == n;
            assert(head[i].0 == n);
        }
        if n == list.last().0 {
            assert(list[list.len() - 1].0 == n);
        }
    }
}

/// Inheriting adds the names that the parent has, with its values, and leaves the rest.
pub proof fn lemma_with_inherited_names(
    env: Map<Seq<char>, Seq<char>>,
    parent: Seq<(Seq<char>, Seq<char>)>,
    names: Seq<Seq<char>>,
    n: Seq<char>,
)
    ensures
        with_inherited(env, parent, names).dom().contains(n) <==> env.dom().contains(n) || (
        names.contains(n) && value_of(parent, n) is Some),
        with_inherited(env, parent, names).dom().contains(n) ==> with_inherited(
            env,
            parent,
            names,
        )[n] == if names.contains(n) && value_of(parent, n) is Some {
            value_of(parent, n)->0
        } else {
            env[n]
        },
    decreases names.len(),
{
    if names.len() > 0 {
        let head = names.drop_last();
        lemma_with_inherited_names(env, parent, head, n);
        if head.contains(n) {
            let i = choose|i: int| 0 <= i < head.len() && head[i] == n;
            assert(names[i] == n);
        }
        if names.contains(n) && n != names.last() {
            let i = choose|i: int| 0 <= i < names.len() && names[i] == n;
            assert(head[i] == n);
        }
        if n == names.last() {
            assert(names[names.len() - 1] == n);
        }
    }
}

/// The names that tell an instance who it is.
pub open spec fn is_pointer(n: Seq<char>) -> bool {
    n == "PORT"@ || n == "ARTZAIN_APP"@ || n == "ARTZAIN_REPLICA"@
}

/// An instance sees nothing of its parent's environment but what it is meant to: a name is in its
/// environment only as `PATH`, as one of the base names, as one that the manifest lets it
/// inherit, as one that the manifest sets, or as one that tells it who it is. What is inherited
/// has the parent's value, unless the manifest sets it.
pub proof fn law_environment_is_isolated(
    parent: Seq<(Seq<char>, Seq<char>)>,
    m: Manifest,
    app: App,
    replica: nat,
    port: nat,
    n: Seq<char>,
)
    ensures
        ({
            let env = instance_env_texts(parent, m, app, replica, port);
            let set = names_of(pairs(m.defaults.env@)).contains(n) || names_of(
                pairs(app.env@),
            ).contains(n) || is_pointer(n);
            let inherited = (base_names().contains(n) || texts(
                m.defaults.inherit_env@,
            ).contains(n)) && value_of(parent, n) is Some;
            &&& env.dom().contains(n) <==> n == "PATH"@ || inherited || set
            &&& inherited && !set ==> env[n] == value_of(parent, n)->0
        }),
{
    let path = match value_of(parent, "PATH"@) {
        Some(v) => v,
        None => DEFAULT_PATH@,
    };
    let a = map!["PATH"@ => path];
    lemma_with_inherited_names(a, parent, base_names(), n);
    let b = base_env(parent);
    lemma_with_inherited_names(b, parent, texts(m.defaults.inherit_env@), n);
    let c = with_inherited(b, parent, texts(m.defaults.inherit_env@));
    lemma_with_entries_names(c, pairs(m.defaults.env@), n);
    let d = with_entries(c, pairs(m.defaults.env@));
    lemma_with_entries_names(d, pairs(app.env@), n);
}

/// What tells an instance who it is always does so, whatever the manifest sets.
pub proof fn law_pointers_are_the_instance_own(
    parent: Seq<(Seq<char>, Seq<char>)>,
    m: Manifest,
    app: App,
    replica: nat,
    port: nat,
)
    ensures
        instance_env_texts(parent, m, app, replica, port)["PORT"@] == decimal_text(port),
        instance_env_texts(parent, m, app, replica, port)["ARTZAIN_APP"@] == app.name@,
        instance_env_texts(parent, m, app, replica, port)["ARTZAIN_REPLICA"@] == decimal_text(
            replica,
        ),
{
    reveal_strlit("PORT");
    reveal_strlit("ARTZAIN_APP");
    reveal_strlit("ARTZAIN_REPLICA");
    assert("PORT"@.len() == 4);
    assert("ARTZAIN_APP"@.len() == 11);
    assert("ARTZAIN_REPLICA"@.len() == 15);
}

/// The value that a list of entries gives a name: that of the last entry of the name.
pub open spec fn last_value(list: Seq<(Seq<char>, Seq<char>)>, n: Seq<char>) -> Option<Seq<char>>
    decreases list.len(),
{
    if list.len() == 0 {
        None
    } else if list.last().0 == n {
        Some(list.last().1)
    } else {
        last_value(list.drop_last(), n)
    }
}

proof fn lemma_with_entries_value(
    env: Map<Seq<char>, Seq<char>>,
    list: Seq<(Seq<char>, Seq<char>)>,
    n: Seq<char>,
)
    ensures
        with_entries(env, list)[n] == match last_value(list, n) {
            Some(v) => v,
            None => env[n],
        },
    decreases list.len(),
{
    if list.len() > 0 {
        lemma_with_entries_value(env, list.drop_last(), n);
    }
}

/// An app's own entries win over the defaults, and the defaults over what is inherited.
pub proof fn law_own_entries_win(
    env: Map<Seq<char>, Seq<char>>,
    m: Manifest,
    app: App,
    replica: nat,
    port: nat,
    n: Seq<char>,
)
    requires
        !is_pointer(n),
    ensures
        with_configured(env, m, app, replica, port)[n] == match last_value(pairs(app.env@), n) {
            Some(v) => v,
            None => match last_value(pairs(m.defaults.env@), n) {
                Some(v) => v,
                None => env[n],
            },
        },
{
    let d = with_entries(env, pairs(m.defaults.env@));
    lemma_with_entries_value(env, pairs(m.defaults.env@), n);
    lemma_with_entries_value(d, pairs(app.env@), n);
}

} // verus!
