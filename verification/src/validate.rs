//! What a manifest must hold before it is run: distinct names, at least one replica, port
//! windows that fit and do not meet, dependencies that exist, checks that can be made, and
//! accounts that were found.

use crate::manifest::{App, Check, Manifest};
use crate::paths::{base_dir, base_dir_path};
use crate::text::{decimal, decimal_text, join3, join_list, joined, str_eq, texts};
use vstd::prelude::*;

verus! {

/// What the system's account database says of an app's `user` and `group`.
#[derive(Debug, Clone, Copy)]
pub struct Account {
    /// The ids of the user and of the user's primary group, where the user exists.
    pub user: Option<(u32, u32)>,
    /// The id of the group, where it exists.
    pub group: Option<u32>,
}

/// The lists that `f` gives for `0` up to `n`, one after the other.
pub open spec fn listed(f: spec_fn(int) -> Seq<Seq<char>>, n: int) -> Seq<Seq<char>>
    decreases n,
{
    if n <= 0 {
        Seq::empty()
    } else {
        listed(f, n - 1) + f(n - 1)
    }
}

/// The lists add up to nothing only where each of them is empty.
pub proof fn lemma_listed_empty(f: spec_fn(int) -> Seq<Seq<char>>, n: int)
    ensures
        listed(f, n).len() == 0 <==> forall|i: int| 0 <= i < n ==> (#[trigger] f(i)).len() == 0,
    decreases n,
{
    if n > 0 {
        lemma_listed_empty(f, n - 1);
    }
}

pub open spec fn duplicate_app(name: Seq<char>) -> Seq<char> {
    "duplicate app name `"@ + name + "`"@
}

pub open spec fn zero_replicas(name: Seq<char>) -> Seq<char> {
    "app `"@ + name + "` has replicas = 0"@
}

pub open spec fn port_overflow(name: Seq<char>, port: nat, replicas: nat) -> Seq<char> {
    "app `"@ + name + "`: port "@ + decimal_text(port) + " + "@ + decimal_text(replicas)
        + " replicas overflows the port range"@
}

pub open spec fn check_collides(name: Seq<char>) -> Seq<char> {
    "check `"@ + name + "` collides with another name"@
}

pub open spec fn check_needs_target(name: Seq<char>) -> Seq<char> {
    "check `"@ + name + "` needs `tcp` or `http`"@
}

pub open spec fn port_claimed_twice(port: nat, owner: Seq<char>, name: Seq<char>) -> Seq<char> {
    "port "@ + decimal_text(port) + " claimed by both `"@ + owner + "` and `"@ + name + "`"@
}

pub open spec fn unknown_dependency(name: Seq<char>, dep: Seq<char>) -> Seq<char> {
    "app `"@ + name + "` depends on unknown `"@ + dep + "` (not an app or check)"@
}

pub open spec fn unknown_account(name: Seq<char>, kind: Seq<char>, account: Seq<char>) -> Seq<
    char,
> {
    "app `"@ + name + "`: unknown "@ + kind + " `"@ + account + "`"@
}

/// Whether one of the first `n` apps has that name.
pub open spec fn app_name_among(apps: Seq<App>, n: int, name: Seq<char>) -> bool {
    exists|j: int| 0 <= j < n && (#[trigger] apps[j]).name@ == name
}

/// Whether one of the first `n` checks has that name.
pub open spec fn check_name_among(checks: Seq<Check>, n: int, name: Seq<char>) -> bool {
    exists|j: int| 0 <= j < n && (#[trigger] checks[j]).name@ == name
}

/// What is wrong with app `i` itself.
pub open spec fn app_problems(apps: Seq<App>, i: int) -> Seq<Seq<char>> {
    let a = apps[i];
    let dup = if app_name_among(apps, i, a.name@) {
        seq![duplicate_app(a.name@)]
    } else {
        Seq::empty()
    };
    let zero = if a.replicas == 0 {
        seq![zero_replicas(a.name@)]
    } else {
        Seq::empty()
    };
    let over = if a.port_end() > 0x1_0000 {
        seq![port_overflow(a.name@, a.port as nat, a.replicas as nat)]
    } else {
        Seq::empty()
    };
    dup + zero + over
}

/// What is wrong with check `i` itself.
pub open spec fn check_problems(apps: Seq<App>, checks: Seq<Check>, i: int) -> Seq<Seq<char>> {
    let c = checks[i];
    let dup = if app_name_among(apps, apps.len() as int, c.name@) || check_name_among(
        checks,
        i,
        c.name@,
    ) {
        seq![check_collides(c.name@)]
    } else {
        Seq::empty()
    };
    let target = if c.tcp is None && c.http is None {
        seq![check_needs_target(c.name@)]
    } else {
        Seq::empty()
    };
    dup + target
}

/// The last of the first `n` apps that claims port `p`.
pub open spec fn owner_among(apps: Seq<App>, n: int, p: int) -> Option<int>
    decreases n,
{
    if n <= 0 {
        None
    } else if apps[n - 1].claims(p) {
        Some(n - 1)
    } else {
        owner_among(apps, n - 1, p)
    }
}

/// The ports of app `i` that a port number can name end here.
pub open spec fn last_port_end(a: App) -> int {
    if a.port_end() < 0x1_0000 {
        a.port_end()
    } else {
        0x1_0000
    }
}

/// What is wrong with port `p` of app `i`.
pub open spec fn port_problem(apps: Seq<App>, i: int, p: int) -> Seq<Seq<char>> {
    match owner_among(apps, i, p) {
        Some(j) => seq![port_claimed_twice(p as nat, apps[j].name@, apps[i].name@)],
        None => Seq::empty(),
    }
}

/// `port_problem` for the ports of app `i`, counted from its first.
pub open spec fn port_section(apps: Seq<App>, i: int) -> spec_fn(int) -> Seq<Seq<char>> {
    |k: int| port_problem(apps, i, apps[i].port + k)
}

/// What is wrong with the ports of app `i`.
pub open spec fn window_problems(apps: Seq<App>, i: int) -> Seq<Seq<char>> {
    listed(port_section(apps, i), last_port_end(apps[i]) - apps[i].port)
}

/// Whether a name is that of an app or of a check.
pub open spec fn known_name(apps: Seq<App>, checks: Seq<Check>, name: Seq<char>) -> bool {
    app_name_among(apps, apps.len() as int, name) || check_name_among(
        checks,
        checks.len() as int,
        name,
    )
}

/// What is wrong with one dependency of app `i`.
pub open spec fn dependency_section(apps: Seq<App>, checks: Seq<Check>, i: int) -> spec_fn(
    int,
) -> Seq<Seq<char>> {
    |k: int|
        if known_name(apps, checks, apps[i].depends_on@[k]@) {
            Seq::empty()
        } else {
            seq![unknown_dependency(apps[i].name@, apps[i].depends_on@[k]@)]
        }
}

/// What is wrong with the dependencies of app `i`.
pub open spec fn dependency_problems(apps: Seq<App>, checks: Seq<Check>, i: int) -> Seq<
    Seq<char>,
> {
    listed(dependency_section(apps, checks, i), apps[i].depends_on@.len() as int)
}

/// What is wrong with the accounts of app `i`.
pub open spec fn account_problems(apps: Seq<App>, found: Seq<Account>, i: int) -> Seq<Seq<char>> {
    let user = match (apps[i].user, found[i].user) {
        (Some(u), None) => seq![unknown_account(apps[i].name@, "user"@, u@)],
        _ => Seq::empty(),
    };
    let group = match (apps[i].group, found[i].group) {
        (Some(g), None) => seq![unknown_account(apps[i].name@, "group"@, g@)],
        _ => Seq::empty(),
    };
    user + group
}

pub open spec fn app_section(apps: Seq<App>) -> spec_fn(int) -> Seq<Seq<char>> {
    |i: int| app_problems(apps, i)
}

pub open spec fn check_section(apps: Seq<App>, checks: Seq<Check>) -> spec_fn(int) -> Seq<
    Seq<char>,
> {
    |i: int| check_problems(apps, checks, i)
}

pub open spec fn window_section(apps: Seq<App>) -> spec_fn(int) -> Seq<Seq<char>> {
    |i: int| window_problems(apps, i)
}

pub open spec fn dependencies_section(apps: Seq<App>, checks: Seq<Check>) -> spec_fn(
    int,
) -> Seq<Seq<char>> {
    |i: int| dependency_problems(apps, checks, i)
}

pub open spec fn account_section(apps: Seq<App>, found: Seq<Account>) -> spec_fn(int) -> Seq<
    Seq<char>,
> {
    |i: int| account_problems(apps, found, i)
}

/// What is said of a field that only Unix knows.
pub open spec fn unix_only(name: Seq<char>, field: Seq<char>) -> Seq<char> {
    "app `"@ + name + "`: "@ + field + " only supported on Unix"@
}

/// What app `i` asks for that only Unix knows.
pub open spec fn platform_problems(apps: Seq<App>, i: int) -> Seq<Seq<char>> {
    let a = apps[i];
    let user = if a.user is Some {
        seq![unix_only(a.name@, "user is"@)]
    } else {
        Seq::empty()
    };
    let group = if a.group is Some {
        seq![unix_only(a.name@, "group is"@)]
    } else {
        Seq::empty()
    };
    let limits = if a.limits is Some {
        seq![unix_only(a.name@, "limits are"@)]
    } else {
        Seq::empty()
    };
    user + group + limits
}

/// What is wrong with what the apps ask of the system: on Unix the accounts that were not found,
/// elsewhere everything that only Unix knows.
pub open spec fn system_section(apps: Seq<App>, found: Seq<Account>, unix: bool) -> spec_fn(
    int,
) -> Seq<Seq<char>> {
    if unix {
        account_section(apps, found)
    } else {
        |i: int| platform_problems(apps, i)
    }
}

/// Everything that is wrong with a manifest, in the order in which it is reported. `unix` says
/// whether the system is a Unix.
pub open spec fn problems(
    apps: Seq<App>,
    checks: Seq<Check>,
    found: Seq<Account>,
    unix: bool,
) -> Seq<Seq<char>> {
    listed(app_section(apps), apps.len() as int)
        + listed(check_section(apps, checks), checks.len() as int)
        + listed(window_section(apps), apps.len() as int)
        + listed(dependencies_section(apps, checks), apps.len() as int)
        + listed(system_section(apps, found, unix), apps.len() as int)
}

/// The uid that an app gets.
pub open spec fn resolved_uid(a: App, acc: Account) -> Option<u32> {
    match (a.user, acc.user) {
        (Some(_), Some(ids)) => Some(ids.0),
        _ => None,
    }
}

/// The gid that an app gets: that of its group, or else that of its user's primary group.
pub open spec fn resolved_gid(a: App, acc: Account) -> Option<u32> {
    match (a.group, acc.group) {
        (Some(_), Some(g)) => Some(g),
        _ => match (a.user, acc.user) {
            (Some(_), Some(ids)) => Some(ids.1),
            _ => None,
        },
    }
}

/// An app with the ids of its accounts filled in.
pub open spec fn with_ids(a: App, acc: Account) -> App {
    App { uid: resolved_uid(a, acc), gid: resolved_gid(a, acc), ..a }
}

/// An app with the ids of its accounts filled in, where the system has such.
pub open spec fn on_system(a: App, acc: Account, unix: bool) -> App {
    if unix {
        with_ids(a, acc)
    } else {
        a
    }
}

impl Manifest {
    /// No two apps, no two checks and no app and check have one name.
    pub open spec fn names_distinct(&self) -> bool {
        &&& forall|i: int, j: int|
            0 <= i < j < self.apps@.len() ==> (#[trigger] self.apps@[i]).name@ != (
            #[trigger] self.apps@[j]).name@
        &&& forall|i: int, j: int|
            0 <= i < j < self.checks@.len() ==> (#[trigger] self.checks@[i]).name@ != (
            #[trigger] self.checks@[j]).name@
        &&& forall|i: int, j: int|
            0 <= i < self.apps@.len() && 0 <= j < self.checks@.len() ==> (
            #[trigger] self.apps@[i]).name@ != (#[trigger] self.checks@[j]).name@
    }

    /// Every app has a replica, and the ports of all of them are port numbers.
    pub open spec fn windows_fit(&self) -> bool {
        forall|i: int|
            0 <= i < self.apps@.len() ==> (#[trigger] self.apps@[i]).replicas >= 1
                && self.apps@[i].port_end() <= 0x1_0000
    }

    /// No port belongs to two apps.
    pub open spec fn windows_disjoint(&self) -> bool {
        forall|i: int, j: int, p: int|
            0 <= i < j < self.apps@.len() && #[trigger] self.apps@[i].claims(p)
                ==> !#[trigger] self.apps@[j].claims(p)
    }

    /// Every check can be made.
    pub open spec fn checks_have_targets(&self) -> bool {
        forall|i: int|
            0 <= i < self.checks@.len() ==> (#[trigger] self.checks@[i]).tcp is Some
                || self.checks@[i].http is Some
    }

    /// Every dependency is an app or a check.
    pub open spec fn dependencies_known(&self) -> bool {
        forall|i: int, k: int|
            0 <= i < self.apps@.len() && 0 <= k < self.apps@[i].depends_on@.len() ==> known_name(
                self.apps@,
                self.checks@,
                (#[trigger] self.apps@[i].depends_on@[k])@,
            )
    }

    /// What a manifest that passed validation holds.
    pub open spec fn valid(&self) -> bool {
        &&& self.names_distinct()
        &&& self.windows_fit()
        &&& self.windows_disjoint()
        &&& self.checks_have_targets()
        &&& self.dependencies_known()
    }
}

/// Adds one text to a list.
fn report(errors: &mut Vec<String>, message: String)
    ensures
        texts(final(errors)@) == texts(old(errors)@) + seq![message@],
{
    errors.push(message);
    assert(texts(errors@) =~= texts(old(errors)@) + seq![message@]);
}

/// Whether one of the first `n` apps has that name.
fn has_app_name(apps: &Vec<App>, n: usize, name: &str) -> (r: bool)
    requires
        n <= apps@.len(),
    ensures
        r == app_name_among(apps@, n as int, name@),
{
    let mut j: usize = 0;
    while j < n
        invariant
            j <= n <= apps@.len(),
            forall|k: int| 0 <= k < j ==> (#[trigger] apps@[k]).name@ != name@,
        decreases n - j,
    {
        if str_eq(apps[j].name.as_str(), name) {
            return true;
        }
        j += 1;
    }
    false
}

/// Whether one of the first `n` checks has that name.
fn has_check_name(checks: &Vec<Check>, n: usize, name: &str) -> (r: bool)
    requires
        n <= checks@.len(),
    ensures
        r == check_name_among(checks@, n as int, name@),
{
    let mut j: usize = 0;
    while j < n
        invariant
            j <= n <= checks@.len(),
            forall|k: int| 0 <= k < j ==> (#[trigger] checks@[k]).name@ != name@,
        decreases n - j,
    {
        if str_eq(checks[j].name.as_str(), name) {
            return true;
        }
        j += 1;
    }
    false
}

/// Reports what is wrong with each app itself.
fn report_apps(apps: &Vec<App>, errors: &mut Vec<String>)
    ensures
        texts(final(errors)@) == texts(old(errors)@) + listed(
            app_section(apps@),
            apps@.len() as int,
        ),
{
    let ghost start = texts(errors@);
    let mut i: usize = 0;
    assert(start + Seq::<Seq<char>>::empty() == start);
    while i < apps.len()
        invariant
            i <= apps@.len(),
            texts(errors@) == start + listed(app_section(apps@), i as int),
        decreases apps@.len() - i,
    {
        let a = &apps[i];
        let ghost before = texts(errors@);
        if has_app_name(apps, i, a.name.as_str()) {
            let mut m = "duplicate app name `".to_owned();
            m.append(a.name.as_str());
            m.append("`");
            report(errors, m);
        }
        if a.replicas == 0 {
            let mut m = "app `".to_owned();
            m.append(a.name.as_str());
            m.append("` has replicas = 0");
            report(errors, m);
        }
        if a.port as u64 + a.replicas as u64 > 0x1_0000 {
            let mut m = "app `".to_owned();
            m.append(a.name.as_str());
            m.append("`: port ");
            m.append(decimal(a.port as u64).as_str());
            m.append(" + ");
            m.append(decimal(a.replicas as u64).as_str());
            m.append(" replicas overflows the port range");
            report(errors, m);
        }
        proof {
            let p = app_problems(apps@, i as int);
            assert(texts(errors@) =~= before + p);
            assert(app_section(apps@)(i as int) == p);
            assert(before + p =~= start + (listed(app_section(apps@), i as int) + p));
        }
        i += 1;
    }
}

/// Reports what is wrong with each check itself.
fn report_checks(apps: &Vec<App>, checks: &Vec<Check>, errors: &mut Vec<String>)
    ensures
        texts(final(errors)@) == texts(old(errors)@) + listed(
            check_section(apps@, checks@),
            checks@.len() as int,
        ),
{
    let ghost start = texts(errors@);
    let mut i: usize = 0;
    assert(start + Seq::<Seq<char>>::empty() == start);
    while i < checks.len()
        invariant
            i <= checks@.len(),
            texts(errors@) == start + listed(check_section(apps@, checks@), i as int),
        decreases checks@.len() - i,
    {
        let c = &checks[i];
        let ghost before = texts(errors@);
        if has_app_name(apps, apps.len(), c.name.as_str()) || has_check_name(
            checks,
            i,
            c.name.as_str(),
        ) {
            let mut m = "check `".to_owned();
            m.append(c.name.as_str());
            m.append("` collides with another name");
            report(errors, m);
        }
        if c.tcp.is_none() && c.http.is_none() {
            let mut m = "check `".to_owned();
            m.append(c.name.as_str());
            m.append("` needs `tcp` or `http`");
            report(errors, m);
        }
        proof {
            let p = check_problems(apps@, checks@, i as int);
            assert(texts(errors@) =~= before + p);
            assert(check_section(apps@, checks@)(i as int) == p);
            assert(before + p =~= start + (listed(check_section(apps@, checks@), i as int) + p));
        }
        i += 1;
    }
}

/// The last of the first `n` apps that claims port `p`.
fn port_owner(apps: &Vec<App>, n: usize, p: u64) -> (r: Option<usize>)
    requires
        n <= apps@.len(),
    ensures
        match r {
            Some(j) => owner_among(apps@, n as int, p as int) == Some(j as int) && j < n,
            None => owner_among(apps@, n as int, p as int) is None,
        },
{
    let mut j: usize = n;
    while j > 0
        invariant
            j <= n <= apps@.len(),
            owner_among(apps@, n as int, p as int) == owner_among(apps@, j as int, p as int),
        decreases j,
    {
        let a = &apps[j - 1];
        if a.port as u64 <= p && p < a.port as u64 + a.replicas as u64 {
            return Some(j - 1);
        }
        j -= 1;
    }
    None
}

/// Reports the ports of app `i` that an app before it claims too.
fn report_window(apps: &Vec<App>, i: usize, errors: &mut Vec<String>)
    requires
        i < apps@.len(),
    ensures
        texts(final(errors)@) == texts(old(errors)@) + window_problems(apps@, i as int),
{
    let ghost start = texts(errors@);
    let a = &apps[i];
    let first: u64 = a.port as u64;
    let end: u64 = if first + (a.replicas as u64) < 0x1_0000 {
        first + a.replicas as u64
    } else {
        0x1_0000
    };
    let mut p: u64 = first;
    assert(start + Seq::<Seq<char>>::empty() == start);
    while p < end
        invariant
            i < apps@.len(),
            *a == apps@[i as int],
            first == a.port,
            first <= p <= end,
            end == last_port_end(*a),
            texts(errors@) == start + listed(port_section(apps@, i as int), p - first),
        decreases end - p,
    {
        let ghost before = texts(errors@);
        match port_owner(apps, i, p) {
            Some(j) => {
                let mut m = "port ".to_owned();
                m.append(decimal(p).as_str());
                m.append(" claimed by both `");
                m.append(apps[j].name.as_str());
                m.append("` and `");
                m.append(a.name.as_str());
                m.append("`");
                report(errors, m);
            },
            None => {},
        }
        proof {
            let q = port_problem(apps@, i as int, p as int);
            assert(texts(errors@) =~= before + q);
            assert(port_section(apps@, i as int)(p - first) == q);
            assert(before + q =~= start + (listed(port_section(apps@, i as int), p - first) + q));
        }
        p += 1;
    }
}

/// Reports each port that two apps claim.
fn report_windows(apps: &Vec<App>, errors: &mut Vec<String>)
    ensures
        texts(final(errors)@) == texts(old(errors)@) + listed(
            window_section(apps@),
            apps@.len() as int,
        ),
{
    let ghost start = texts(errors@);
    let mut i: usize = 0;
    assert(start + Seq::<Seq<char>>::empty() == start);
    while i < apps.len()
        invariant
            i <= apps@.len(),
            texts(errors@) == start + listed(window_section(apps@), i as int),
        decreases apps@.len() - i,
    {
        let ghost before = texts(errors@);
        report_window(apps, i, errors);
        proof {
            let p = window_problems(apps@, i as int);
            assert(window_section(apps@)(i as int) == p);
            assert(before + p =~= start + (listed(window_section(apps@), i as int) + p));
        }
        i += 1;
    }
}

/// Reports the dependencies of app `i` that nothing answers to.
fn report_app_dependencies(
    apps: &Vec<App>,
    checks: &Vec<Check>,
    i: usize,
    errors: &mut Vec<String>,
)
    requires
        i < apps@.len(),
    ensures
        texts(final(errors)@) == texts(old(errors)@) + dependency_problems(
            apps@,
            checks@,
            i as int,
        ),
{
    let ghost start = texts(errors@);
    let a = &apps[i];
    let mut k: usize = 0;
    assert(start + Seq::<Seq<char>>::empty() == start);
    while k < a.depends_on.len()
        invariant
            i < apps@.len(),
            *a == apps@[i as int],
            k <= a.depends_on@.len(),
            texts(errors@) == start + listed(
                dependency_section(apps@, checks@, i as int),
                k as int,
            ),
        decreases a.depends_on@.len() - k,
    {
        let ghost before = texts(errors@);
        let dep = a.depends_on[k].as_str();
        if !has_app_name(apps, apps.len(), dep) && !has_check_name(checks, checks.len(), dep) {
            let mut m = "app `".to_owned();
            m.append(a.name.as_str());
            m.append("` depends on unknown `");
            m.append(dep);
            m.append("` (not an app or check)");
            report(errors, m);
        }
        proof {
            let f = dependency_section(apps@, checks@, i as int);
            assert(texts(errors@) =~= before + f(k as int));
            assert(before + f(k as int) =~= start + (listed(f, k as int) + f(k as int)));
        }
        k += 1;
    }
}

/// Reports each dependency that nothing answers to.
fn report_dependencies(apps: &Vec<App>, checks: &Vec<Check>, errors: &mut Vec<String>)
    ensures
        texts(final(errors)@) == texts(old(errors)@) + listed(
            dependencies_section(apps@, checks@),
            apps@.len() as int,
        ),
{
    let ghost start = texts(errors@);
    let mut i: usize = 0;
    assert(start + Seq::<Seq<char>>::empty() == start);
    while i < apps.len()
        invariant
            i <= apps@.len(),
            texts(errors@) == start + listed(dependencies_section(apps@, checks@), i as int),
        decreases apps@.len() - i,
    {
        let ghost before = texts(errors@);
        report_app_dependencies(apps, checks, i, errors);
        proof {
            let p = dependency_problems(apps@, checks@, i as int);
            let f = dependencies_section(apps@, checks@);
            assert(f(i as int) == p);
            assert(before + p =~= start + (listed(f, i as int) + p));
        }
        i += 1;
    }
}

/// Reports each account that was not found.
fn report_accounts(apps: &Vec<App>, found: &Vec<Account>, errors: &mut Vec<String>)
    requires
        apps@.len() == found@.len(),
    ensures
        texts(final(errors)@) == texts(old(errors)@) + listed(
            account_section(apps@, found@),
            apps@.len() as int,
        ),
{
    let ghost start = texts(errors@);
    let mut i: usize = 0;
    assert(start + Seq::<Seq<char>>::empty() == start);
    while i < apps.len()
        invariant
            apps@.len() == found@.len(),
            i <= apps@.len(),
            texts(errors@) == start + listed(account_section(apps@, found@), i as int),
        decreases apps@.len() - i,
    {
        let ghost before = texts(errors@);
        let a = &apps[i];
        match (&a.user, found[i].user) {
            (Some(u), None) => {
                let mut m = "app `".to_owned();
                m.append(a.name.as_str());
                m.append("`: unknown ");
                m.append("user");
                m.append(" `");
                m.append(u.as_str());
                m.append("`");
                report(errors, m);
            },
            _ => {},
        }
        match (&a.group, found[i].group) {
            (Some(g), None) => {
                let mut m = "app `".to_owned();
                m.append(a.name.as_str());
                m.append("`: unknown ");
                m.append("group");
                m.append(" `");
                m.append(g.as_str());
                m.append("`");
                report(errors, m);
            },
            _ => {},
        }
        proof {
            let p = account_problems(apps@, found@, i as int);
            let f = account_section(apps@, found@);
            assert(texts(errors@) =~= before + p);
            assert(f(i as int) == p);
            assert(before + p =~= start + (listed(f, i as int) + p));
        }
        i += 1;
    }
}

/// Reports everything that an app asks for and only Unix knows.
fn report_platform(apps: &Vec<App>, Ghost(found): Ghost<Seq<Account>>, errors: &mut Vec<String>)
    ensures
        texts(final(errors)@) == texts(old(errors)@) + listed(
            system_section(apps@, found, false),
            apps@.len() as int,
        ),
{
    let ghost start = texts(errors@);
    let ghost f = system_section(apps@, found, false);
    let mut i: usize = 0;
    assert(start + Seq::<Seq<char>>::empty() == start);
    while i < apps.len()
        invariant
            i <= apps@.len(),
            f == system_section(apps@, found, false),
            texts(errors@) == start + listed(f, i as int),
        decreases apps@.len() - i,
    {
        let ghost before = texts(errors@);
        let a = &apps[i];
        if a.user.is_some() {
            let mut m = join3("app `", a.name.as_str(), "`: ");
            m.append("user is");
            m.append(" only supported on Unix");
            report(errors, m);
        }
        if a.group.is_some() {
            let mut m = join3("app `", a.name.as_str(), "`: ");
            m.append("group is");
            m.append(" only supported on Unix");
            report(errors, m);
        }
        if a.limits.is_some() {
            let mut m = join3("app `", a.name.as_str(), "`: ");
            m.append("limits are");
            m.append(" only supported on Unix");
            report(errors, m);
        }
        proof {
            let p = platform_problems(apps@, i as int);
            assert(texts(errors@) =~= before + p);
            assert(f(i as int) == p);
            assert(before + p =~= start + (listed(f, i as int) + p));
        }
        i += 1;
    }
}

/// The message for a manifest with problems.
pub open spec fn invalid_message(found: Seq<Seq<char>>) -> Seq<char> {
    "invalid manifest:\n  - "@ + joined(found, "\n  - "@)
}

impl Manifest {
    /// Checks the manifest and fills in the ids of the accounts that its apps run under. `found`
    /// says for each app what the system's account database holds. Where the system is no Unix,
    /// which `unix` says, there are no such ids, and what needs a Unix is refused.
    pub fn validate(&mut self, found: &Vec<Account>, unix: bool) -> (r: Result<(), String>)
        requires
            old(self).apps@.len() == found@.len(),
        ensures
            ({
                let wrong = problems(old(self).apps@, old(self).checks@, found@, unix);
                match r {
                    Ok(_) => wrong.len() == 0 && final(self).valid(),
                    Err(e) => wrong.len() > 0 && e@ == invalid_message(wrong),
                }
            }),
            final(self).apps@.len() == old(self).apps@.len(),
            forall|i: int|
                0 <= i < old(self).apps@.len() ==> #[trigger] final(self).apps@[i] == on_system(
                    old(self).apps@[i],
                    found@[i],
                    unix,
                ),
            final(self).project == old(self).project,
            final(self).vars == old(self).vars,
            final(self).defaults == old(self).defaults,
            final(self).checks == old(self).checks,
            final(self).base_dir == old(self).base_dir,
    {
        let mut errors: Vec<String> = Vec::new();
        report_apps(&self.apps, &mut errors);
        report_checks(&self.apps, &self.checks, &mut errors);
        report_windows(&self.apps, &mut errors);
        report_dependencies(&self.apps, &self.checks, &mut errors);
        if unix {
            report_accounts(&self.apps, found, &mut errors);
        } else {
            report_platform(&self.apps, Ghost(found@), &mut errors);
        }
        assert(texts(errors@) =~= problems(self.apps@, self.checks@, found@, unix));
        proof {
            if texts(errors@).len() == 0 {
                lemma_no_problems(*self, found@, unix);
            }
        }

        let mut i: usize = 0;
        while i < self.apps.len()
            invariant
                old(self).apps@.len() == found@.len(),
                self.apps@.len() == old(self).apps@.len(),
                i <= self.apps@.len(),
                forall|j: int|
                    0 <= j < i ==> #[trigger] self.apps@[j] == on_system(
                        old(self).apps@[j],
                        found@[j],
                        unix,
                    ),
                forall|j: int|
                    i <= j < self.apps@.len() ==> #[trigger] self.apps@[j] == old(self).apps@[j],
                self.project == old(self).project,
                self.vars == old(self).vars,
                self.defaults == old(self).defaults,
                self.checks == old(self).checks,
                self.base_dir == old(self).base_dir,
            decreases self.apps@.len() - i,
        {
            let mut uid: Option<u32> = None;
            let mut gid: Option<u32> = None;
            if self.apps[i].user.is_some() {
                if let Some(ids) = found[i].user {
                    uid = Some(ids.0);
                    gid = Some(ids.1);
                }
            }
            if self.apps[i].group.is_some() {
                if let Some(g) = found[i].group {
                    gid = Some(g);
                }
            }
            if unix {
                let a = &mut self.apps[i];
                a.uid = uid;
                a.gid = gid;
            }
            i += 1;
        }
        if errors.len() == 0 {
            proof {
                lemma_ids_keep_valid(*old(self), *self, found@, unix);
            }
            Ok(())
        } else {
            let mut m = "invalid manifest:\n  - ".to_owned();
            m.append(join_list(&errors, "\n  - ").as_str());
            Err(m)
        }
    }

    /// Takes a manifest that was read from `path` into use: its relative paths are seen from the
    /// directory of `path`, and it must pass validation.
    pub fn adopt(self, path: &str, found: &Vec<Account>, unix: bool) -> (r: Result<
        Manifest,
        String,
    >)
        requires
            self.apps@.len() == found@.len(),
        ensures
            ({
                let wrong = problems(self.apps@, self.checks@, found@, unix);
                match r {
                    Ok(m) => {
                        &&& wrong.len() == 0
                        &&& m.valid()
                        &&& m.base_dir@ == base_dir_path(path@)
                        &&& m.project == self.project
                        &&& m.vars == self.vars
                        &&& m.defaults == self.defaults
                        &&& m.checks == self.checks
                        &&& m.apps@.len() == self.apps@.len()
                        &&& forall|i: int|
                            0 <= i < self.apps@.len() ==> #[trigger] m.apps@[i] == on_system(
                                self.apps@[i],
                                found@[i],
                                unix,
                            )
                    },
                    Err(e) => wrong.len() > 0 && e@ == invalid_message(wrong),
                }
            }),
    {
        let mut m = self;
        m.base_dir = base_dir(path);
        match m.validate(found, unix) {
            Ok(_) => Ok(m),
            Err(e) => Err(e),
        }
    }
}

/// A manifest with nothing wrong is valid.
pub proof fn lemma_no_problems(m: Manifest, found: Seq<Account>, unix: bool)
    requires
        problems(m.apps@, m.checks@, found, unix).len() == 0,
    ensures
        m.valid(),
{
    let apps = m.apps@;
    let checks = m.checks@;
    lemma_listed_empty(app_section(apps), apps.len() as int);
    lemma_listed_empty(check_section(apps, checks), checks.len() as int);
    lemma_listed_empty(window_section(apps), apps.len() as int);
    lemma_listed_empty(dependencies_section(apps, checks), apps.len() as int);
    assert forall|i: int| 0 <= i < apps.len() implies (#[trigger] apps[i]).replicas >= 1
        && apps[i].port_end() <= 0x1_0000 && !app_name_among(apps, i, apps[i].name@) by {
        assert(app_section(apps)(i).len() == 0);
        assert(app_problems(apps, i).len() == 0);
    }
    assert forall|i: int| 0 <= i < checks.len() implies !app_name_among(
        apps,
        apps.len() as int,
        (#[trigger] checks[i]).name@,
    ) && !check_name_among(checks, i, checks[i].name@) && (checks[i].tcp is Some
        || checks[i].http is Some) by {
        assert(check_section(apps, checks)(i).len() == 0);
        assert(check_problems(apps, checks, i).len() == 0);
    }
    assert forall|i: int, j: int, p: int|
        0 <= i < j < apps.len() && #[trigger] apps[i].claims(p) implies !#[trigger] apps[j].claims(
        p,
    ) by {
        if apps[j].claims(p) {
            assert(window_section(apps)(j).len() == 0);
            assert(apps[j].port_end() <= 0x1_0000);
            let f = port_section(apps, j);
            lemma_listed_empty(f, last_port_end(apps[j]) - apps[j].port);
            assert(f(p - apps[j].port).len() == 0);
            assert(f(p - apps[j].port) == port_problem(apps, j, p));
            lemma_owner_among(apps, j, p, i);
        }
    }
    assert forall|i: int, k: int|
        0 <= i < apps.len() && 0 <= k < apps[i].depends_on@.len() implies known_name(
        apps,
        checks,
        (#[trigger] apps[i].depends_on@[k])@,
    ) by {
        assert(dependencies_section(apps, checks)(i).len() == 0);
        let f = dependency_section(apps, checks, i);
        lemma_listed_empty(f, apps[i].depends_on@.len() as int);
        assert(f(k).len() == 0);
    }
}

/// Where one of the first `n` apps claims a port, some owner is found.
proof fn lemma_owner_among(apps: Seq<App>, n: int, p: int, i: int)
    requires
        0 <= i < n <= apps.len(),
        apps[i].claims(p),
    ensures
        owner_among(apps, n, p) is Some,
    decreases n,
{
    if !apps[n - 1].claims(p) {
        lemma_owner_among(apps, n - 1, p, i);
    }
}

/// Filling in ids changes nothing that validity speaks of.
proof fn lemma_ids_keep_valid(
    before: Manifest,
    after: Manifest,
    found: Seq<Account>,
    unix: bool,
)
    requires
        before.valid(),
        after.checks == before.checks,
        after.apps@.len() == before.apps@.len(),
        forall|i: int|
            0 <= i < before.apps@.len() ==> #[trigger] after.apps@[i] == on_system(
                before.apps@[i],
                found[i],
                unix,
            ),
    ensures
        after.valid(),
{
    assert forall|i: int, j: int, p: int|
        0 <= i < j < after.apps@.len() && #[trigger] after.apps@[i].claims(
            p,
        ) implies !#[trigger] after.apps@[j].claims(p) by {
        assert(before.apps@[i].claims(p));
        assert(!before.apps@[j].claims(p));
    }
    assert forall|i: int, k: int|
        0 <= i < after.apps@.len() && 0 <= k < after.apps@[i].depends_on@.len() implies known_name(
        after.apps@,
        after.checks@,
        (#[trigger] after.apps@[i].depends_on@[k])@,
    ) by {
        let name = before.apps@[i].depends_on@[k]@;
        assert(known_name(before.apps@, before.checks@, name));
        if app_name_among(before.apps@, before.apps@.len() as int, name) {
            let j = choose|j: int|
                0 <= j < before.apps@.len() && (#[trigger] before.apps@[j]).name@ == name;
            assert(after.apps@[j].name@ == name);
        }
    }
}

/// Whether every user and group that a manifest names was found.
pub open spec fn accounts_found(apps: Seq<App>, found: Seq<Account>) -> bool {
    forall|i: int|
        0 <= i < apps.len() ==> ((#[trigger] apps[i]).user is Some ==> found[i].user is Some) && (
        apps[i].group is Some ==> found[i].group is Some)
}

proof fn lemma_listed_nothing(f: spec_fn(int) -> Seq<Seq<char>>, n: int)
    requires
        forall|i: int| 0 <= i < n ==> (#[trigger] f(i)).len() == 0,
    ensures
        listed(f, n).len() == 0,
    decreases n,
{
    if n > 0 {
        lemma_listed_nothing(f, n - 1);
        assert(f(n - 1).len() == 0);
    }
}

proof fn lemma_no_owner_among(apps: Seq<App>, n: int, p: int)
    requires
        0 <= n <= apps.len(),
        forall|i: int| 0 <= i < n ==> !(#[trigger] apps[i]).claims(p),
    ensures
        owner_among(apps, n, p) is None,
    decreases n,
{
    if n > 0 {
        lemma_no_owner_among(apps, n - 1, p);
    }
}

/// Whether the system has what the apps ask of it: on Unix every account was found, elsewhere
/// nothing that only Unix knows is asked for.
pub open spec fn system_suffices(apps: Seq<App>, found: Seq<Account>, unix: bool) -> bool {
    if unix {
        accounts_found(apps, found)
    } else {
        forall|i: int|
            0 <= i < apps.len() ==> (#[trigger] apps[i]).user is None && apps[i].group is None
                && apps[i].limits is None
    }
}

/// A manifest passes validation exactly where it is valid and the system has what it asks for.
pub proof fn law_accepted_iff_valid(m: Manifest, found: Seq<Account>, unix: bool)
    ensures
        problems(m.apps@, m.checks@, found, unix).len() == 0 <==> m.valid() && system_suffices(
            m.apps@,
            found,
            unix,
        ),
{
    let apps = m.apps@;
    let checks = m.checks@;
    let f = system_section(apps, found, unix);
    if problems(apps, checks, found, unix).len() == 0 {
        lemma_no_problems(m, found, unix);
        lemma_listed_empty(f, apps.len() as int);
        assert(system_suffices(apps, found, unix)) by {
            if unix {
                assert forall|i: int| 0 <= i < apps.len() implies ((#[trigger] apps[i]).user is Some
                    ==> found[i].user is Some) && (apps[i].group is Some
                    ==> found[i].group is Some) by {
                    assert(f(i).len() == 0);
                    assert(account_problems(apps, found, i).len() == 0);
                }
            } else {
                assert forall|i: int| 0 <= i < apps.len() implies (#[trigger] apps[i]).user is None
                    && apps[i].group is None && apps[i].limits is None by {
                    assert(f(i).len() == 0);
                    assert(platform_problems(apps, i).len() == 0);
                }
            }
        }
    }
    if m.valid() && system_suffices(apps, found, unix) {
        assert forall|i: int| 0 <= i < apps.len() implies (#[trigger] app_section(apps)(i)).len()
            == 0 by {
            assert(apps[i].replicas >= 1 && apps[i].port_end() <= 0x1_0000);
        }
        lemma_listed_nothing(app_section(apps), apps.len() as int);
        assert forall|i: int| 0 <= i < checks.len() implies (#[trigger] check_section(apps, checks)(
            i,
        )).len() == 0 by {
            assert(checks[i].tcp is Some || checks[i].http is Some);
        }
        lemma_listed_nothing(check_section(apps, checks), checks.len() as int);
        assert forall|j: int| 0 <= j < apps.len() implies (#[trigger] window_section(apps)(j)).len()
            == 0 by {
            let f = port_section(apps, j);
            let n = last_port_end(apps[j]) - apps[j].port;
            assert forall|k: int| 0 <= k < n implies (#[trigger] f(k)).len() == 0 by {
                let p = apps[j].port + k;
                assert(apps[j].claims(p));
                assert forall|i: int| 0 <= i < j implies !(#[trigger] apps[i]).claims(p) by {}
                lemma_no_owner_among(apps, j, p);
            }
            lemma_listed_nothing(f, n);
        }
        lemma_listed_nothing(window_section(apps), apps.len() as int);
        assert forall|i: int| 0 <= i < apps.len() implies (#[trigger] dependencies_section(
            apps,
            checks,
        )(i)).len() == 0 by {
            let f = dependency_section(apps, checks, i);
            assert forall|k: int| 0 <= k < apps[i].depends_on@.len() implies (
            #[trigger] f(k)).len() == 0 by {
                assert(known_name(apps, checks, apps[i].depends_on@[k]@));
            }
            lemma_listed_nothing(f, apps[i].depends_on@.len() as int);
        }
        lemma_listed_nothing(dependencies_section(apps, checks), apps.len() as int);
        assert forall|i: int| 0 <= i < apps.len() implies (#[trigger] f(i)).len() == 0 by {
            if unix {
                assert(apps[i].user is Some ==> found[i].user is Some);
            } else {
                assert(apps[i].user is None);
            }
        }
        lemma_listed_nothing(f, apps.len() as int);
    }
}

} // verus!
