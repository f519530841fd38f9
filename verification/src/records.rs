//! What is handed on and written down, stated over the parts that it is made of: the environment
//! of a process, the fingerprint of a specification, the recorded state, and what is left of an
//! earlier run.

use crate::env::{
    base_env, base_names, instance_env_texts, is_pointer, last_value, law_environment_is_isolated,
    law_own_entries_win, lemma_with_inherited_names, names_of, with_configured, with_inherited,
};
use crate::fingerprint::{fingerprint, hashed, law_hashed_iff_same_spec};
use crate::fleet::{count, ready_of, Instance};
use crate::lock::{refused, removes, Lock};
use crate::logs::resume_at;
use crate::manifest::{App, DEFAULT_PATH, Limits, Manifest};
use crate::order::{is_stable_order, key_before};
use crate::paths::{joined_path, path_parts};
use crate::process::{
    group_number, identity_steps, law_rotation_shifts, limit_steps, lives, moved_all, must_rotate,
    process_number, rotated, rotation, size_with, ChildStep,
};
use crate::reading::law_numbers_are_written_apart;
use crate::reclaim::{app_groups, is_reclaim_step, left_behind, living, row_groups, ReclaimStep};
use crate::reconcile::Reconciler;
use crate::report::{
    all_apps_ready, app_line, app_lines, down_refusal, instance_line, status_body, status_rows,
};
use crate::snapshot::{arranged, is_snapshot, replica_keys, rows, selected_apps, shows_app};
use crate::spawn::{starts, Spawn};
use crate::state::{AppStatus, ClusterState, InstanceStatus, Phase};
use crate::text::{decimal_text, texts};
use crate::vars::{pairs, value_of};
use vstd::prelude::*;

verus! {

// The environment of a process.

proof fn lemma_last_value(list: Seq<(Seq<char>, Seq<char>)>, n: Seq<char>)
    ensures
        match last_value(list, n) {
            Some(v) => exists|i: int|
                0 <= i < list.len() && (#[trigger] list[i]).0 == n && list[i].1 == v && forall|
                    j: int,
                |
                    i < j < list.len() ==> (#[trigger] list[j]).0 != n,
            None => forall|j: int| 0 <= j < list.len() ==> (#[trigger] list[j]).0 != n,
        },
    decreases list.len(),
{
    if list.len() > 0 {
        let head = list.drop_last();
        if list.last().0 == n {
            assert(list[list.len() - 1].0 == n);
        } else {
            lemma_last_value(head, n);
            match last_value(head, n) {
                Some(v) => {
                    let i = choose|i: int|
                        0 <= i < head.len() && (#[trigger] head[i]).0 == n && head[i].1 == v
                            && forall|j: int| i < j < head.len() ==> (#[trigger] head[j]).0 != n;
                    assert(list[i] == head[i]);
                    assert forall|j: int| i < j < list.len() implies (#[trigger] list[j]).0
                        != n by {
                        if j < head.len() {
                            assert(list[j] == head[j]);
                        }
                    }
                },
                None => {
                    assert forall|j: int| 0 <= j < list.len() implies (#[trigger] list[j]).0
                        != n by {
                        if j < head.len() {
                            assert(list[j] == head[j]);
                        }
                    }
                },
            }
        }
    }
}

proof fn lemma_value_of(list: Seq<(Seq<char>, Seq<char>)>, n: Seq<char>)
    ensures
        match value_of(list, n) {
            Some(v) => exists|i: int|
                0 <= i < list.len() && (#[trigger] list[i]).0 == n && list[i].1 == v && forall|
                    j: int,
                |
                    0 <= j < i ==> (#[trigger] list[j]).0 != n,
            None => forall|j: int| 0 <= j < list.len() ==> (#[trigger] list[j]).0 != n,
        },
    decreases list.len(),
{
    if list.len() > 0 {
        let tail = list.skip(1);
        if list[0].0 != n {
            lemma_value_of(tail, n);
            match value_of(tail, n) {
                Some(v) => {
                    let i = choose|i: int|
                        0 <= i < tail.len() && (#[trigger] tail[i]).0 == n && tail[i].1 == v
                            && forall|j: int| 0 <= j < i ==> (#[trigger] tail[j]).0 != n;
                    assert(list[i + 1] == tail[i]);
                    assert forall|j: int| 0 <= j < i + 1 implies (#[trigger] list[j]).0 != n by {
                        if j > 0 {
                            assert(list[j] == tail[j - 1]);
                        }
                    }
                },
                None => {
                    assert forall|j: int| 0 <= j < list.len() implies (#[trigger] list[j]).0
                        != n by {
                        if j > 0 {
                            assert(list[j] == tail[j - 1]);
                        }
                    }
                },
            }
        }
    }
}

/// Whether a name is in a list of entries.
pub open spec fn is_set(list: Seq<(String, String)>, n: Seq<char>) -> bool {
    exists|i: int| 0 <= i < list.len() && (#[trigger] list[i]).0@ == n
}

/// Whether an entry is the last one of its name in a list.
pub open spec fn is_last_entry(list: Seq<(String, String)>, i: int) -> bool {
    &&& 0 <= i < list.len()
    &&& forall|j: int| i < j < list.len() ==> (#[trigger] list[j]).0@ != list[i].0@
}

proof fn lemma_last_entry(list: Seq<(String, String)>, i: int)
    requires
        is_last_entry(list, i),
    ensures
        last_value(pairs(list), list[i].0@) == Some(list[i].1@),
{
    let p = pairs(list);
    let n = list[i].0@;
    lemma_last_value(p, n);
    assert(p[i].0 == n);
    let v = last_value(p, n)->0;
    let k = choose|k: int|
        0 <= k < p.len() && (#[trigger] p[k]).0 == n && p[k].1 == v && forall|j: int|
            k < j < p.len() ==> (#[trigger] p[j]).0 != n;
    if i < k {
        assert(list[k].0@ == p[k].0);
    } else if k < i {
        assert(p[i].0 == n);
    }
}

proof fn lemma_not_set(list: Seq<(String, String)>, n: Seq<char>)
    requires
        !is_set(list, n),
    ensures
        last_value(pairs(list), n) is None,
        !names_of(pairs(list)).contains(n),
{
    let p = pairs(list);
    lemma_last_value(p, n);
    assert forall|i: int| 0 <= i < p.len() implies (#[trigger] p[i]).0 != n by {
        assert(list[i].0@ == p[i].0);
    }
}

/// Whether a name is one that every process inherits from the parent, if that has it.
pub open spec fn always_inherited(n: Seq<char>) -> bool {
    n == "PATH"@ || n == "HOME"@ || n == "TMPDIR"@ || n == "USER"@ || n == "LOGNAME"@ || n
        == "SHELL"@ || n == "LANG"@ || n == "LC_ALL"@
}

/// What an app sets for itself wins over all else: the last entry where a name is set twice.
pub proof fn law_app_entries_win(
    parent: Seq<(Seq<char>, Seq<char>)>,
    m: Manifest,
    app: App,
    replica: nat,
    port: nat,
    i: int,
)
    requires
        is_last_entry(app.env@, i),
        !is_pointer(app.env@[i].0@),
    ensures
        instance_env_texts(parent, m, app, replica, port).dom().contains(app.env@[i].0@),
        instance_env_texts(parent, m, app, replica, port)[app.env@[i].0@] == app.env@[i].1@,
{
    let n = app.env@[i].0@;
    lemma_last_entry(app.env@, i);
    law_own_entries_win(
        with_inherited(base_env(parent), parent, texts(m.defaults.inherit_env@)),
        m,
        app,
        replica,
        port,
        n,
    );
    law_environment_is_isolated(parent, m, app, replica, port, n);
    assert(pairs(app.env@)[i].0 == n);
}

/// What is set for all apps comes next: the last entry where a name is set twice.
pub proof fn law_common_entries_come_next(
    parent: Seq<(Seq<char>, Seq<char>)>,
    m: Manifest,
    app: App,
    replica: nat,
    port: nat,
    i: int,
)
    requires
        is_last_entry(m.defaults.env@, i),
        !is_pointer(m.defaults.env@[i].0@),
        !is_set(app.env@, m.defaults.env@[i].0@),
    ensures
        instance_env_texts(parent, m, app, replica, port).dom().contains(m.defaults.env@[i].0@),
        instance_env_texts(parent, m, app, replica, port)[m.defaults.env@[i].0@]
            == m.defaults.env@[i].1@,
{
    let n = m.defaults.env@[i].0@;
    lemma_last_entry(m.defaults.env@, i);
    lemma_not_set(app.env@, n);
    law_own_entries_win(
        with_inherited(base_env(parent), parent, texts(m.defaults.inherit_env@)),
        m,
        app,
        replica,
        port,
        n,
    );
    law_environment_is_isolated(parent, m, app, replica, port, n);
    assert(pairs(m.defaults.env@)[i].0 == n);
}

/// A name that nobody sets has the parent's value, if the parent has it and it is one that is
/// inherited: always, or because the manifest says so. Without a `PATH` of the parent the process
/// has a plain one. No other name is there.
pub proof fn law_the_rest_is_inherited_or_absent(
    parent: Seq<(Seq<char>, Seq<char>)>,
    m: Manifest,
    app: App,
    replica: nat,
    port: nat,
    n: Seq<char>,
)
    requires
        !is_set(app.env@, n),
        !is_set(m.defaults.env@, n),
        n != "PORT"@,
        n != "ARTZAIN_APP"@,
        n != "ARTZAIN_REPLICA"@,
    ensures
        ({
            let env = instance_env_texts(parent, m, app, replica, port);
            let may = always_inherited(n) || exists|k: int|
                0 <= k < m.defaults.inherit_env@.len() && (#[trigger] m.defaults.inherit_env@[k])@
                    == n;
            &&& forall|i: int|
                0 <= i < parent.len() && (#[trigger] parent[i]).0 == n && may && (forall|j: int|
                    0 <= j < i ==> (#[trigger] parent[j]).0 != n) ==> env.dom().contains(n)
                    && env[n] == parent[i].1
            &&& (forall|j: int| 0 <= j < parent.len() ==> (#[trigger] parent[j]).0 != n) && n
                == "PATH"@ ==> env.dom().contains(n) && env[n] == "/usr/local/bin:/usr/bin:/bin"@
            &&& (forall|j: int| 0 <= j < parent.len() ==> (#[trigger] parent[j]).0 != n) && n
                != "PATH"@ ==> !env.dom().contains(n)
            &&& !may ==> !env.dom().contains(n)
        }),
{
    let env = instance_env_texts(parent, m, app, replica, port);
    let may = always_inherited(n) || exists|k: int|
        0 <= k < m.defaults.inherit_env@.len() && (#[trigger] m.defaults.inherit_env@[k])@ == n;
    lemma_not_set(app.env@, n);
    lemma_not_set(m.defaults.env@, n);
    law_environment_is_isolated(parent, m, app, replica, port, n);
    let inherit = texts(m.defaults.inherit_env@);
    law_own_entries_win(
        with_inherited(base_env(parent), parent, inherit),
        m,
        app,
        replica,
        port,
        n,
    );
    let path = match value_of(parent, "PATH"@) {
        Some(v) => v,
        None => DEFAULT_PATH@,
    };
    lemma_with_inherited_names(map!["PATH"@ => path], parent, base_names(), n);
    lemma_with_inherited_names(base_env(parent), parent, inherit, n);
    lemma_value_of(parent, n);
    let base = base_names();
    assert(base.contains(n) || n == "PATH"@ <==> always_inherited(n)) by {
        if base.contains(n) {
            let k = choose|k: int| 0 <= k < base.len() && base[k] == n;
        }
        assert(base[0] == "HOME"@ && base[1] == "TMPDIR"@ && base[2] == "USER"@ && base[3]
            == "LOGNAME"@ && base[4] == "SHELL"@ && base[5] == "LANG"@ && base[6] == "LC_ALL"@);
    }
    assert(inherit.contains(n) <==> exists|k: int|
        0 <= k < m.defaults.inherit_env@.len() && (#[trigger] m.defaults.inherit_env@[k])@ == n)
        by {
        if inherit.contains(n) {
            let k = choose|k: int| 0 <= k < inherit.len() && inherit[k] == n;
            assert(m.defaults.inherit_env@[k]@ == n);
        }
        if exists|k: int|
            0 <= k < m.defaults.inherit_env@.len() && (#[trigger] m.defaults.inherit_env@[k])@
                == n {
            let k = choose|k: int|
                0 <= k < m.defaults.inherit_env@.len() && (#[trigger] m.defaults.inherit_env@[k])@
                    == n;
            assert(inherit[k] == n);
        }
    }
    assert forall|i: int|
        0 <= i < parent.len() && (#[trigger] parent[i]).0 == n && may && (forall|j: int|
            0 <= j < i ==> (#[trigger] parent[j]).0 != n) implies env.dom().contains(n) && env[n]
        == parent[i].1 by {
        let v = value_of(parent, n)->0;
        let k = choose|k: int|
            0 <= k < parent.len() && (#[trigger] parent[k]).0 == n && parent[k].1 == v && forall|
                j: int,
            |
                0 <= j < k ==> (#[trigger] parent[j]).0 != n;
        if k < i {
            assert(parent[k].0 == n);
        } else if i < k {
            assert(parent[i].0 == n);
        }
    }
}

// The fingerprint of a specification.

/// What is fingerprinted tells two specifications apart by each thing that a process is started or
/// probed with: the program, its arguments, its directory, its port, both probe paths, the times
/// and numbers of the probes, and every name and value that the manifest gives it, among them its
/// app and replica.
pub proof fn law_fingerprint_covers_every_part(
    m1: Manifest,
    app1: App,
    replica1: nat,
    port1: u16,
    m2: Manifest,
    app2: App,
    replica2: nat,
    port2: u16,
    n: Seq<char>,
)
    requires
        hashed(m1, app1, replica1, port1) == hashed(m2, app2, replica2, port2),
    ensures
        path_parts(app1.bin@) == path_parts(app2.bin@),
        app1.args@.len() == app2.args@.len(),
        forall|i: int|
            0 <= i < app1.args@.len() ==> (#[trigger] app1.args@[i])@ == app2.args@[i]@,
        app1.dir is Some <==> app2.dir is Some,
        app1.dir is Some ==> path_parts(app1.dir->0@) == path_parts(app2.dir->0@),
        port1 == port2,
        app1.ready_path@ == app2.ready_path@,
        app1.live_path@ == app2.live_path@,
        app1.live_period == app2.live_period,
        app1.live_failures == app2.live_failures,
        app1.ready_timeout == app2.ready_timeout,
        app1.name@ == app2.name@,
        replica1 == replica2,
        with_configured(Map::empty(), m1, app1, replica1, port1 as nat).dom().contains(n)
            <==> with_configured(Map::empty(), m2, app2, replica2, port2 as nat).dom().contains(n),
        with_configured(Map::empty(), m1, app1, replica1, port1 as nat)[n] == with_configured(
            Map::empty(),
            m2,
            app2,
            replica2,
            port2 as nat,
        )[n],
{
    law_hashed_iff_same_spec(m1, app1, replica1, port1, m2, app2, replica2, port2);
    let t1 = texts(app1.args@);
    let t2 = texts(app2.args@);
    assert(t1.len() == t2.len());
    assert forall|i: int| 0 <= i < app1.args@.len() implies (#[trigger] app1.args@[i])@
        == app2.args@[i]@ by {
        assert(t1[i] == t2[i]);
    }
    let e1 = with_configured(Map::empty(), m1, app1, replica1, port1 as nat);
    let e2 = with_configured(Map::empty(), m2, app2, replica2, port2 as nat);
    assert(e1["ARTZAIN_REPLICA"@] == e2["ARTZAIN_REPLICA"@]);
    law_numbers_are_written_apart(replica1, replica2);
    reveal_strlit("ARTZAIN_REPLICA");
    reveal_strlit("ARTZAIN_APP");
    assert("ARTZAIN_APP"@.len() == 11 && "ARTZAIN_REPLICA"@.len() == 15);
    assert(e1["ARTZAIN_APP"@] == app1.name@);
    assert(e2["ARTZAIN_APP"@] == app2.name@);
}

/// Nothing else is fingerprinted: what only decides how many replicas there are, what an app waits
/// for, whom it runs as, or where its logs go changes no fingerprint.
pub proof fn law_fingerprint_covers_nothing_else(
    m1: Manifest,
    app1: App,
    m2: Manifest,
    app2: App,
    replica: nat,
    port: u16,
)
    requires
        app2 == (App {
            replicas: app2.replicas,
            port: app2.port,
            depends_on: app2.depends_on,
            user: app2.user,
            group: app2.group,
            limits: app2.limits,
            uid: app2.uid,
            gid: app2.gid,
            ..app1
        }),
        m1.defaults.env == m2.defaults.env,
    ensures
        fingerprint(m1, app1, replica, port) == fingerprint(m2, app2, replica, port),
{
    law_hashed_iff_same_spec(m1, app1, replica, port, m2, app2, replica, port);
}

// The lock, and what is left of an earlier run.

/// A lock is refused exactly while another process that lives holds it; only what the lock's own
/// process wrote is removed on release; and a lock counts as left behind exactly if another
/// process that is gone wrote it.
pub proof fn law_lock_in_plain_terms(
    existing: Option<u32>,
    pid: u32,
    alive: bool,
    lock: Lock,
    owner: u32,
)
    ensures
        refused(existing, pid, alive) <==> existing is Some && existing->0 != pid && alive,
        removes(lock, existing) <==> lock.path@.len() > 0 && existing is Some && existing->0
            == lock.pid,
        left_behind(existing, pid, alive) <==> existing is Some && existing->0 != pid && !alive,
        down_refusal(owner, existing, alive) is None <==> existing is Some && existing->0 == owner
            && alive,
{
}

/// Recorded as process groups are those of all instances of all apps that have one, and no others.
pub proof fn law_every_recorded_group_is_reclaimed(apps: Seq<AppStatus>, n: int, g: i32)
    requires
        0 <= n <= apps.len(),
    ensures
        app_groups(apps, n).contains(g) <==> exists|a: int, i: int|
            0 <= a < n && 0 <= i < apps[a].instances@.len() && (
            #[trigger] apps[a].instances@[i]).pgid == Some(g),
    decreases n,
{
    if n > 0 {
        law_every_recorded_group_is_reclaimed(apps, n - 1, g);
        let list = apps[n - 1].instances@;
        let head = app_groups(apps, n - 1);
        let tail = row_groups(list, list.len() as int);
        let all = app_groups(apps, n);
        lemma_row_groups(list, list.len() as int, g);
        if all.contains(g) {
            let k = choose|k: int| 0 <= k < all.len() && all[k] == g;
            if k < head.len() {
                assert(head[k] == g);
                let (a, i) = choose|a: int, i: int|
                    0 <= a < n - 1 && 0 <= i < apps[a].instances@.len() && (
                    #[trigger] apps[a].instances@[i]).pgid == Some(g);
                assert(apps[a].instances@[i].pgid == Some(g));
            } else {
                assert(tail[k - head.len()] == g);
                let i = choose|i: int|
                    0 <= i < list.len() && (#[trigger] list[i]).pgid == Some(g);
                assert(apps[n - 1].instances@[i].pgid == Some(g));
            }
        }
        if exists|a: int, i: int|
            0 <= a < n && 0 <= i < apps[a].instances@.len() && (
            #[trigger] apps[a].instances@[i]).pgid == Some(g) {
            let (a, i) = choose|a: int, i: int|
                0 <= a < n && 0 <= i < apps[a].instances@.len() && (
                #[trigger] apps[a].instances@[i]).pgid == Some(g);
            if a < n - 1 {
                assert(head.contains(g));
                let k = choose|k: int| 0 <= k < head.len() && head[k] == g;
                assert(all[k] == g);
            } else {
                assert(list[i].pgid == Some(g));
                let k = choose|k: int| 0 <= k < tail.len() && tail[k] == g;
                assert(all[head.len() + k] == g);
            }
        }
    }
}

proof fn lemma_row_groups(list: Seq<InstanceStatus>, n: int, g: i32)
    requires
        0 <= n <= list.len(),
    ensures
        row_groups(list, n).contains(g) <==> exists|i: int|
            0 <= i < n && (#[trigger] list[i]).pgid == Some(g),
    decreases n,
{
    if n > 0 {
        lemma_row_groups(list, n - 1, g);
        let before = row_groups(list, n - 1);
        let after = row_groups(list, n);
        if after.contains(g) {
            let k = choose|k: int| 0 <= k < after.len() && after[k] == g;
            if k < before.len() {
                assert(before[k] == g);
            } else {
                assert(list[n - 1].pgid == Some(g));
            }
        }
        if before.contains(g) {
            let k = choose|k: int| 0 <= k < before.len() && before[k] == g;
            assert(after[k] == g);
        }
        if list[n - 1].pgid == Some(g) {
            assert(after[before.len() as int] == g);
        }
    }
}

/// Killed at the end are exactly the recorded groups that are still alive.
pub proof fn law_living_groups_are_killed(groups: Seq<i32>, alive: Seq<bool>, n: int, g: i32)
    requires
        0 <= n <= groups.len(),
        alive.len() == groups.len(),
    ensures
        living(groups, alive, n).contains(g) <==> exists|i: int|
            0 <= i < n && #[trigger] groups[i] == g && alive[i],
        living(groups, alive, n).len() <= n,
    decreases n,
{
    if n > 0 {
        law_living_groups_are_killed(groups, alive, n - 1, g);
        let before = living(groups, alive, n - 1);
        let after = living(groups, alive, n);
        if after.contains(g) {
            let k = choose|k: int| 0 <= k < after.len() && after[k] == g;
            if k < before.len() {
                assert(before[k] == g);
            } else {
                assert(groups[n - 1] == g && alive[n - 1]);
            }
        }
        if before.contains(g) {
            let k = choose|k: int| 0 <= k < before.len() && before[k] == g;
            assert(after[k] == g);
        }
        if groups[n - 1] == g && alive[n - 1] {
            assert(after[before.len() as int] == g);
        }
    }
}

// The recorded state.

/// Whether a row shows an instance as it is.
pub open spec fn is_row_of(row: InstanceStatus, inst: Instance, now: u64) -> bool {
    &&& row.replica == inst.replica
    &&& row.port == inst.port
    &&& row.phase == inst.phase
    &&& row.restarts == inst.restarts
    &&& match inst.handle {
        Some(h) => row.pid == h.pid && row.pgid == Some(h.pgid),
        None => row.pid is None && row.pgid is None,
    }
    &&& match inst.started_at {
        Some(t) => row.uptime_secs == if now >= t {
            (now - t) / 1_000
        } else {
            0
        },
        None => row.uptime_secs == 0,
    }
}

/// Whether the rows of an app show its instances, each once, the lower replicas first.
pub open spec fn shows_instances(
    list: Seq<InstanceStatus>,
    insts: Seq<Instance>,
    app: Seq<char>,
    now: u64,
    src: Seq<int>,
) -> bool {
    &&& src.len() == list.len()
    &&& forall|k: int|
        0 <= k < src.len() ==> 0 <= #[trigger] src[k] < insts.len() && insts[src[k]].app@ == app
            && is_row_of(list[k], insts[src[k]], now)
    &&& forall|k: int, l: int|
        0 <= k < l < src.len() ==> insts[#[trigger] src[k]].replica < insts[
            #[trigger] src[l]].replica || (insts[src[k]].replica == insts[src[l]].replica && src[k]
            < src[l])
    &&& forall|i: int| 0 <= i < insts.len() && (#[trigger] insts[i]).app@ == app ==> src.contains(i)
}

spec fn row_places(insts: Seq<Instance>, app: Seq<char>, n: int) -> Seq<int>
    decreases n,
{
    if n <= 0 {
        seq![]
    } else if insts[n - 1].app@ == app {
        row_places(insts, app, n - 1).push(n - 1)
    } else {
        row_places(insts, app, n - 1)
    }
}

proof fn lemma_row_places(insts: Seq<Instance>, app: Seq<char>, now: u64, n: int)
    requires
        0 <= n <= insts.len(),
    ensures
        ({
            let src = row_places(insts, app, n);
            let list = rows(insts, app, now, n);
            &&& src.len() == list.len()
            &&& src.len() <= n
            &&& forall|k: int|
                0 <= k < src.len() ==> 0 <= #[trigger] src[k] < n && insts[src[k]].app@ == app
                    && is_row_of(list[k], insts[src[k]], now)
            &&& forall|k: int, l: int|
                0 <= k < l < src.len() ==> #[trigger] src[k] < #[trigger] src[l]
            &&& forall|i: int| 0 <= i < n && (#[trigger] insts[i]).app@ == app ==> src.contains(i)
        }),
    decreases n,
{
    if n > 0 {
        lemma_row_places(insts, app, now, n - 1);
        let before = row_places(insts, app, n - 1);
        let src = row_places(insts, app, n);
        assert forall|i: int| 0 <= i < n && (#[trigger] insts[i]).app@ == app implies src.contains(
            i,
        ) by {
            if i == n - 1 {
                assert(src[before.len() as int] == i);
            } else {
                assert(before.contains(i));
                let k = choose|k: int| 0 <= k < before.len() && before[k] == i;
                assert(src[k] == i);
            }
        }
    }
}

/// The state shows every selected app, in the order of the manifest, with the number of replicas
/// that it asks for, the number of its instances that are ready, and every one of its instances
/// as it is, the lower replicas first.
pub proof fn law_state_shows_every_instance(
    s: ClusterState,
    r: Reconciler,
    now: u64,
    owner_pid: u32,
    updated_at: u64,
    k: int,
) -> (src: Seq<int>)
    requires
        is_snapshot(s, r, now, owner_pid, updated_at),
        r.instances@.len() <= usize::MAX,
        0 <= k < s.apps@.len(),
    ensures
        ({
            let picked = selected_apps(r.manifest, r.selected@, r.manifest.apps@.len() as int);
            let app = r.manifest.apps@[picked[k]];
            &&& s.apps@[k].name@ == app.name@
            &&& s.apps@[k].desired == app.replicas
            &&& count(
                r.instances@,
                |i: Instance| i.app@ == app.name@ && i.phase == Phase::Ready,
            ) <= u32::MAX ==> s.apps@[k].ready == count(
                r.instances@,
                |i: Instance| i.app@ == app.name@ && i.phase == Phase::Ready,
            )
            &&& shows_instances(s.apps@[k].instances@, r.instances@, app.name@, now, src)
        }),
{
    let picked = selected_apps(r.manifest, r.selected@, r.manifest.apps@.len() as int);
    let app = r.manifest.apps@[picked[k]];
    let insts = r.instances@;
    assert(shows_app(s.apps@[k], app, insts, now));
    lemma_count_alike(
        insts,
        |i: Instance| i.app@ == app.name@ && i.phase == Phase::Ready,
        ready_of(app.name@),
    );
    let list = rows(insts, app.name@, now, insts.len() as int);
    let out = s.apps@[k].instances@;
    let order = choose|order: Seq<usize>| #[trigger]
        is_stable_order(replica_keys(list), list.len() as int, order) && out == arranged(
            list,
            order,
        );
    lemma_row_places(insts, app.name@, now, insts.len() as int);
    let at = row_places(insts, app.name@, insts.len() as int);
    let src = Seq::new(order.len(), |x: int| at[order[x] as int]);
    assert forall|x: int| 0 <= x < src.len() implies 0 <= #[trigger] src[x] < insts.len()
        && insts[src[x]].app@ == app.name@ && is_row_of(out[x], insts[src[x]], now) by {
        let y = order[x] as int;
        assert(0 <= at[y] < insts.len());
    }
    assert forall|x: int, y: int| 0 <= x < y < src.len() implies insts[#[trigger] src[x]].replica
        < insts[#[trigger] src[y]].replica || (insts[src[x]].replica == insts[src[y]].replica
        && src[x] < src[y]) by {
        assert(key_before(replica_keys(list), order[x], order[y]));
        let u = order[x] as int;
        let v = order[y] as int;
        assert(is_row_of(list[u], insts[at[u]], now));
        assert(is_row_of(list[v], insts[at[v]], now));
    }
    assert forall|i: int| 0 <= i < insts.len() && (#[trigger] insts[i]).app@
        == app.name@ implies src.contains(i) by {
        assert(at.contains(i));
        let y = choose|y: int| 0 <= y < at.len() && at[y] == i;
        let u = y as usize;
        assert(order.contains(u));
        let x = choose|x: int| 0 <= x < order.len() && order[x] == u;
        assert(src[x] == i);
    }
    src
}

proof fn lemma_count_alike(
    insts: Seq<Instance>,
    p: spec_fn(Instance) -> bool,
    q: spec_fn(Instance) -> bool,
)
    requires
        forall|i: Instance| #[trigger] p(i) == q(i),
    ensures
        count(insts, p) == count(insts, q),
    decreases insts.len(),
{
    if insts.len() > 0 {
        lemma_count_alike(insts.drop_last(), p, q);
        assert(p(insts.last()) == q(insts.last()));
    }
}

/// The apps that the state shows are the selected ones, each once, in the order of the manifest.
pub proof fn law_state_shows_every_selected_app(m: Manifest, selected: Set<Seq<char>>, n: int)
    requires
        0 <= n <= m.apps@.len(),
    ensures
        ({
            let list = selected_apps(m, selected, n);
            &&& forall|k: int|
                0 <= k < list.len() ==> 0 <= #[trigger] list[k] < n && selected.contains(
                    m.apps@[list[k]].name@,
                )
            &&& forall|k: int, l: int|
                0 <= k < l < list.len() ==> #[trigger] list[k] < #[trigger] list[l]
            &&& forall|a: int|
                0 <= a < n && selected.contains((#[trigger] m.apps@[a]).name@) ==> list.contains(a)
        }),
    decreases n,
{
    if n > 0 {
        law_state_shows_every_selected_app(m, selected, n - 1);
        let before = selected_apps(m, selected, n - 1);
        let list = selected_apps(m, selected, n);
        assert forall|a: int|
            0 <= a < n && selected.contains((#[trigger] m.apps@[a]).name@) implies list.contains(
            a,
        ) by {
            if a == n - 1 {
                assert(list[before.len() as int] == a);
            } else {
                assert(before.contains(a));
                let k = choose|k: int| 0 <= k < before.len() && before[k] == a;
                assert(list[k] == a);
            }
        }
    }
}

// Starting a process.

/// What is started for an instance is the program of its app, found from the manifest's directory
/// unless it is absolute, with the app's arguments, in the app's directory or else the manifest's,
/// logging to a file of its own, as the user and in the group and within the limits of the app.
pub proof fn law_started_process(
    s: Spawn,
    m: Manifest,
    app: App,
    inst: Instance,
    parent: Seq<(Seq<char>, Seq<char>)>,
)
    requires
        starts(s, m, app, inst, parent),
    ensures
        s.app@ == inst.app@ && s.replica == inst.replica,
        app.bin@.len() > 0 && app.bin@[0] == '/' ==> s.bin@ == app.bin@,
        !(app.bin@.len() > 0 && app.bin@[0] == '/') ==> s.bin@ == joined_path(
            m.base_dir@,
            app.bin@,
        ),
        app.dir is None ==> s.cwd@ == joined_path(m.base_dir@, "."@),
        app.dir is Some && app.dir->0@.len() > 0 && app.dir->0@[0] == '/' ==> s.cwd@
            == app.dir->0@,
        app.dir is Some && !(app.dir->0@.len() > 0 && app.dir->0@[0] == '/') ==> s.cwd@
            == joined_path(m.base_dir@, app.dir->0@),
        s.args@.len() == app.args@.len(),
        forall|i: int| 0 <= i < s.args@.len() ==> (#[trigger] s.args@[i])@ == app.args@[i]@,
        s.log_path is Some,
        s.log_path->0@ == joined_path(
            joined_path(joined_path(m.base_dir@, ".artzain"@), "logs"@),
            inst.app@ + "-"@ + decimal_text(inst.replica as nat) + ".log"@,
        ),
        s.log_max_bytes == m.defaults.log_max_bytes,
        s.log_keep == m.defaults.log_keep,
        s.uid == app.uid,
        s.gid == app.gid,
        s.limits == app.limits,
{
    reveal_strlit(".");
    assert("."@.len() == 1 && "."@[0] == '.');
    let a = texts(s.args@);
    let b = texts(app.args@);
    assert(a.len() == b.len());
    assert forall|i: int| 0 <= i < s.args@.len() implies (#[trigger] s.args@[i])@
        == app.args@[i]@ by {
        assert(a[i] == b[i]);
    }
}

/// Whether a step comes before another in a list.
pub open spec fn comes_before(steps: Seq<ChildStep>, a: ChildStep, b: ChildStep) -> bool {
    exists|i: int, j: int|
        0 <= i < j < steps.len() && #[trigger] steps[i] == a && #[trigger] steps[j] == b
}

/// A process takes on its group, and leaves all others, before it takes on its user: after that it
/// could not. It does only what was asked for.
pub proof fn law_groups_before_user(uid: Option<u32>, gid: Option<u32>)
    ensures
        gid is Some ==> comes_before(
            identity_steps(uid, gid),
            ChildStep::SetGroup(gid->0),
            ChildStep::ClearGroups,
        ),
        gid is Some && uid is Some ==> comes_before(
            identity_steps(uid, gid),
            ChildStep::ClearGroups,
            ChildStep::SetUser(uid->0),
        ),
        uid is Some ==> identity_steps(uid, gid).contains(ChildStep::SetUser(uid->0)),
        identity_steps(uid, gid).len() == (if gid is Some {
            2int
        } else {
            0
        }) + (if uid is Some {
            1int
        } else {
            0
        }),
{
    let steps = identity_steps(uid, gid);
    if gid is Some {
        assert(steps[0] == ChildStep::SetGroup(gid->0) && steps[1] == ChildStep::ClearGroups);
        if uid is Some {
            assert(steps[2] == ChildStep::SetUser(uid->0));
        }
    } else if uid is Some {
        assert(steps[0] == ChildStep::SetUser(uid->0));
    }
}

/// Each limit that is set, and no other, is put on a process: the open files as they are, the
/// memory in bytes.
pub proof fn law_limits_are_put_on(l: Limits)
    requires
        l.memory_mb is Some ==> l.memory_mb->0 * 1_048_576 <= u64::MAX,
    ensures
        limit_steps(None).len() == 0,
        l.open_files is Some ==> limit_steps(Some(l)).contains(
            ChildStep::LimitFiles(l.open_files->0),
        ),
        l.memory_mb is Some ==> limit_steps(Some(l)).contains(
            ChildStep::LimitMemory((l.memory_mb->0 * 1_048_576) as u64),
        ),
        limit_steps(Some(l)).len() == (if l.open_files is Some {
            1int
        } else {
            0
        }) + (if l.memory_mb is Some {
            1int
        } else {
            0
        }),
{
    let steps = limit_steps(Some(l));
    if l.open_files is Some {
        assert(steps[0] == ChildStep::LimitFiles(l.open_files->0));
    }
    if l.memory_mb is Some {
        assert(steps[steps.len() - 1] == ChildStep::LimitMemory(
            (l.memory_mb->0 * 1_048_576) as u64,
        ));
    }
}

// Logs of a process.

/// Rotating moves each log file one number up, as long as that number is below how many are kept;
/// the oldest goes, and the first number is free.
pub proof fn law_rotation_moves_each_file_up<T>(files: Map<nat, T>, keep: u32, i: nat)
    requires
        keep >= 1,
        forall|k: nat| #[trigger] files.dom().contains(k) ==> k < keep,
    ensures
        ({
            let after = moved_all(files, rotation(keep), rotation(keep).len() as int);
            &&& !after.dom().contains(0)
            &&& i + 1 < keep ==> (after.dom().contains(i + 1) <==> files.dom().contains(i))
            &&& i + 1 < keep && files.dom().contains(i) ==> after[i + 1] == files[i]
            &&& i + 1 >= keep ==> !after.dom().contains(i + 1)
        }),
{
    law_rotation_shifts(files, keep);
    let after = moved_all(files, rotation(keep), rotation(keep).len() as int);
    assert(after == rotated(files, keep));
    if i + 1 >= keep {
        assert(!files.dom().contains(i + 1));
    }
}

// What is shown.

/// The plan has one line for each selected app, in the order in which they are started.
pub proof fn law_plan_shows_selected_apps_in_order(
    m: Manifest,
    selected: Set<Seq<char>>,
    order: Seq<int>,
    n: int,
) -> (src: Seq<int>)
    requires
        0 <= n <= order.len(),
    ensures
        ({
            let list = app_lines(m, selected, order, n);
            &&& src.len() == list.len()
            &&& forall|k: int|
                0 <= k < src.len() ==> 0 <= #[trigger] src[k] < n && selected.contains(
                    m.apps@[order[src[k]]].name@,
                ) && list[k] == app_line(m, m.apps@[order[src[k]]])
            &&& forall|k: int, l: int|
                0 <= k < l < src.len() ==> #[trigger] src[k] < #[trigger] src[l]
            &&& forall|p: int|
                0 <= p < n && selected.contains(m.apps@[#[trigger] order[p]].name@)
                    ==> src.contains(p)
        }),
    decreases n,
{
    if n <= 0 {
        seq![]
    } else {
        let before = law_plan_shows_selected_apps_in_order(m, selected, order, n - 1);
        if selected.contains(m.apps@[order[n - 1]].name@) {
            let src = before.push(n - 1);
            assert forall|p: int|
                0 <= p < n && selected.contains(
                    m.apps@[#[trigger] order[p]].name@,
                ) implies src.contains(p) by {
                if p == n - 1 {
                    assert(src[before.len() as int] == p);
                } else {
                    assert(before.contains(p));
                    let k = choose|k: int| 0 <= k < before.len() && before[k] == p;
                    assert(src[k] == p);
                }
            }
            src
        } else {
            before
        }
    }
}

/// The status has a line for every instance of every app, with the numbers of that app.
pub proof fn law_status_shows_every_instance(apps: Seq<AppStatus>, n: int, a: int, i: int)
    requires
        0 <= a < n <= apps.len(),
        0 <= i < apps[a].instances@.len(),
    ensures
        status_body(apps, n).contains(instance_line(apps[a], apps[a].instances@[i])),
    decreases n,
{
    let all = status_body(apps, n);
    let head = status_body(apps, n - 1);
    let msg = instance_line(apps[a], apps[a].instances@[i]);
    if a < n - 1 {
        law_status_shows_every_instance(apps, n - 1, a, i);
        let k = choose|k: int| 0 <= k < head.len() && head[k] == msg;
        assert(all[k] == msg);
    } else {
        assert(status_rows(apps[a])[i] == msg);
        assert(all[head.len() + i] == msg);
    }
}

/// The status counts as good exactly when every selected app has as many ready instances as it has
/// replicas.
pub proof fn law_status_is_good_when_all_are_ready(
    s: ClusterState,
    r: Reconciler,
    now: u64,
    owner_pid: u32,
    updated_at: u64,
)
    requires
        is_snapshot(s, r, now, owner_pid, updated_at),
        r.instances@.len() <= u32::MAX,
        r.instances@.len() <= usize::MAX,
    ensures
        all_apps_ready(s) <==> forall|a: int|
            0 <= a < r.manifest.apps@.len() && r.selected@.contains(
                (#[trigger] r.manifest.apps@[a]).name@,
            ) ==> count(
                r.instances@,
                |i: Instance| i.app@ == r.manifest.apps@[a].name@ && i.phase == Phase::Ready,
            ) >= r.manifest.apps@[a].replicas,
{
    let m = r.manifest;
    let list = selected_apps(m, r.selected@, m.apps@.len() as int);
    law_state_shows_every_selected_app(m, r.selected@, m.apps@.len() as int);
    assert forall|k: int| 0 <= k < s.apps@.len() implies (#[trigger] s.apps@[k]).ready == count(
        r.instances@,
        |i: Instance| i.app@ == m.apps@[list[k]].name@ && i.phase == Phase::Ready,
    ) && s.apps@[k].desired == m.apps@[list[k]].replicas by {
        let src = law_state_shows_every_instance(s, r, now, owner_pid, updated_at, k);
        lemma_count_within(
            r.instances@,
            |i: Instance| i.app@ == m.apps@[list[k]].name@ && i.phase == Phase::Ready,
        );
    }
    if all_apps_ready(s) {
        assert forall|a: int|
            0 <= a < m.apps@.len() && r.selected@.contains(
                (#[trigger] m.apps@[a]).name@,
            ) implies count(
            r.instances@,
            |i: Instance| i.app@ == m.apps@[a].name@ && i.phase == Phase::Ready,
        ) >= m.apps@[a].replicas by {
            assert(list.contains(a));
            let k = choose|k: int| 0 <= k < list.len() && list[k] == a;
            assert(s.apps@[k].ready >= s.apps@[k].desired);
        }
    } else {
        let k = choose|k: int|
            0 <= k < s.apps@.len() && !((#[trigger] s.apps@[k]).ready >= s.apps@[k].desired);
        assert(r.selected@.contains(m.apps@[list[k]].name@));
    }
}

proof fn lemma_count_within(insts: Seq<Instance>, p: spec_fn(Instance) -> bool)
    ensures
        count(insts, p) <= insts.len(),
    decreases insts.len(),
{
    if insts.len() > 0 {
        lemma_count_within(insts.drop_last(), p);
    }
}

/// A process group is signalled as a group and never as anything else: by the negative of a number
/// that a group can have. A process is signalled by its own number.
pub proof fn law_signals_reach_only_what_is_meant(pgid: i32, pid: u32)
    ensures
        group_number(pgid) matches Some(t) ==> t < 0 && t == -pgid,
        group_number(pgid) is Some <==> pgid >= 1,
        process_number(pid) matches Some(t) ==> t > 0 && t == pid,
        process_number(pid) is Some <==> 1 <= pid < 0x8000_0000,
{
}

/// Only an error that says so means that a process is gone: one that may not be signalled, or that
/// the system says anything else of, counts as living.
pub proof fn law_gone_only_if_the_system_says_so(rc: i32, errno: i32)
    ensures
        !lives(rc, errno) <==> rc != 0 && errno == 3,
{
}

/// A log file is rotated exactly when one more line, with its line break, would take it past its
/// limit, and never without a limit. A line then goes into an empty file.
pub proof fn law_rotated_when_full(size: u64, line_len: u64, max_bytes: u64)
    requires
        size + line_len < u64::MAX,
    ensures
        must_rotate(size, line_len, max_bytes) <==> max_bytes != 0 && size + line_len + 1
            > max_bytes,
        size_with(size, line_len, false) == size + line_len + 1,
        size_with(size, line_len, true) == line_len + 1,
{
}

/// A file that grew is read on from where it was left, one that did not is not read, and one that
/// is shorter than it was is read from its start.
pub proof fn law_followed_without_gaps(pos: u64, last_size: u64, size: u64)
    requires
        pos <= last_size,
    ensures
        last_size <= size && pos < size ==> resume_at(pos, last_size, size) == Some(pos),
        last_size <= size && pos == size ==> resume_at(pos, last_size, size) is None,
        size < last_size ==> resume_at(pos, last_size, size) == Some(0u64),
{
}

/// Groups left behind are waited for until the deadline, and killed from then on while any of them
/// lives; the work is done exactly when none does.
pub proof fn law_reclaiming_ends_with_the_last_group(
    step: ReclaimStep,
    groups: Seq<i32>,
    alive: Seq<bool>,
    now: u64,
    deadline: u64,
    g: i32,
)
    requires
        alive.len() == groups.len(),
        is_reclaim_step(step, groups, alive, now, deadline),
    ensures
        step is Done <==> forall|i: int| 0 <= i < alive.len() ==> !#[trigger] alive[i],
        step is Wait ==> now < deadline,
        step is Kill ==> now >= deadline,
        step matches ReclaimStep::Kill(list) ==> (list@.contains(g) <==> exists|i: int|
            0 <= i < groups.len() && #[trigger] groups[i] == g && alive[i]),
{
    law_living_groups_are_killed(groups, alive, groups.len() as int, g);
}

/// The state says whose it is: the project's name, or a plain one where it has none, the process
/// that owns the cluster, and when it was written.
pub proof fn law_state_says_whose_it_is(
    s: ClusterState,
    r: Reconciler,
    now: u64,
    owner_pid: u32,
    updated_at: u64,
)
    requires
        is_snapshot(s, r, now, owner_pid, updated_at),
    ensures
        r.manifest.project is Some ==> s.project@ == r.manifest.project->0@,
        r.manifest.project is None ==> s.project@ == "local"@,
        s.owner_pid == owner_pid,
        s.updated_at == updated_at,
{
}

} // verus!
