//! What the commands print: the plan of a manifest, the state of a cluster, and why a cluster is
//! not signalled.

use crate::graph::{cycle_message, ints, start_order};
use crate::manifest::{App, Check, Manifest};
use crate::order::NameSet;
use crate::state::{AppStatus, ClusterState, InstanceStatus};
use crate::text::{
    decimal, decimal_text, join2, join3, pad_right, padded, signed_decimal, signed_text, texts,
};
use vstd::prelude::*;

verus! {

/// The target of a check, as the plan shows it.
pub open spec fn shown_target(check: Check) -> Seq<char> {
    match (check.tcp, check.http) {
        (Some(t), _) => t@,
        (None, Some(h)) => h@,
        (None, None) => "?"@,
    }
}

/// The plan's line on a check.
pub open spec fn check_line(check: Check) -> Seq<char> {
    "check:   "@ + check.name@ + " ("@ + shown_target(check) + ")"@
}

/// The plan's lines before those on the apps.
pub open spec fn plan_head_lines(m: Manifest) -> Seq<Seq<char>> {
    seq!["project: "@ + m.label()] + Seq::new(m.checks@.len(), |i: int| check_line(m.checks@[i]))
}

/// The ports of an app, as the plan shows them.
pub open spec fn shown_ports(app: App) -> Seq<char> {
    if app.replicas == 1 {
        decimal_text(app.port as nat)
    } else {
        decimal_text(app.port as nat) + "-"@ + decimal_text((app.port_end() - 1) as nat)
    }
}

/// The plan's line on an app.
pub open spec fn app_line(m: Manifest, app: App) -> Seq<char> {
    "app:     "@ + app.name@ + " x"@ + decimal_text(app.replicas as nat) + " — "@ + m.resolved(
        app.bin@,
    ) + " (ports "@ + shown_ports(app) + ")"@
}

/// The plan's lines on the selected ones among the first `n` apps of an order.
pub open spec fn app_lines(
    m: Manifest,
    selected: Set<Seq<char>>,
    order: Seq<int>,
    n: int,
) -> Seq<Seq<char>>
    decreases n,
{
    if n <= 0 {
        seq![]
    } else {
        let before = app_lines(m, selected, order, n - 1);
        let app = m.apps@[order[n - 1]];
        if selected.contains(app.name@) {
            before.push(app_line(m, app))
        } else {
            before
        }
    }
}

fn show_check(check: &Check) -> (r: String)
    ensures
        r@ == check_line(*check),
{
    let target = match &check.tcp {
        Some(t) => t.as_str(),
        None => match &check.http {
            Some(h) => h.as_str(),
            None => "?",
        },
    };
    let mut r = join3("check:   ", check.name.as_str(), " (");
    r.append(target);
    r.append(")");
    r
}

/// The first lines of a plan: the project, and the checks.
pub fn plan_head(manifest: &Manifest) -> (r: Vec<String>)
    ensures
        texts(r@) == plan_head_lines(*manifest),
{
    let mut out: Vec<String> = Vec::new();
    out.push(join2("project: ", manifest.project()));
    let mut i: usize = 0;
    while i < manifest.checks.len()
        invariant
            i <= manifest.checks@.len(),
            out@.len() == i + 1,
            out@[0]@ == "project: "@ + manifest.label(),
            forall|k: int|
                1 <= k < out@.len() ==> (#[trigger] out@[k])@ == check_line(
                    manifest.checks@[k - 1],
                ),
        decreases manifest.checks@.len() - i,
    {
        out.push(show_check(&manifest.checks[i]));
        i += 1;
    }
    assert(texts(out@) =~= plan_head_lines(*manifest));
    out
}

fn show_app_line(manifest: &Manifest, app: &App) -> (r: String)
    requires
        app.port_end() <= 0x1_0000,
        app.replicas >= 1,
    ensures
        r@ == app_line(*manifest, *app),
{
    let first = decimal(app.port as u64);
    let ports = if app.replicas == 1 {
        first
    } else {
        let last = decimal(app.port as u64 + app.replicas as u64 - 1);
        join3(first.as_str(), "-", last.as_str())
    };
    let replicas = decimal(app.replicas as u64);
    let bin = manifest.resolve(app.bin.as_str());
    let mut r = join3("app:     ", app.name.as_str(), " x");
    r.append(replicas.as_str());
    r.append(" — ");
    r.append(bin.as_str());
    r.append(" (ports ");
    r.append(ports.as_str());
    r.append(")");
    r
}

/// The lines of a plan on the selected apps, in start order. A dependency cycle is an error.
pub fn plan_apps(manifest: &Manifest, selected: &NameSet) -> (r: Result<Vec<String>, String>)
    requires
        manifest.valid(),
        selected.wf(),
    ensures
        match start_order(manifest.apps@) {
            Ok(order) => r matches Ok(list) && texts(list@) == app_lines(
                *manifest,
                selected@,
                order,
                order.len() as int,
            ),
            Err(i) => r matches Err(e) && e@ == cycle_message(manifest.apps@[i].name@),
        },
{
    let order = match manifest.app_order() {
        Ok(order) => order,
        Err(e) => {
            return Err(e);
        },
    };
    let ghost all = ints(order@);
    let mut out: Vec<String> = Vec::new();
    let mut p: usize = 0;
    assert(texts(out@) =~= seq![]);
    while p < order.len()
        invariant
            p <= order@.len(),
            manifest.valid(),
            selected.wf(),
            all == ints(order@),
            forall|q: int| 0 <= q < order@.len() ==> #[trigger] order@[q] < manifest.apps@.len(),
            texts(out@) == app_lines(*manifest, selected@, all, p as int),
        decreases order@.len() - p,
    {
        let app = &manifest.apps[order[p]];
        assert(all[p as int] == order@[p as int]);
        if selected.contains(app.name.as_str()) {
            let line = show_app_line(manifest, app);
            let ghost before = out@;
            out.push(line);
            assert(texts(out@) =~= texts(before).push(line@));
        }
        p += 1;
    }
    Ok(out)
}

/// The first line of a status.
pub open spec fn status_title(s: ClusterState, now: u64) -> Seq<char> {
    "cluster "@ + s.project@ + "  (pid "@ + decimal_text(s.owner_pid as nat) + ", updated "@
        + decimal_text(age(s.updated_at, now)) + "s ago)"@
}

/// How long ago a time was.
pub open spec fn age(then: u64, now: u64) -> nat {
    if now >= then {
        (now - then) as nat
    } else {
        0
    }
}

/// The columns of a status.
pub open spec fn status_columns() -> Seq<char> {
    padded("APP"@, 16) + " "@ + padded("READY"@, 8) + " "@ + padded("REPLICA"@, 7) + " "@ + padded(
        "PORT"@,
        6,
    ) + " "@ + padded("PHASE"@, 8) + " RESTARTS"@
}

/// The columns on an app in each of its lines.
pub open spec fn app_columns(app: AppStatus) -> Seq<char> {
    padded(app.name@, 16) + " "@ + padded(
        decimal_text(app.ready as nat) + "/"@ + decimal_text(app.desired as nat),
        8,
    ) + " "@
}

/// The line of a status on an instance.
pub open spec fn instance_line(app: AppStatus, i: InstanceStatus) -> Seq<char> {
    app_columns(app) + padded(decimal_text(i.replica as nat), 7) + " "@ + padded(
        decimal_text(i.port as nat),
        6,
    ) + " "@ + padded(i.phase.text(), 8) + " "@ + decimal_text(i.restarts as nat) + " ("@
        + decimal_text(i.uptime_secs as nat) + "s up)"@
}

/// The lines of a status on an app: one for each instance, or one that says there is none.
pub open spec fn status_rows(app: AppStatus) -> Seq<Seq<char>> {
    if app.instances@.len() == 0 {
        seq![app_columns(app) + "(no instances)"@]
    } else {
        Seq::new(app.instances@.len(), |i: int| instance_line(app, app.instances@[i]))
    }
}

/// The lines of a status on the first `n` apps.
pub open spec fn status_body(apps: Seq<AppStatus>, n: int) -> Seq<Seq<char>>
    decreases n,
{
    if n <= 0 {
        seq![]
    } else {
        status_body(apps, n - 1) + status_rows(apps[n - 1])
    }
}

fn show_app_columns(app: &AppStatus) -> (r: String)
    ensures
        r@ == app_columns(*app),
{
    let mut r = pad_right(app.name.as_str(), 16);
    r.append(" ");
    let ready = decimal(app.ready as u64);
    let desired = decimal(app.desired as u64);
    let both = join3(ready.as_str(), "/", desired.as_str());
    r.append(pad_right(both.as_str(), 8).as_str());
    r.append(" ");
    r
}

fn show_instance_line(app: &AppStatus, i: &InstanceStatus) -> (r: String)
    ensures
        r@ == instance_line(*app, *i),
{
    let mut r = show_app_columns(app);
    let replica = decimal(i.replica as u64);
    let port = decimal(i.port as u64);
    r.append(pad_right(replica.as_str(), 7).as_str());
    r.append(" ");
    r.append(pad_right(port.as_str(), 6).as_str());
    r.append(" ");
    r.append(pad_right(i.phase.as_str(), 8).as_str());
    r.append(" ");
    r.append(decimal(i.restarts as u64).as_str());
    r.append(" (");
    r.append(decimal(i.uptime_secs).as_str());
    r.append("s up)");
    r
}

/// The lines of a status, `now` being the Unix seconds of now.
pub fn status_lines(state: &ClusterState, now: u64) -> (r: Vec<String>)
    ensures
        texts(r@) == seq![status_title(*state, now), seq![], status_columns()] + status_body(
            state.apps@,
            state.apps@.len() as int,
        ),
{
    let mut out: Vec<String> = Vec::new();
    let mut title = join3("cluster ", state.project.as_str(), "  (pid ");
    title.append(decimal(state.owner_pid as u64).as_str());
    title.append(", updated ");
    title.append(decimal(now.saturating_sub(state.updated_at)).as_str());
    title.append("s ago)");
    assert(title@ == status_title(*state, now));
    out.push(title);
    out.push(String::new());
    let mut columns = pad_right("APP", 16);
    columns.append(" ");
    columns.append(pad_right("READY", 8).as_str());
    columns.append(" ");
    columns.append(pad_right("REPLICA", 7).as_str());
    columns.append(" ");
    columns.append(pad_right("PORT", 6).as_str());
    columns.append(" ");
    columns.append(pad_right("PHASE", 8).as_str());
    columns.append(" RESTARTS");
    assert(columns@ == status_columns());
    out.push(columns);
    let ghost head = seq![status_title(*state, now), seq![], status_columns()];
    assert(texts(out@) =~= head + seq![]);
    let mut a: usize = 0;
    while a < state.apps.len()
        invariant
            a <= state.apps@.len(),
            texts(out@) == head + status_body(state.apps@, a as int),
        decreases state.apps@.len() - a,
    {
        let app = &state.apps[a];
        let ghost before = texts(out@);
        if app.instances.len() == 0 {
            let mut line = show_app_columns(app);
            line.append("(no instances)");
            out.push(line);
            assert(texts(out@) =~= before + status_rows(*app));
        } else {
            let mut i: usize = 0;
            assert(status_rows(*app).take(0) =~= seq![]);
            assert(before + seq![] =~= before);
            while i < app.instances.len()
                invariant
                    i <= app.instances@.len(),
                    app.instances@.len() > 0,
                    texts(out@) == before + status_rows(*app).take(i as int),
                decreases app.instances@.len() - i,
            {
                let line = show_instance_line(app, &app.instances[i]);
                let ghost now_out = texts(out@);
                out.push(line);
                proof {
                    assert(texts(out@) =~= now_out.push(line@));
                    assert(status_rows(*app).take(i + 1) =~= status_rows(*app).take(
                        i as int,
                    ).push(line@));
                }
                i += 1;
            }
            assert(status_rows(*app).take(i as int) =~= status_rows(*app));
        }
        assert(head + status_body(state.apps@, a as int) + status_rows(*app) =~= head + (
        status_body(state.apps@, a as int) + status_rows(*app)));
        a += 1;
    }
    out
}

/// Whether no app lacks a ready instance.
pub open spec fn all_apps_ready(state: ClusterState) -> bool {
    forall|i: int|
        0 <= i < state.apps@.len() ==> (#[trigger] state.apps@[i]).ready >= state.apps@[i].desired
}

/// Whether every app has as many ready instances as it asks for.
pub fn fully_ready(state: &ClusterState) -> (r: bool)
    ensures
        r <==> forall|i: int|
            0 <= i < state.apps@.len() ==> (#[trigger] state.apps@[i]).ready
                >= state.apps@[i].desired,
        r == all_apps_ready(*state),
{
    let mut i: usize = 0;
    while i < state.apps.len()
        invariant
            i <= state.apps@.len(),
            forall|k: int|
                0 <= k < i ==> (#[trigger] state.apps@[k]).ready >= state.apps@[k].desired,
        decreases state.apps@.len() - i,
    {
        if state.apps[i].ready < state.apps[i].desired {
            return false;
        }
        i += 1;
    }
    true
}

/// A process number as the system sees it.
pub open spec fn signed_pid(pid: u32) -> int {
    if pid <= 0x7fff_ffff {
        pid as int
    } else {
        pid - 0x1_0000_0000
    }
}

fn signed(pid: u32) -> (r: i32)
    ensures
        r == signed_pid(pid),
{
    if pid <= 0x7fff_ffff {
        pid as i32
    } else {
        -1 - (0xffff_ffff - pid) as i32
    }
}

/// Why the owner of a cluster is not signalled, if it is not: the lock file must name the same
/// process as the state, and that process must live.
pub open spec fn down_refusal(owner: u32, lock: Option<u32>, alive: bool) -> Option<Seq<char>> {
    match lock {
        Some(pid) => if pid != owner {
            Some(
                "lock file does not match state owner pid — refusing to signal an unrelated process (use --force to override)"@,
            )
        } else if !alive {
            Some(
                "cluster owner pid "@ + signed_text(signed_pid(owner))
                    + " is not running; the cluster may already be down (use --force to override)"@,
            )
        } else {
            None
        },
        None => Some(
            "no lock file found; the cluster may already be down (use --force to override)"@,
        ),
    }
}

/// Whether the owner of a cluster may be signalled: `owner` is the process in the state, `lock`
/// the one in the lock file, if there is one, and `alive` says whether the owner lives.
pub fn may_signal(owner: u32, lock: Option<u32>, alive: bool) -> (r: Result<(), String>)
    ensures
        match down_refusal(owner, lock, alive) {
            None => r is Ok,
            Some(m) => r matches Err(e) && e@ == m,
        },
{
    match lock {
        Some(pid) => {
            if pid != owner {
                Err(
                    "lock file does not match state owner pid — refusing to signal an unrelated process (use --force to override)".to_owned(),
                )
            } else if !alive {
                let n = signed_decimal(signed(owner));
                Err(
                    join3(
                        "cluster owner pid ",
                        n.as_str(),
                        " is not running; the cluster may already be down (use --force to override)",
                    ),
                )
            } else {
                Ok(())
            }
        },
        None => Err(
            "no lock file found; the cluster may already be down (use --force to override)".to_owned(),
        ),
    }
}

/// What is said where there is no state to read.
pub fn missing_state(path: &str) -> (r: String)
    ensures
        r@ == "no running cluster (state file "@ + path@
            + " not found) — start one with `artzain up`"@,
{
    join3(
        "no running cluster (state file ",
        path,
        " not found) — start one with `artzain up`",
    )
}

} // verus!
