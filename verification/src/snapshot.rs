//! The observable state of the cluster, taken from what the loop knows.

use crate::fleet::{count, ready_of, uptime, uptime_ms, Instance};
use crate::manifest::{App, Defaults, Manifest};
use crate::order::{is_stable_order, lemma_one_stable_order, stable_order};
use crate::reconcile::Reconciler;
use crate::roll::ready_total;
use crate::state::{AppStatus, ClusterState, InstanceStatus};
use crate::text::str_eq;
use vstd::prelude::*;

verus! {

/// The version of the form in which the state is written.
pub const STATE_VERSION: u32 = 1;

/// An instance as the status shows it. Nothing of its environment is part of it.
pub open spec fn shown(inst: Instance, now: u64) -> InstanceStatus {
    InstanceStatus {
        replica: inst.replica,
        port: inst.port,
        phase: inst.phase,
        pid: match inst.handle {
            Some(h) => h.pid,
            None => None,
        },
        pgid: inst.group(),
        restarts: inst.restarts,
        uptime_secs: uptime(inst.started_at, now) / 1000,
    }
}

/// The instances of an app among the first `n`, as the status shows them.
pub open spec fn rows(insts: Seq<Instance>, app: Seq<char>, now: u64, n: int) -> Seq<InstanceStatus>
    decreases n,
{
    if n <= 0 {
        seq![]
    } else if insts[n - 1].app@ == app {
        rows(insts, app, now, n - 1).push(shown(insts[n - 1], now))
    } else {
        rows(insts, app, now, n - 1)
    }
}

/// The replicas of a list of rows, as keys.
pub open spec fn replica_keys(list: Seq<InstanceStatus>) -> Seq<u64> {
    Seq::new(list.len(), |i: int| list[i].replica as u64)
}

/// A list in a given order.
pub open spec fn arranged(list: Seq<InstanceStatus>, order: Seq<usize>) -> Seq<InstanceStatus> {
    Seq::new(order.len(), |k: int| list[order[k] as int])
}

/// Whether `out` holds the rows of `list` from the lowest replica to the highest; rows of one
/// replica stay in their order.
pub open spec fn sorted_rows(list: Seq<InstanceStatus>, out: Seq<InstanceStatus>) -> bool {
    exists|order: Seq<usize>| #[trigger]
        is_stable_order(replica_keys(list), list.len() as int, order) && out == arranged(
            list,
            order,
        )
}

/// A number of instances, as the status shows it.
pub open spec fn shown_count(n: nat) -> u32 {
    if n > u32::MAX {
        u32::MAX
    } else {
        n as u32
    }
}

/// Whether `s` shows an app as it is.
pub open spec fn shows_app(s: AppStatus, app: App, insts: Seq<Instance>, now: u64) -> bool {
    &&& s.name@ == app.name@
    &&& s.desired == app.replicas
    &&& s.ready == shown_count(count(insts, ready_of(app.name@)))
    &&& sorted_rows(rows(insts, app.name@, now, insts.len() as int), s.instances@)
}

/// The selected ones among the first `n` apps of a manifest, in its order.
pub open spec fn selected_apps(m: Manifest, selected: Set<Seq<char>>, n: int) -> Seq<int>
    decreases n,
{
    if n <= 0 {
        seq![]
    } else if selected.contains(m.apps@[n - 1].name@) {
        selected_apps(m, selected, n - 1).push(n - 1)
    } else {
        selected_apps(m, selected, n - 1)
    }
}

/// Whether `s` is the state of a cluster at `now`: the selected apps in the order of the manifest,
/// each as it is.
pub open spec fn is_snapshot(
    s: ClusterState,
    r: Reconciler,
    now: u64,
    owner_pid: u32,
    updated_at: u64,
) -> bool {
    let picked = selected_apps(r.manifest, r.selected@, r.manifest.apps@.len() as int);
    &&& s.state_version == STATE_VERSION
    &&& s.project@ == r.manifest.label()
    &&& s.owner_pid == owner_pid
    &&& s.updated_at == updated_at
    &&& s.apps@.len() == picked.len()
    &&& forall|k: int|
        0 <= k < s.apps@.len() ==> shows_app(
            #[trigger] s.apps@[k],
            r.manifest.apps@[picked[k]],
            r.instances@,
            now,
        )
}

fn show(inst: &Instance, now: u64) -> (r: InstanceStatus)
    ensures
        r == shown(*inst, now),
{
    InstanceStatus {
        replica: inst.replica,
        port: inst.port,
        phase: inst.phase,
        pid: match inst.handle {
            Some(h) => h.pid,
            None => None,
        },
        pgid: match inst.handle {
            Some(h) => Some(h.pgid),
            None => None,
        },
        restarts: inst.restarts,
        uptime_secs: uptime_ms(inst.started_at, now) / 1000,
    }
}

fn show_app(app: &App, instances: &Vec<Instance>, now: u64) -> (s: AppStatus)
    ensures
        shows_app(s, *app, instances@, now),
{
    let mut list: Vec<InstanceStatus> = Vec::new();
    let mut keys: Vec<u64> = Vec::new();
    let mut i: usize = 0;
    while i < instances.len()
        invariant
            i <= instances@.len(),
            list@ == rows(instances@, app.name@, now, i as int),
            keys@ == replica_keys(list@),
        decreases instances@.len() - i,
    {
        if str_eq(instances[i].app.as_str(), app.name.as_str()) {
            let row = show(&instances[i], now);
            keys.push(row.replica as u64);
            list.push(row);
            assert(keys@ =~= replica_keys(list@));
        }
        i += 1;
    }
    let order = stable_order(&keys);
    let mut sorted: Vec<InstanceStatus> = Vec::new();
    let mut k: usize = 0;
    while k < order.len()
        invariant
            k <= order@.len(),
            is_stable_order(replica_keys(list@), list@.len() as int, order@),
            sorted@.len() == k,
            forall|j: int| 0 <= j < k ==> #[trigger] sorted@[j] == arranged(list@, order@)[j],
        decreases order@.len() - k,
    {
        sorted.push(list[order[k]]);
        k += 1;
    }
    assert(sorted@ =~= arranged(list@, order@));
    let n = ready_total(instances, app.name.as_str());
    let ready: u32 = if n as u64 > u32::MAX as u64 {
        u32::MAX
    } else {
        n as u32
    };
    AppStatus { name: app.name.clone(), desired: app.replicas, ready, instances: sorted }
}

impl Reconciler {
    /// The state as it is now: the selected apps in the order of the manifest, each with its
    /// instances from the lowest replica to the highest.
    pub fn snapshot(&self, now: u64, owner_pid: u32, updated_at: u64) -> (s: ClusterState)
        requires
            self.wf(),
        ensures
            is_snapshot(s, *self, now, owner_pid, updated_at),
    {
        let ghost m = self.manifest;
        let mut apps: Vec<AppStatus> = Vec::new();
        let mut a: usize = 0;
        while a < self.manifest.apps.len()
            invariant
                self.wf(),
                m == self.manifest,
                a <= m.apps@.len(),
                apps@.len() == selected_apps(m, self.selected@, a as int).len(),
                forall|k: int|
                    0 <= k < apps@.len() ==> shows_app(
                        #[trigger] apps@[k],
                        m.apps@[selected_apps(m, self.selected@, a as int)[k]],
                        self.instances@,
                        now,
                    ),
            decreases m.apps@.len() - a,
        {
            let app = &self.manifest.apps[a];
            if self.selected.contains(app.name.as_str()) {
                apps.push(show_app(app, &self.instances, now));
            }
            a += 1;
        }
        ClusterState {
            state_version: STATE_VERSION,
            project: self.manifest.project().to_owned(),
            owner_pid,
            updated_at,
            apps,
        }
    }
}

/// Whether two manifests are the same but for what their environments hold.
pub open spec fn same_but_env(a: Manifest, b: Manifest) -> bool {
    &&& b == (Manifest {
        defaults: Defaults { env: b.defaults.env, ..a.defaults },
        apps: b.apps,
        ..a
    })
    &&& a.apps@.len() == b.apps@.len()
    &&& forall|i: int|
        0 <= i < a.apps@.len() ==> (#[trigger] b.apps@[i]) == (App {
            env: b.apps@[i].env,
            ..a.apps@[i]
        })
}

/// Whether two lists of instances are the same but for the fingerprints, which go by the
/// environment.
pub open spec fn same_but_hash(a: Seq<Instance>, b: Seq<Instance>) -> bool {
    &&& a.len() == b.len()
    &&& forall|i: int|
        0 <= i < a.len() ==> (#[trigger] b[i]) == (Instance { spec_hash: b[i].spec_hash, ..a[i] })
}

/// Whether two states hold the same.
pub open spec fn same_state(a: ClusterState, b: ClusterState) -> bool {
    &&& a.state_version == b.state_version
    &&& a.project@ == b.project@
    &&& a.owner_pid == b.owner_pid
    &&& a.updated_at == b.updated_at
    &&& a.apps@.len() == b.apps@.len()
    &&& forall|k: int|
        0 <= k < a.apps@.len() ==> same_app_status(#[trigger] a.apps@[k], b.apps@[k])
}

/// Whether two apps are shown alike.
pub open spec fn same_app_status(a: AppStatus, b: AppStatus) -> bool {
    &&& a.name@ == b.name@
    &&& a.desired == b.desired
    &&& a.ready == b.ready
    &&& a.instances@ == b.instances@
}

proof fn lemma_rows_alike(a: Seq<Instance>, b: Seq<Instance>, app: Seq<char>, now: u64, n: int)
    requires
        same_but_hash(a, b),
        0 <= n <= a.len(),
    ensures
        rows(a, app, now, n) == rows(b, app, now, n),
        count(a.take(n), ready_of(app)) == count(b.take(n), ready_of(app)),
        rows(a, app, now, n).len() <= n,
    decreases n,
{
    if n > 0 {
        lemma_rows_alike(a, b, app, now, n - 1);
        assert(b[n - 1] == (Instance { spec_hash: b[n - 1].spec_hash, ..a[n - 1] }));
        assert(a.take(n).drop_last() =~= a.take(n - 1));
        assert(b.take(n).drop_last() =~= b.take(n - 1));
    } else {
        assert(a.take(0) =~= seq![]);
        assert(b.take(0) =~= seq![]);
    }
}

proof fn lemma_selected_alike(a: Manifest, b: Manifest, selected: Set<Seq<char>>, n: int)
    requires
        same_but_env(a, b),
        0 <= n <= a.apps@.len(),
    ensures
        selected_apps(a, selected, n) == selected_apps(b, selected, n),
        forall|k: int|
            0 <= k < selected_apps(a, selected, n).len() ==> 0 <= #[trigger] selected_apps(
                a,
                selected,
                n,
            )[k] < n,
    decreases n,
{
    if n > 0 {
        lemma_selected_alike(a, b, selected, n - 1);
        assert(b.apps@[n - 1] == (App { env: b.apps@[n - 1].env, ..a.apps@[n - 1] }));
    }
}

/// Nothing of an environment gets into the state: two clusters that differ only in what their
/// manifests put into environments, and so in fingerprints, are shown alike.
pub proof fn law_state_holds_no_environment(
    r1: Reconciler,
    r2: Reconciler,
    s1: ClusterState,
    s2: ClusterState,
    now: u64,
    owner_pid: u32,
    updated_at: u64,
)
    requires
        same_but_env(r1.manifest, r2.manifest),
        r1.selected@ == r2.selected@,
        same_but_hash(r1.instances@, r2.instances@),
        r1.instances@.len() <= usize::MAX,
        is_snapshot(s1, r1, now, owner_pid, updated_at),
        is_snapshot(s2, r2, now, owner_pid, updated_at),
    ensures
        same_state(s1, s2),
{
    let m1 = r1.manifest;
    let m2 = r2.manifest;
    let n = m1.apps@.len() as int;
    lemma_selected_alike(m1, m2, r1.selected@, n);
    let picked = selected_apps(m1, r1.selected@, n);
    assert forall|k: int| 0 <= k < s1.apps@.len() implies same_app_status(
        #[trigger] s1.apps@[k],
        s2.apps@[k],
    ) by {
        let i = picked[k];
        assert(m2.apps@[i] == (App { env: m2.apps@[i].env, ..m1.apps@[i] }));
        assert(shows_app(s1.apps@[k], m1.apps@[i], r1.instances@, now));
        assert(shows_app(s2.apps@[k], m2.apps@[i], r2.instances@, now));
        let app = m1.apps@[i].name@;
        let all = r1.instances@.len() as int;
        lemma_rows_alike(r1.instances@, r2.instances@, app, now, all);
        assert(r1.instances@.take(all) =~= r1.instances@);
        assert(r2.instances@.take(all) =~= r2.instances@);
        let list = rows(r1.instances@, app, now, all);
        let o1 = choose|order: Seq<usize>| #[trigger]
            is_stable_order(replica_keys(list), list.len() as int, order) && s1.apps@[k].instances@
                == arranged(list, order);
        let o2 = choose|order: Seq<usize>| #[trigger]
            is_stable_order(replica_keys(list), list.len() as int, order) && s2.apps@[k].instances@
                == arranged(list, order);
        lemma_one_stable_order(replica_keys(list), list.len() as int, o1, o2);
    }
}

} // verus!
