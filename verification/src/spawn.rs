//! Filling the places: new instances for places that nothing fills, replacements for stale ones,
//! and the start of what waits.

use crate::env::{env_texts, instance_env, instance_env_texts};
use crate::fingerprint::{fingerprint, spec_hash};
use crate::fleet::{
    after_ms, backed_off, backoff_delay, count, kept, later, lemma_count_push, millis, of_app,
    secs_as_ms, Handle, Instance,
};
use crate::manifest::{lemma_first_named, App, Limits, Manifest};
use crate::order::NameMap;
use crate::paths::{log_path, replica_log_path};
use crate::promises::{law_started_is_what_may_start, may_start};
use crate::reconcile::{answers, Reconciler};
use crate::roll::{
    has_current, is_current, may_surge, ports_in_use, replicas_of, total_of, used_ports,
};
use crate::scale::{check_blocked, failing};
use crate::slots::{
    are_desired, first_free, is_desired, slot_of, surge_port, surge_port_for, wanted, Slot,
};
use crate::state::Phase;
use crate::text::{str_eq, texts};
use crate::vars::pairs;
use vstd::prelude::*;

verus! {

/// Whether some instance fills a place.
pub open spec fn is_filled(insts: Seq<Instance>, app: Seq<char>, replica: u32) -> bool {
    exists|i: int| 0 <= i < insts.len() && (#[trigger] insts[i]).fills(app, replica)
}

/// Whether an instance of a place has the place's port.
pub open spec fn port_taken(insts: Seq<Instance>, slot: Slot) -> bool {
    exists|i: int|
        0 <= i < insts.len() && (#[trigger] insts[i]).fills(slot.app@, slot.replica)
            && insts[i].port == slot.port
}

/// A new instance for a place.
pub open spec fn newcomer(slot: Slot, now: u64) -> Instance {
    Instance::waiting(slot.app, slot.replica, slot.port, slot.hash, now)
}

/// The instances with a new one for each of the first `n` places that nothing fills.
pub open spec fn filled(insts: Seq<Instance>, slots: Seq<Slot>, n: int, now: u64) -> Seq<Instance>
    decreases n,
{
    if n <= 0 {
        insts
    } else {
        let before = filled(insts, slots, n - 1, now);
        if is_filled(before, slots[n - 1].app@, slots[n - 1].replica) {
            before
        } else {
            before.push(newcomer(slots[n - 1], now))
        }
    }
}

/// Whether a place has the port that a replacement in it is to start on: none of its instances
/// has it, or it is the one that is left where no port is free.
pub open spec fn port_ready(
    insts: Seq<Instance>,
    m: Manifest,
    ports: Map<(Seq<char>, u32), u16>,
    slot: Slot,
) -> bool {
    !port_taken(insts, slot) || (m.app_named(slot.app@) matches Some(a) && slot.port == surge_port(
        m,
        m.apps@[a],
        ports_in_use(insts, ports),
    ))
}

/// Whether a place is to get a replacement beside the instance that still fills it: extra
/// instances are allowed, none with the place's fingerprint is there, the place has a port to
/// start it on, and the app may have one more. A port that turns out to be taken makes the start
/// fail like any other.
pub open spec fn wants_surge(
    insts: Seq<Instance>,
    m: Manifest,
    ports: Map<(Seq<char>, u32), u16>,
    slot: Slot,
) -> bool {
    &&& m.defaults.max_surge > 0
    &&& !has_current(insts, slot.app@, slot.replica, slot.hash)
    &&& port_ready(insts, m, ports, slot)
    &&& may_surge(insts, m, slot.app@)
}

/// The instances with a replacement for each of the first `n` places that is to get one.
pub open spec fn surged(
    insts: Seq<Instance>,
    m: Manifest,
    ports: Map<(Seq<char>, u32), u16>,
    slots: Seq<Slot>,
    n: int,
    now: u64,
) -> Seq<Instance>
    decreases n,
{
    if n <= 0 {
        insts
    } else {
        let before = surged(insts, m, ports, slots, n - 1, now);
        if wants_surge(before, m, ports, slots[n - 1]) {
            before.push(newcomer(slots[n - 1], now))
        } else {
            before
        }
    }
}

/// The instances after new ones were made for the places.
pub open spec fn peopled(
    insts: Seq<Instance>,
    m: Manifest,
    ports: Map<(Seq<char>, u32), u16>,
    slots: Seq<Slot>,
    now: u64,
) -> Seq<Instance> {
    let n = slots.len() as int;
    surged(filled(insts, slots, n, now), m, ports, slots, n, now)
}

/// Whether a dependency is met: an app has a ready instance, a check answers.
pub open spec fn dependency_met(
    insts: Seq<Instance>,
    m: Manifest,
    checks: Map<Seq<char>, bool>,
    dep: Seq<char>,
) -> bool {
    if m.app_named(dep) is Some {
        has_ready(insts, dep)
    } else {
        answers(checks, dep)
    }
}

/// Whether an app has a ready instance.
pub open spec fn has_ready(insts: Seq<Instance>, app: Seq<char>) -> bool {
    exists|i: int|
        0 <= i < insts.len() && (#[trigger] insts[i]).app@ == app && insts[i].phase == Phase::Ready
}

/// Whether all that an app depends on is met; never so for an app that the manifest does not have.
pub open spec fn dependencies_met(
    insts: Seq<Instance>,
    m: Manifest,
    checks: Map<Seq<char>, bool>,
    app: Seq<char>,
) -> bool {
    m.app_named(app) matches Some(a) && forall|d: int|
        0 <= d < m.apps@[a].depends_on@.len() ==> dependency_met(
            insts,
            m,
            checks,
            (#[trigger] m.apps@[a].depends_on@[d])@,
        )
}

/// Whether an instance is to be started: no process fills it, its delay is over, and all that its
/// app depends on is met.
pub open spec fn startable(
    insts: Seq<Instance>,
    m: Manifest,
    checks: Map<Seq<char>, bool>,
    now: u64,
    i: int,
) -> bool {
    &&& !insts[i].running()
    &&& insts[i].phase != Phase::Terminating
    &&& insts[i].backoff_until matches Some(t) ==> now >= t
    &&& dependencies_met(insts, m, checks, insts[i].app@)
}

/// The places of the first `n` instances that are to be started.
pub open spec fn to_start(
    insts: Seq<Instance>,
    m: Manifest,
    checks: Map<Seq<char>, bool>,
    now: u64,
    n: int,
) -> Seq<usize>
    decreases n,
{
    if n <= 0 {
        seq![]
    } else if startable(insts, m, checks, now, n - 1) {
        to_start(insts, m, checks, now, n - 1).push((n - 1) as usize)
    } else {
        to_start(insts, m, checks, now, n - 1)
    }
}

fn fills_place(instances: &Vec<Instance>, slot: &Slot) -> (r: bool)
    ensures
        r == is_filled(instances@, slot.app@, slot.replica),
{
    let mut i: usize = 0;
    while i < instances.len()
        invariant
            i <= instances@.len(),
            forall|j: int|
                0 <= j < i ==> !(#[trigger] instances@[j]).fills(slot.app@, slot.replica),
        decreases instances@.len() - i,
    {
        if instances[i].replica == slot.replica && str_eq(
            instances[i].app.as_str(),
            slot.app.as_str(),
        ) {
            assert(instances@[i as int].fills(slot.app@, slot.replica));
            return true;
        }
        i += 1;
    }
    false
}

fn takes_port(instances: &Vec<Instance>, slot: &Slot) -> (r: bool)
    ensures
        r == port_taken(instances@, *slot),
{
    let mut i: usize = 0;
    while i < instances.len()
        invariant
            i <= instances@.len(),
            forall|j: int|
                0 <= j < i ==> !((#[trigger] instances@[j]).fills(slot.app@, slot.replica)
                    && instances@[j].port == slot.port),
        decreases instances@.len() - i,
    {
        if instances[i].replica == slot.replica && instances[i].port == slot.port && str_eq(
            instances[i].app.as_str(),
            slot.app.as_str(),
        ) {
            assert(instances@[i as int].fills(slot.app@, slot.replica));
            return true;
        }
        i += 1;
    }
    false
}

fn app_ready(instances: &Vec<Instance>, app: &str) -> (r: bool)
    ensures
        r == has_ready(instances@, app@),
{
    let mut i: usize = 0;
    while i < instances.len()
        invariant
            i <= instances@.len(),
            forall|j: int|
                0 <= j < i ==> !((#[trigger] instances@[j]).app@ == app@ && instances@[j].phase
                    == Phase::Ready),
        decreases instances@.len() - i,
    {
        if instances[i].phase == Phase::Ready && str_eq(instances[i].app.as_str(), app) {
            assert(instances@[i as int].app@ == app@);
            return true;
        }
        i += 1;
    }
    false
}

fn are_dependencies_met(
    instances: &Vec<Instance>,
    manifest: &Manifest,
    checks: &NameMap<bool>,
    app: &str,
) -> (r: bool)
    requires
        checks.wf(),
    ensures
        r == dependencies_met(instances@, *manifest, checks@, app@),
{
    match manifest.app_index(app) {
        None => false,
        Some(a) => {
            let deps = &manifest.apps[a].depends_on;
            let mut d: usize = 0;
            while d < deps.len()
                invariant
                    checks.wf(),
                    a < manifest.apps@.len(),
                    manifest.app_named(app@) == Some(a as int),
                    *deps == manifest.apps@[a as int].depends_on,
                    d <= deps@.len(),
                    forall|j: int|
                        0 <= j < d ==> dependency_met(
                            instances@,
                            *manifest,
                            checks@,
                            (#[trigger] deps@[j])@,
                        ),
                decreases deps@.len() - d,
            {
                let dep = deps[d].as_str();
                let met = if manifest.app_index(dep).is_some() {
                    app_ready(instances, dep)
                } else {
                    match checks.get(dep) {
                        Some(ok) => *ok,
                        None => true,
                    }
                };
                if !met {
                    assert(!dependency_met(
                        instances@,
                        *manifest,
                        checks@,
                        manifest.apps@[a as int].depends_on@[d as int]@,
                    ));
                    return false;
                }
                d += 1;
            }
            true
        },
    }
}

impl Reconciler {
    fn is_port_ready(&self, slot: &Slot) -> (r: bool)
        requires
            self.slot_ports.wf(),
        ensures
            r == port_ready(self.instances@, self.manifest, self.slot_ports@, *slot),
    {
        if !takes_port(&self.instances, slot) {
            return true;
        }
        match self.manifest.app_index(slot.app.as_str()) {
            Some(a) => {
                let used = used_ports(&self.instances, &self.slot_ports);
                slot.port == surge_port_for(&self.manifest, &self.manifest.apps[a], &used)
            },
            None => false,
        }
    }

    /// Makes new instances for the places, and returns the places in the list of instances of
    /// those that are to be started now.
    pub fn spawn_missing(&mut self, slots: &Vec<Slot>, now: u64) -> (start: Vec<usize>)
        requires
            old(self).wf(),
        ensures
            final(self).wf(),
            *final(self) == (Reconciler { instances: final(self).instances, ..*old(self) }),
            final(self).instances@ == peopled(
                old(self).instances@,
                old(self).manifest,
                old(self).slot_ports@,
                slots@,
                now,
            ),
            start@ == to_start(
                final(self).instances@,
                old(self).manifest,
                old(self).checks_ok@,
                now,
                final(self).instances@.len() as int,
            ),
            forall|i: usize|
                i < final(self).instances@.len() ==> (#[trigger] start@.contains(i) <==> may_start(
                    final(self).instances@,
                    old(self).manifest,
                    old(self).checks_ok@,
                    now,
                    i as int,
                )),
    {
        let ghost all = self.instances@;
        let mut k: usize = 0;
        while k < slots.len()
            invariant
                self.wf(),
                k <= slots@.len(),
                *self == (Reconciler { instances: self.instances, ..*old(self) }),
                self.instances@ == filled(all, slots@, k as int, now),
            decreases slots@.len() - k,
        {
            let s = &slots[k];
            if !fills_place(&self.instances, s) {
                self.instances.push(
                    Instance::pending(s.app.clone(), s.replica, s.port, s.hash, now),
                );
            }
            k += 1;
        }
        let ghost full = self.instances@;
        let mut j: usize = 0;
        while j < slots.len()
            invariant
                self.wf(),
                j <= slots@.len(),
                *self == (Reconciler { instances: self.instances, ..*old(self) }),
                self.instances@ == surged(full, self.manifest, self.slot_ports@, slots@, j as int, now),
            decreases slots@.len() - j,
        {
            let s = &slots[j];
            if self.manifest.defaults.max_surge > 0 && !is_current(
                &self.instances,
                s.app.as_str(),
                s.replica,
                s.hash,
            ) && self.is_port_ready(s) {
                let replicas: u64 = match self.manifest.app_index(s.app.as_str()) {
                    Some(a) => self.manifest.apps[a].replicas as u64,
                    None => 0,
                };
                let total = total_of(&self.instances, s.app.as_str()) as u64;
                if total < replicas + self.manifest.defaults.max_surge as u64 {
                    self.instances.push(
                        Instance::pending(s.app.clone(), s.replica, s.port, s.hash, now),
                    );
                }
            }
            j += 1;
        }
        let mut start: Vec<usize> = Vec::new();
        let mut i: usize = 0;
        while i < self.instances.len()
            invariant
                self.wf(),
                i <= self.instances@.len(),
                start@ == to_start(
                    self.instances@,
                    self.manifest,
                    self.checks_ok@,
                    now,
                    i as int,
                ),
            decreases self.instances@.len() - i,
        {
            let inst = &self.instances[i];
            let rested = match inst.backoff_until {
                Some(t) => now >= t,
                None => true,
            };
            if !inst.is_running() && inst.phase != Phase::Terminating && rested
                && are_dependencies_met(
                &self.instances,
                &self.manifest,
                &self.checks_ok,
                inst.app.as_str(),
            ) {
                start.push(i);
            }
            i += 1;
        }
        proof {
            law_started_is_what_may_start(
                self.instances@,
                self.manifest,
                self.checks_ok@,
                now,
            );
        }
        start
    }
}

/// Everything that is needed to start one instance.
pub struct Spawn {
    pub app: String,
    pub replica: u32,
    pub bin: String,
    pub args: Vec<String>,
    pub cwd: String,
    /// The whole environment of the process.
    pub env: NameMap<String>,
    /// The file that its output is appended to, where there is one.
    pub log_path: Option<String>,
    /// The size at which that file is rotated; 0 where it is not.
    pub log_max_bytes: u64,
    /// How many log files are kept, the current one among them.
    pub log_keep: u32,
    pub uid: Option<u32>,
    pub gid: Option<u32>,
    pub limits: Option<Limits>,
}

/// The directory that an app's instances run in.
pub open spec fn working_dir(m: Manifest, app: App) -> Seq<char> {
    m.resolved(
        match app.dir {
            Some(d) => d@,
            None => "."@,
        },
    )
}

/// Whether `s` is what starts the given instance.
pub open spec fn starts(
    s: Spawn,
    m: Manifest,
    app: App,
    inst: Instance,
    parent: Seq<(Seq<char>, Seq<char>)>,
) -> bool {
    &&& s.app@ == inst.app@
    &&& s.replica == inst.replica
    &&& s.bin@ == m.resolved(app.bin@)
    &&& texts(s.args@) == texts(app.args@)
    &&& s.cwd@ == working_dir(m, app)
    &&& s.env.wf()
    &&& env_texts(s.env@) == instance_env_texts(
        parent,
        m,
        app,
        inst.replica as nat,
        inst.port as nat,
    )
    &&& s.log_path matches Some(p)
    &&& p@ == replica_log_path(m.base_dir@, inst.app@, inst.replica as nat)
    &&& s.log_max_bytes == m.defaults.log_max_bytes
    &&& s.log_keep == m.defaults.log_keep
    &&& s.uid == app.uid
    &&& s.gid == app.gid
    &&& s.limits == app.limits
}

/// The instance after its process was started.
pub open spec fn started(inst: Instance, m: Manifest, app: App, h: Handle, now: u64) -> Instance {
    let unprobed = app.ready_path@.len() == 0;
    Instance {
        handle: Some(h),
        phase: if unprobed {
            Phase::Ready
        } else {
            Phase::Starting
        },
        started_at: Some(now),
        backoff_until: None,
        ready_deadline: Some(later(now, secs_as_ms(app.ready_timeout))),
        consecutive_live_fail: 0,
        ever_ready: unprobed,
        next_ready_probe: now,
        next_live_probe: later(now, secs_as_ms(app.live_period)),
        spec_hash: fingerprint(m, app, inst.replica as nat, inst.port),
        ..inst
    }
}

/// An instance after an attempt to start it, with the process that was started, if any. One of no
/// app is left as it is.
pub open spec fn after_launch(inst: Instance, m: Manifest, handle: Option<Handle>, now: u64) -> Instance {
    match (m.app_named(inst.app@), handle) {
        (None, _) => inst,
        (Some(a), Some(h)) => started(inst, m, m.apps@[a], h, now),
        (Some(_), None) => backed_off(inst, inst.restarts, now, m.defaults),
    }
}

/// A copy of a list of texts.
fn copy_list(list: &Vec<String>) -> (r: Vec<String>)
    ensures
        texts(r@) == texts(list@),
{
    let mut out: Vec<String> = Vec::new();
    let mut i: usize = 0;
    while i < list.len()
        invariant
            i <= list@.len(),
            out@.len() == i,
            forall|j: int| 0 <= j < i ==> (#[trigger] out@[j])@ == list@[j]@,
        decreases list@.len() - i,
    {
        out.push(list[i].clone());
        i += 1;
    }
    assert(texts(out@) =~= texts(list@));
    out
}

/// Whether a text is empty.
pub fn is_empty(s: &str) -> (r: bool)
    ensures
        r == (s@.len() == 0),
{
    let r = str_eq(s, "");
    proof {
        reveal_strlit("");
        if s@.len() == 0 {
            assert(s@ =~= ""@);
        }
    }
    r
}

impl Reconciler {
    /// What starts the given instance; `parent` is the environment that this process has. Nothing
    /// where the manifest does not have its app.
    pub fn launch(&self, idx: usize, parent: &Vec<(String, String)>) -> (r: Option<Spawn>)
        requires
            idx < self.instances@.len(),
        ensures
            match self.manifest.app_named(self.instances@[idx as int].app@) {
                None => r is None,
                Some(a) => r matches Some(s) && starts(
                    s,
                    self.manifest,
                    self.manifest.apps@[a],
                    self.instances@[idx as int],
                    pairs(parent@),
                ),
            },
    {
        let inst = &self.instances[idx];
        let a = match self.manifest.app_index(inst.app.as_str()) {
            None => {
                return None;
            },
            Some(a) => a,
        };
        let app = &self.manifest.apps[a];
        let cwd = match &app.dir {
            Some(d) => self.manifest.resolve(d.as_str()),
            None => self.manifest.resolve("."),
        };
        let limits = match &app.limits {
            Some(l) => Some(Limits { open_files: l.open_files, memory_mb: l.memory_mb }),
            None => None,
        };
        Some(
            Spawn {
                app: inst.app.clone(),
                replica: inst.replica,
                bin: self.manifest.resolve(app.bin.as_str()),
                args: copy_list(&app.args),
                cwd,
                env: instance_env(parent, &self.manifest, app, inst.replica, inst.port),
                log_path: Some(
                    log_path(
                        self.manifest.base_dir.as_str(),
                        inst.app.as_str(),
                        inst.replica,
                    ),
                ),
                log_max_bytes: self.manifest.defaults.log_max_bytes,
                log_keep: self.manifest.defaults.log_keep,
                uid: app.uid,
                gid: app.gid,
                limits,
            },
        )
    }

    /// Takes note of an attempt to start the given instance: `handle` is its process, or nothing
    /// where it could not be started.
    pub fn launched(&mut self, idx: usize, handle: Option<Handle>, now: u64)
        requires
            old(self).wf(),
            idx < old(self).instances@.len(),
            !old(self).instances@[idx as int].running(),
        ensures
            final(self).wf(),
            *final(self) == (Reconciler { instances: final(self).instances, ..*old(self) }),
            match old(self).manifest.app_named(old(self).instances@[idx as int].app@) {
                None => final(self).instances@ == old(self).instances@,
                Some(a) => final(self).instances@ == old(self).instances@.update(
                    idx as int,
                    match handle {
                        Some(h) => started(
                            old(self).instances@[idx as int],
                            old(self).manifest,
                            old(self).manifest.apps@[a],
                            h,
                            now,
                        ),
                        None => backed_off(
                            old(self).instances@[idx as int],
                            old(self).instances@[idx as int].restarts,
                            now,
                            old(self).manifest.defaults,
                        ),
                    },
                ),
            },
            final(self).instances@ == old(self).instances@.update(
                idx as int,
                after_launch(old(self).instances@[idx as int], old(self).manifest, handle, now),
            ),
    {
        let a = match self.manifest.app_index(self.instances[idx].app.as_str()) {
            None => {
                return;
            },
            Some(a) => a,
        };
        let app = &self.manifest.apps[a];
        let inst = &mut self.instances[idx];
        match handle {
            Some(h) => {
                let unprobed = is_empty(app.ready_path.as_str());
                inst.handle = Some(h);
                inst.phase = if unprobed {
                    Phase::Ready
                } else {
                    Phase::Starting
                };
                inst.started_at = Some(now);
                inst.backoff_until = None;
                inst.ready_deadline = Some(after_ms(now, millis(app.ready_timeout)));
                inst.consecutive_live_fail = 0;
                inst.ever_ready = unprobed;
                inst.next_ready_probe = now;
                inst.next_live_probe = after_ms(now, millis(app.live_period));
                inst.spec_hash = spec_hash(&self.manifest, app, inst.replica, inst.port);
            },
            None => {
                inst.restarts = inst.restarts.saturating_add(1);
                let delay = backoff_delay(
                    self.manifest.defaults.restart_backoff_ms,
                    self.manifest.defaults.restart_backoff_max_ms,
                    inst.restarts,
                );
                inst.backoff_until = Some(after_ms(now, delay));
                inst.phase = Phase::CrashLoopBackOff;
            },
        }
    }
}

/// New instances are added behind those that are there; none is changed or lost.
pub proof fn law_spawning_keeps_instances(
    insts: Seq<Instance>,
    m: Manifest,
    ports: Map<(Seq<char>, u32), u16>,
    slots: Seq<Slot>,
    now: u64,
)
    ensures
        insts.is_prefix_of(peopled(insts, m, ports, slots, now)),
{
    let n = slots.len() as int;
    lemma_filled_prefix(insts, slots, n, now);
    let full = filled(insts, slots, n, now);
    lemma_surged_prefix(full, m, ports, slots, n, now);
    let after = surged(full, m, ports, slots, n, now);
    assert(after.subrange(0, insts.len() as int) =~= full.subrange(0, insts.len() as int));
}

proof fn lemma_filled_prefix(insts: Seq<Instance>, slots: Seq<Slot>, n: int, now: u64)
    ensures
        insts.is_prefix_of(filled(insts, slots, n, now)),
    decreases n,
{
    if n > 0 {
        lemma_filled_prefix(insts, slots, n - 1, now);
        let before = filled(insts, slots, n - 1, now);
        let after = filled(insts, slots, n, now);
        assert(after.subrange(0, insts.len() as int) =~= before.subrange(0, insts.len() as int));
    } else {
        assert(insts.subrange(0, insts.len() as int) =~= insts);
    }
}

proof fn lemma_surged_prefix(
    insts: Seq<Instance>,
    m: Manifest,
    ports: Map<(Seq<char>, u32), u16>,
    slots: Seq<Slot>,
    n: int,
    now: u64,
)
    ensures
        insts.is_prefix_of(surged(insts, m, ports, slots, n, now)),
    decreases n,
{
    if n > 0 {
        lemma_surged_prefix(insts, m, ports, slots, n - 1, now);
        let before = surged(insts, m, ports, slots, n - 1, now);
        let after = surged(insts, m, ports, slots, n, now);
        assert(after.subrange(0, insts.len() as int) =~= before.subrange(0, insts.len() as int));
    } else {
        assert(insts.subrange(0, insts.len() as int) =~= insts);
    }
}

/// Every place that the manifest asks for has an instance once new ones were made.
pub proof fn law_every_place_is_filled(
    insts: Seq<Instance>,
    m: Manifest,
    ports: Map<(Seq<char>, u32), u16>,
    slots: Seq<Slot>,
    now: u64,
    k: int,
)
    requires
        0 <= k < slots.len(),
    ensures
        is_filled(peopled(insts, m, ports, slots, now), slots[k].app@, slots[k].replica),
{
    let n = slots.len() as int;
    lemma_place_filled(insts, slots, n, now, k);
    let full = filled(insts, slots, n, now);
    lemma_surged_prefix(full, m, ports, slots, n, now);
    lemma_filled_in_longer(
        full,
        surged(full, m, ports, slots, n, now),
        slots[k].app@,
        slots[k].replica,
    );
}

proof fn lemma_filled_in_longer(
    a: Seq<Instance>,
    b: Seq<Instance>,
    app: Seq<char>,
    replica: u32,
)
    requires
        a.is_prefix_of(b),
        is_filled(a, app, replica),
    ensures
        is_filled(b, app, replica),
{
    let i = choose|i: int| 0 <= i < a.len() && (#[trigger] a[i]).fills(app, replica);
    assert(b.subrange(0, a.len() as int)[i] == b[i]);
    assert(b[i].fills(app, replica));
}

proof fn lemma_place_filled(insts: Seq<Instance>, slots: Seq<Slot>, n: int, now: u64, k: int)
    requires
        0 <= k < n <= slots.len(),
    ensures
        is_filled(filled(insts, slots, n, now), slots[k].app@, slots[k].replica),
    decreases n,
{
    let before = filled(insts, slots, n - 1, now);
    let after = filled(insts, slots, n, now);
    if k < n - 1 {
        lemma_place_filled(insts, slots, n - 1, now, k);
        assert(after.subrange(0, before.len() as int) =~= before);
        lemma_filled_in_longer(before, after, slots[k].app@, slots[k].replica);
    } else if !is_filled(before, slots[k].app@, slots[k].replica) {
        assert(after[before.len() as int].fills(slots[k].app@, slots[k].replica));
    }
}

/// The extra instances of an app never pass what the manifest allows: an app has no more
/// instances after the replacements were made than before, or than its replicas and the extra
/// ones it may have.
pub proof fn law_surge_within_budget(
    insts: Seq<Instance>,
    m: Manifest,
    ports: Map<(Seq<char>, u32), u16>,
    slots: Seq<Slot>,
    n: int,
    now: u64,
    app: Seq<char>,
)
    requires
        0 <= n <= slots.len(),
    ensures
        count(surged(insts, m, ports, slots, n, now), of_app(app)) <= if count(insts, of_app(app))
            > replicas_of(m, app) + m.defaults.max_surge {
            count(insts, of_app(app)) as int
        } else {
            replicas_of(m, app) + m.defaults.max_surge
        },
    decreases n,
{
    if n > 0 {
        law_surge_within_budget(insts, m, ports, slots, n - 1, now, app);
        let before = surged(insts, m, ports, slots, n - 1, now);
        lemma_count_push(before, newcomer(slots[n - 1], now), of_app(app));
    }
}

/// Filling one place.
pub open spec fn filling(app: Seq<char>, replica: u32) -> spec_fn(Instance) -> bool {
    |i: Instance| i.fills(app, replica)
}

/// Without extra instances a place is never filled twice: replacements come one for one.
pub proof fn law_one_for_one_without_surge(
    insts: Seq<Instance>,
    m: Manifest,
    ports: Map<(Seq<char>, u32), u16>,
    slots: Seq<Slot>,
    now: u64,
    app: Seq<char>,
    replica: u32,
)
    requires
        m.defaults.max_surge == 0,
        count(insts, filling(app, replica)) <= 1,
    ensures
        count(peopled(insts, m, ports, slots, now), filling(app, replica)) <= 1,
{
    let n = slots.len() as int;
    lemma_filled_once(insts, slots, n, now, app, replica);
    lemma_no_surge(filled(insts, slots, n, now), m, ports, slots, n, now);
}

proof fn lemma_no_surge(
    insts: Seq<Instance>,
    m: Manifest,
    ports: Map<(Seq<char>, u32), u16>,
    slots: Seq<Slot>,
    n: int,
    now: u64,
)
    requires
        m.defaults.max_surge == 0,
    ensures
        surged(insts, m, ports, slots, n, now) == insts,
    decreases n,
{
    if n > 0 {
        lemma_no_surge(insts, m, ports, slots, n - 1, now);
    }
}

proof fn lemma_not_filled_count(insts: Seq<Instance>, app: Seq<char>, replica: u32)
    requires
        !is_filled(insts, app, replica),
    ensures
        count(insts, filling(app, replica)) == 0,
    decreases insts.len(),
{
    if insts.len() > 0 {
        assert(!insts.last().fills(app, replica));
        assert forall|i: int| 0 <= i < insts.drop_last().len() implies !(
        #[trigger] insts.drop_last()[i]).fills(app, replica) by {
            assert(insts.drop_last()[i] == insts[i]);
        }
        lemma_not_filled_count(insts.drop_last(), app, replica);
    }
}

proof fn lemma_filled_once(
    insts: Seq<Instance>,
    slots: Seq<Slot>,
    n: int,
    now: u64,
    app: Seq<char>,
    replica: u32,
)
    requires
        count(insts, filling(app, replica)) <= 1,
    ensures
        count(filled(insts, slots, n, now), filling(app, replica)) <= 1,
    decreases n,
{
    if n > 0 {
        lemma_filled_once(insts, slots, n - 1, now, app, replica);
        let before = filled(insts, slots, n - 1, now);
        lemma_count_push(before, newcomer(slots[n - 1], now), filling(app, replica));
        if !is_filled(before, slots[n - 1].app@, slots[n - 1].replica) {
            if slots[n - 1].app@ == app && slots[n - 1].replica == replica {
                lemma_not_filled_count(before, app, replica);
            }
        }
    }
}

/// What is started is exactly what may be: an instance is in the list of those to start if and
/// only if no process fills it, its delay is over, and all that its app depends on is met.
pub proof fn law_started_iff_startable(
    insts: Seq<Instance>,
    m: Manifest,
    checks: Map<Seq<char>, bool>,
    now: u64,
    i: usize,
)
    requires
        insts.len() <= usize::MAX,
        i < insts.len(),
    ensures
        to_start(insts, m, checks, now, insts.len() as int).contains(i) <==> startable(
            insts,
            m,
            checks,
            now,
            i as int,
        ),
{
    lemma_to_start(insts, m, checks, now, insts.len() as int, i);
}

proof fn lemma_to_start(
    insts: Seq<Instance>,
    m: Manifest,
    checks: Map<Seq<char>, bool>,
    now: u64,
    n: int,
    i: usize,
)
    requires
        0 <= n <= insts.len() <= usize::MAX,
    ensures
        to_start(insts, m, checks, now, n).contains(i) <==> i < n && startable(
            insts,
            m,
            checks,
            now,
            i as int,
        ),
    decreases n,
{
    let list = to_start(insts, m, checks, now, n);
    if n > 0 {
        lemma_to_start(insts, m, checks, now, n - 1, i);
        let before = to_start(insts, m, checks, now, n - 1);
        if startable(insts, m, checks, now, n - 1) {
            if i == n - 1 {
                assert(list[before.len() as int] == i);
            } else if before.contains(i) {
                let k = choose|k: int| 0 <= k < before.len() && before[k] == i;
                assert(list[k] == i);
            } else if list.contains(i) {
                let k = choose|k: int| 0 <= k < list.len() && list[k] == i;
                if k < before.len() {
                    assert(before[k] == i);
                }
            }
        }
    }
}

/// An app that a failing check blocks is held: none of its instances is started until the check
/// answers.
pub proof fn law_blocked_app_is_held(
    insts: Seq<Instance>,
    m: Manifest,
    checks: Map<Seq<char>, bool>,
    now: u64,
    i: int,
)
    requires
        0 <= i < insts.len(),
        check_blocked(m, checks, insts[i].app@),
    ensures
        !startable(insts, m, checks, now, i),
{
    let a = m.app_named(insts[i].app@)->0;
    let d = choose|d: int|
        0 <= d < m.apps@[a].depends_on@.len() && failing(
            m,
            checks,
            (#[trigger] m.apps@[a].depends_on@[d])@,
        );
    assert(!dependency_met(insts, m, checks, m.apps@[a].depends_on@[d]@));
}

proof fn lemma_none_free(m: Manifest, used: Set<u16>, more: Set<u16>, from: int)
    requires
        first_free(m, used, from) is None,
        used.subset_of(more),
    ensures
        first_free(m, more, from) is None,
    decreases 65536 - from,
{
    if from <= 65535 {
        lemma_none_free(m, used, more, from + 1);
    }
}

proof fn lemma_free_is_unused(m: Manifest, used: Set<u16>, from: int)
    requires
        0 <= from,
    ensures
        first_free(m, used, from) matches Some(p) ==> from <= p <= 65535 && !used.contains(p as u16),
    decreases 65536 - from,
{
    if from <= 65535 {
        lemma_free_is_unused(m, used, from + 1);
    }
}

/// A place that a roll gave a port can get its replacement: the port that it was given is one to
/// start on, even where no port was free. So a roll does not stall for want of ports. The port
/// that the place had before, if it was given one, is still that of an instance.
pub proof fn law_given_port_is_ready(
    insts: Seq<Instance>,
    m: Manifest,
    ports: Map<(Seq<char>, u32), u16>,
    slot: Slot,
    a: int,
)
    requires
        m.app_named(slot.app@) == Some(a),
        slot.port == surge_port(m, m.apps@[a], ports_in_use(insts, ports)),
        ports.dom().contains((slot.app@, slot.replica)) ==> exists|i: int|
            0 <= i < insts.len() && (#[trigger] insts[i]).port == ports[(
                slot.app@,
                slot.replica,
            )],
    ensures
        port_ready(insts, m, ports.insert((slot.app@, slot.replica), slot.port), slot),
{
    let used = ports_in_use(insts, ports);
    let given = ports.insert((slot.app@, slot.replica), slot.port);
    let more = ports_in_use(insts, given);
    let from = m.apps@[a].port_end();
    lemma_free_is_unused(m, used, from);
    match first_free(m, used, from) {
        Some(p) => {
            if port_taken(insts, slot) {
                let i = choose|i: int|
                    0 <= i < insts.len() && (#[trigger] insts[i]).fills(slot.app@, slot.replica)
                        && insts[i].port == slot.port;
                assert(insts[i].port == slot.port);
                assert(used.contains(slot.port));
            }
        },
        None => {
            assert forall|q: u16| used.contains(q) implies more.contains(q) by {
                if !(exists|i: int| 0 <= i < insts.len() && (#[trigger] insts[i]).port == q) {
                    let k = choose|k: (Seq<char>, u32)| #[trigger]
                        ports.dom().contains(k) && ports[k] == q;
                    assert(given.dom().contains(k) && given[k] == q);
                }
            }
            lemma_none_free(m, used, more, from);
        },
    }
}

/// Being an instance of an app in one of its first `n` places.
pub open spec fn inside(app: Seq<char>, n: nat) -> spec_fn(Instance) -> bool {
    |i: Instance| i.app@ == app && i.replica < n
}

/// Being an instance of an app in none of its first `n` places.
pub open spec fn outside(app: Seq<char>, n: nat) -> spec_fn(Instance) -> bool {
    |i: Instance| i.app@ == app && i.replica >= n
}

/// How many of the first `n` places of an app are filled.
pub open spec fn filled_places(insts: Seq<Instance>, app: Seq<char>, n: nat) -> nat
    decreases n,
{
    if n == 0 {
        0
    } else {
        filled_places(insts, app, (n - 1) as nat) + if is_filled(insts, app, (n - 1) as u32) {
            1nat
        } else {
            0
        }
    }
}

/// How many instances an app has in its places beyond one for each place that is filled.
pub open spec fn extras(insts: Seq<Instance>, app: Seq<char>, n: nat) -> int {
    count(insts, inside(app, n)) - filled_places(insts, app, n)
}

/// How many of the first `n` instances have a property and run, or run once all that is to be
/// started was started.
pub open spec fn live_after_start(
    insts: Seq<Instance>,
    m: Manifest,
    checks: Map<Seq<char>, bool>,
    now: u64,
    p: spec_fn(Instance) -> bool,
    n: int,
) -> nat
    decreases n,
{
    if n <= 0 {
        0
    } else {
        live_after_start(insts, m, checks, now, p, n - 1) + if p(insts[n - 1]) && (
        insts[n - 1].running() || startable(insts, m, checks, now, n - 1)) {
            1nat
        } else {
            0
        }
    }
}

pub proof fn lemma_live_bound(
    insts: Seq<Instance>,
    m: Manifest,
    checks: Map<Seq<char>, bool>,
    now: u64,
    p: spec_fn(Instance) -> bool,
    n: int,
)
    requires
        0 <= n <= insts.len(),
    ensures
        live_after_start(insts, m, checks, now, p, n) <= count(insts.take(n), p),
    decreases n,
{
    if n > 0 {
        lemma_live_bound(insts, m, checks, now, p, n - 1);
        assert(insts.take(n).drop_last() =~= insts.take(n - 1));
        assert(insts.take(n).last() == insts[n - 1]);
    }
}

proof fn lemma_count_inside_outside(insts: Seq<Instance>, app: Seq<char>, n: nat)
    ensures
        count(insts, inside(app, n)) + count(insts, outside(app, n)) == count(insts, of_app(app)),
    decreases insts.len(),
{
    if insts.len() > 0 {
        lemma_count_inside_outside(insts.drop_last(), app, n);
    }
}

proof fn lemma_filled_places_push(insts: Seq<Instance>, x: Instance, app: Seq<char>, n: nat)
    requires
        n <= u32::MAX,
    ensures
        filled_places(insts.push(x), app, n) == filled_places(insts, app, n) + if x.app@ == app
            && x.replica < n && !is_filled(insts, app, x.replica) {
            1nat
        } else {
            0
        },
    decreases n,
{
    if n > 0 {
        lemma_filled_places_push(insts, x, app, (n - 1) as nat);
        let r = (n - 1) as u32;
        let after = insts.push(x);
        if is_filled(insts, app, r) {
            let i = choose|i: int| 0 <= i < insts.len() && (#[trigger] insts[i]).fills(app, r);
            assert(after[i].fills(app, r));
        }
        if x.fills(app, r) {
            assert(after[insts.len() as int].fills(app, r));
        }
        if is_filled(after, app, r) && !x.fills(app, r) {
            let i = choose|i: int| 0 <= i < after.len() && (#[trigger] after[i]).fills(app, r);
            assert(insts[i].fills(app, r));
        }
    }
}

proof fn lemma_all_places_filled(insts: Seq<Instance>, app: Seq<char>, n: nat)
    requires
        n <= u32::MAX,
        forall|r: u32| r < n ==> #[trigger] is_filled(insts, app, r),
    ensures
        filled_places(insts, app, n) == n,
    decreases n,
{
    if n > 0 {
        lemma_all_places_filled(insts, app, (n - 1) as nat);
        assert(is_filled(insts, app, (n - 1) as u32));
    }
}

/// Filling places that nothing fills makes no extras, and puts nothing outside an app's places.
proof fn lemma_filling_makes_no_extras(
    insts: Seq<Instance>,
    slots: Seq<Slot>,
    k: int,
    now: u64,
    app: Seq<char>,
    n: nat,
)
    requires
        0 <= k <= slots.len(),
        n <= u32::MAX,
        forall|j: int| 0 <= j < slots.len() && (#[trigger] slots[j]).app@ == app ==> slots[j].replica < n,
    ensures
        extras(filled(insts, slots, k, now), app, n) == extras(insts, app, n),
        count(filled(insts, slots, k, now), outside(app, n)) == count(insts, outside(app, n)),
    decreases k,
{
    if k > 0 {
        lemma_filling_makes_no_extras(insts, slots, k - 1, now, app, n);
        let before = filled(insts, slots, k - 1, now);
        let x = newcomer(slots[k - 1], now);
        assert(slots[k - 1].app@ == app ==> slots[k - 1].replica < n);
        lemma_count_push(before, x, inside(app, n));
        lemma_count_push(before, x, outside(app, n));
        lemma_filled_places_push(before, x, app, n);
    }
}

/// Replacements keep what an app has in its places within its replicas and the extra ones that are
/// allowed, whatever it has elsewhere.
proof fn lemma_surge_inside(
    insts: Seq<Instance>,
    m: Manifest,
    ports: Map<(Seq<char>, u32), u16>,
    slots: Seq<Slot>,
    k: int,
    now: u64,
    app: Seq<char>,
    n: nat,
)
    requires
        0 <= k <= slots.len(),
        n == replicas_of(m, app),
        forall|j: int| 0 <= j < slots.len() && (#[trigger] slots[j]).app@ == app ==> slots[j].replica < n,
    ensures
        count(surged(insts, m, ports, slots, k, now), inside(app, n)) <= if count(
            insts,
            inside(app, n),
        ) > n + m.defaults.max_surge {
            count(insts, inside(app, n)) as int
        } else {
            n + m.defaults.max_surge
        },
        count(surged(insts, m, ports, slots, k, now), outside(app, n)) == count(
            insts,
            outside(app, n),
        ),
    decreases k,
{
    if k > 0 {
        lemma_surge_inside(insts, m, ports, slots, k - 1, now, app, n);
        let before = surged(insts, m, ports, slots, k - 1, now);
        let x = newcomer(slots[k - 1], now);
        assert(slots[k - 1].app@ == app ==> slots[k - 1].replica < n);
        lemma_count_push(before, x, inside(app, n));
        lemma_count_push(before, x, outside(app, n));
        lemma_count_inside_outside(before, app, n);
    }
}

/// The most that an app may have in its places beyond one for each: the extra ones that are
/// allowed, or what it has already from when more were.
pub open spec fn spare(insts: Seq<Instance>, m: Manifest, app: Seq<char>) -> int {
    let had = extras(insts, app, replicas_of(m, app));
    if had > m.defaults.max_surge {
        had
    } else {
        m.defaults.max_surge as int
    }
}

/// An app never has more instances in its places, and never more processes there once what is to
/// be started was started, than its replicas and the extra ones that are allowed, whatever is
/// being stopped outside its places; it has more only where it had more already, from when more
/// extra ones were allowed. What it has outside its places stays what it was.
pub proof fn law_live_processes_within_budget(
    insts: Seq<Instance>,
    m: Manifest,
    selected: Set<Seq<char>>,
    checks: Map<Seq<char>, bool>,
    ports: Map<(Seq<char>, u32), u16>,
    slots: Seq<Slot>,
    now: u64,
    a: int,
)
    requires
        m.valid(),
        are_desired(slots, m, selected, ports),
        0 <= a < m.apps@.len(),
        selected.contains(m.apps@[a].name@),
    ensures
        ({
            let app = m.apps@[a].name@;
            let n = m.apps@[a].replicas as nat;
            let after = peopled(insts, m, ports, slots, now);
            let all = after.len() as int;
            &&& count(after, inside(app, n)) <= n + spare(insts, m, app)
            &&& live_after_start(after, m, checks, now, inside(app, n), all) <= n + spare(
                insts,
                m,
                app,
            )
            &&& count(after, outside(app, n)) == count(insts, outside(app, n))
            &&& live_after_start(after, m, checks, now, of_app(app), all) <= n + spare(
                insts,
                m,
                app,
            ) + count(insts, outside(app, n))
            &&& extras(after, app, n) <= spare(insts, m, app)
            &&& extras(insts, app, n) <= m.defaults.max_surge ==> live_after_start(
                after,
                m,
                checks,
                now,
                inside(app, n),
                all,
            ) <= n + m.defaults.max_surge
        }),
{
    let app = m.apps@[a].name@;
    let n = m.apps@[a].replicas as nat;
    let k = slots.len() as int;
    lemma_app_of(m, a);
    assert forall|j: int| 0 <= j < k && (#[trigger] slots[j]).app@ == app implies slots[j].replica
        < n by {
        assert(is_desired(slots[j], m, selected, ports));
        let b = choose|b: int| #[trigger]
            wanted(m, selected, b, slots[j].replica) && slots[j] == slot_of(
                m,
                b,
                slots[j].replica,
                ports,
            );
        lemma_app_of(m, b);
    }
    let full = filled(insts, slots, k, now);
    lemma_filling_makes_no_extras(insts, slots, k, now, app, n);
    let after = peopled(insts, m, ports, slots, now);
    assert forall|r: u32| r < n implies #[trigger] is_filled(full, app, r) && is_filled(
        after,
        app,
        r,
    ) by {
        assert(wanted(m, selected, a, r));
        assert(slots.contains(slot_of(m, a, r, ports)));
        let j = choose|j: int| 0 <= j < slots.len() && slots[j] == slot_of(m, a, r, ports);
        lemma_place_filled(insts, slots, k, now, j);
        law_every_place_is_filled(insts, m, ports, slots, now, j);
    }
    lemma_all_places_filled(full, app, n);
    assert forall|r: u32| r < n implies #[trigger] is_filled(after, app, r) by {
        assert(is_filled(full, app, r));
    }
    lemma_all_places_filled(after, app, n);
    lemma_surge_inside(full, m, ports, slots, k, now, app, n);
    lemma_count_inside_outside(after, app, n);
    let all = after.len() as int;
    lemma_live_bound(after, m, checks, now, inside(app, n), all);
    lemma_live_bound(after, m, checks, now, of_app(app), all);
    assert(after.take(all) =~= after);
}

/// The app of a name is the one that has it.
pub proof fn lemma_app_of(m: Manifest, a: int)
    requires
        m.names_distinct(),
        0 <= a < m.apps@.len(),
    ensures
        m.app_named(m.apps@[a].name@) == Some(a),
{
    let name = m.apps@[a].name@;
    lemma_first_named(m.apps@, name, 0);
    let b = m.app_named(name)->0;
    if b < a {
        assert(m.apps@[b].name@ != m.apps@[a].name@);
    } else if a < b {
        assert(m.apps@[a].name@ != m.apps@[b].name@);
    }
}

/// Whether what is kept of each instance is in the place that it was in.
pub open spec fn keeps_places(f: spec_fn(int) -> Option<Instance>, insts: Seq<Instance>) -> bool {
    forall|i: int|
        0 <= i < insts.len() ==> (#[trigger] f(i) matches Some(x) ==> x.app@ == insts[i].app@
            && x.replica == insts[i].replica)
}

/// Dropping instances, or changing them in their places, makes no extras.
pub proof fn lemma_keeping_makes_no_extras(
    f: spec_fn(int) -> Option<Instance>,
    insts: Seq<Instance>,
    k: int,
    app: Seq<char>,
    n: nat,
)
    requires
        keeps_places(f, insts),
        0 <= k <= insts.len(),
        n <= u32::MAX,
    ensures
        extras(kept(f, k), app, n) <= extras(insts.take(k), app, n),
        forall|r: u32| #[trigger] is_filled(kept(f, k), app, r) ==> is_filled(insts.take(k), app, r),
    decreases k,
{
    if k > 0 {
        lemma_keeping_makes_no_extras(f, insts, k - 1, app, n);
        let head = insts.take(k - 1);
        let x = insts[k - 1];
        assert(insts.take(k) =~= head.push(x));
        lemma_count_push(head, x, inside(app, n));
        lemma_filled_places_push(head, x, app, n);
        let before = kept(f, k - 1);
        match f(k - 1) {
            Some(y) => {
                lemma_count_push(before, y, inside(app, n));
                lemma_filled_places_push(before, y, app, n);
            },
            None => {},
        }
        assert forall|r: u32| #[trigger] is_filled(kept(f, k), app, r) implies is_filled(
            insts.take(k),
            app,
            r,
        ) by {
            let after = kept(f, k);
            let i = choose|i: int| 0 <= i < after.len() && (#[trigger] after[i]).fills(app, r);
            if i < before.len() {
                assert(before[i].fills(app, r));
                assert(is_filled(before, app, r));
                assert(is_filled(head, app, r));
                let j = choose|j: int| 0 <= j < head.len() && (#[trigger] head[j]).fills(app, r);
                assert(insts.take(k)[j].fills(app, r));
            } else {
                assert(insts.take(k)[k - 1].fills(app, r));
            }
        }
    } else {
        assert(insts.take(0) =~= seq![]);
    }
}

} // verus!
