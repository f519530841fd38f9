//! Rolling updates: replacing instances whose specification has changed.

use crate::fleet::{
    begin_stop, count, kept, lemma_count_remove, lemma_count_update, lemma_kept_contains,
    lemma_same_marks, marked, marked_groups, of_app, ready_of, retire_marked, retired, retiring,
    Instance,
};
use crate::manifest::Manifest;
use crate::reconcile::Reconciler;
use crate::slots::{
    claimed, find_slot, is_given, law_surge_port_is_free, ports_apart, slot_at, surge_port,
    surge_port_for, Slot, SlotPorts,
};
use crate::state::Phase;
use crate::text::str_eq;
use vstd::prelude::*;

verus! {

/// How many of an app's replicas may be unavailable at once while it is rolled.
pub const MAX_UNAVAILABLE: u64 = 1;

/// What a roll changes: the instances, the ports of places, and the process groups that are asked
/// to terminate.
#[verifier::ext_equal]
pub struct Fleet {
    pub instances: Seq<Instance>,
    pub ports: Map<(Seq<char>, u32), u16>,
    pub groups: Seq<i32>,
}

/// Whether an instance fills a place that now asks for another specification.
pub open spec fn stale(slots: Seq<Slot>, inst: Instance) -> bool {
    slot_at(slots, inst.app@, inst.replica, 0) matches Some(k) && slots[k].hash != inst.spec_hash
}

/// Being a stale instance of an app that is neither ready nor on its way out.
pub open spec fn stale_unready(slots: Seq<Slot>, app: Seq<char>) -> spec_fn(Instance) -> bool {
    |i: Instance|
        i.app@ == app && i.phase != Phase::Ready && i.phase != Phase::Terminating && stale(slots, i)
}

/// Being a stale instance of an app that is ready.
pub open spec fn stale_ready(slots: Seq<Slot>, app: Seq<char>) -> spec_fn(Instance) -> bool {
    |i: Instance| i.app@ == app && i.phase == Phase::Ready && stale(slots, i)
}

/// The first instance with a property, from `from` on.
pub open spec fn first_where(
    insts: Seq<Instance>,
    p: spec_fn(Instance) -> bool,
    from: int,
) -> Option<int>
    decreases insts.len() - from,
{
    if from < 0 || from >= insts.len() {
        None
    } else if p(insts[from]) {
        Some(from)
    } else {
        first_where(insts, p, from + 1)
    }
}

pub proof fn lemma_first_where(insts: Seq<Instance>, p: spec_fn(Instance) -> bool, from: int)
    requires
        0 <= from,
    ensures
        match first_where(insts, p, from) {
            Some(i) => from <= i < insts.len() && p(insts[i]),
            None => forall|i: int| from <= i < insts.len() ==> !p(#[trigger] insts[i]),
        },
    decreases insts.len() - from,
{
    if from < insts.len() && !p(insts[from]) {
        lemma_first_where(insts, p, from + 1);
    }
}

/// Whether a place is filled by an instance with the given fingerprint.
pub open spec fn has_current(insts: Seq<Instance>, app: Seq<char>, replica: u32, hash: u64) -> bool {
    exists|i: int|
        0 <= i < insts.len() && (#[trigger] insts[i]).fills(app, replica) && insts[i].spec_hash
            == hash
}

/// The ports in use: those of the instances, and those that places were given.
pub open spec fn ports_in_use(
    insts: Seq<Instance>,
    ports: Map<(Seq<char>, u32), u16>,
) -> Set<u16> {
    Set::new(
        |p: u16|
            (exists|i: int| 0 <= i < insts.len() && (#[trigger] insts[i]).port == p) || is_given(
                ports,
                p,
            ),
    )
}

/// A fleet in which one instance is retired.
pub open spec fn retire_at(f: Fleet, k: int, now: u64) -> Fleet {
    match retired(f.instances[k], now) {
        Some(i) => Fleet {
            instances: f.instances.update(k, i),
            groups: f.groups.push(f.instances[k].group()->0),
            ..f
        },
        None => Fleet { instances: f.instances.remove(k), ..f },
    }
}

/// How many instances of an app the manifest asks for.
pub open spec fn replicas_of(m: Manifest, app: Seq<char>) -> nat {
    match m.app_named(app) {
        Some(a) => m.apps@[a].replicas as nat,
        None => 0,
    }
}

/// How many instances of an app are missing from the ready ones.
pub open spec fn unavailable(insts: Seq<Instance>, m: Manifest, app: Seq<char>) -> int {
    let ready = count(insts, ready_of(app));
    if ready >= replicas_of(m, app) {
        0
    } else {
        replicas_of(m, app) - ready
    }
}

/// Whether an app may have one more instance while it is rolled.
pub open spec fn may_surge(insts: Seq<Instance>, m: Manifest, app: Seq<char>) -> bool {
    count(insts, of_app(app)) < replicas_of(m, app) + m.defaults.max_surge
}

/// One step of rolling an app. A stale instance that is not ready is retired: it is unavailable
/// already. Else, where extra instances are allowed, the place of a stale ready instance is given
/// a port of its own for a replacement to start on, if the app may have one more instance. Else a
/// stale ready instance is retired, unless too many of the app are unavailable.
pub open spec fn rolled_app(f: Fleet, m: Manifest, slots: Seq<Slot>, app: Seq<char>, now: u64) -> Fleet {
    match first_where(f.instances, stale_unready(slots, app), 0) {
        Some(k) => retire_at(f, k, now),
        None => if m.defaults.max_surge > 0 {
            match (first_where(f.instances, stale_ready(slots, app), 0), m.app_named(app)) {
                (Some(k), Some(a)) => {
                    let inst = f.instances[k];
                    let slot = slots[slot_at(slots, inst.app@, inst.replica, 0)->0];
                    if !has_current(f.instances, app, inst.replica, slot.hash) && may_surge(
                        f.instances,
                        m,
                        app,
                    ) {
                        Fleet {
                            ports: f.ports.insert(
                                (app, inst.replica),
                                surge_port(m, m.apps@[a], ports_in_use(f.instances, f.ports)),
                            ),
                            ..f
                        }
                    } else {
                        f
                    }
                },
                _ => f,
            }
        } else if unavailable(f.instances, m, app) >= MAX_UNAVAILABLE {
            f
        } else {
            match first_where(f.instances, stale_ready(slots, app), 0) {
                Some(k) => retire_at(f, k, now),
                None => f,
            }
        },
    }
}

/// A step of rolling for each of the first `n` apps.
pub open spec fn rolled(
    f: Fleet,
    m: Manifest,
    slots: Seq<Slot>,
    apps: Seq<Seq<char>>,
    n: int,
    now: u64,
) -> Fleet
    decreases n,
{
    if n <= 0 {
        f
    } else {
        rolled_app(rolled(f, m, slots, apps, n - 1, now), m, slots, apps[n - 1], now)
    }
}

/// Whether an instance fills a place that now asks for another specification.
fn is_stale(slots: &Vec<Slot>, inst: &Instance) -> (r: bool)
    ensures
        r == stale(slots@, *inst),
{
    match find_slot(slots, inst.app.as_str(), inst.replica) {
        Some(k) => slots[k].hash != inst.spec_hash,
        None => false,
    }
}

/// Finds the first stale instance of an app, among the ready ones or among those that are neither
/// ready nor on their way out.
fn find_stale(instances: &Vec<Instance>, slots: &Vec<Slot>, app: &str, ready: bool) -> (r: Option<
    usize,
>)
    ensures
        match r {
            Some(k) => k < instances@.len() && first_where(
                instances@,
                if ready {
                    stale_ready(slots@, app@)
                } else {
                    stale_unready(slots@, app@)
                },
                0,
            ) == Some(k as int),
            None => first_where(
                instances@,
                if ready {
                    stale_ready(slots@, app@)
                } else {
                    stale_unready(slots@, app@)
                },
                0,
            ) is None,
        },
{
    let ghost p = if ready {
        stale_ready(slots@, app@)
    } else {
        stale_unready(slots@, app@)
    };
    let mut i: usize = 0;
    while i < instances.len()
        invariant
            i <= instances@.len(),
            p == if ready {
                stale_ready(slots@, app@)
            } else {
                stale_unready(slots@, app@)
            },
            first_where(instances@, p, 0) == first_where(instances@, p, i as int),
        decreases instances@.len() - i,
    {
        let inst = &instances[i];
        let fits = if ready {
            inst.phase == Phase::Ready
        } else {
            inst.phase != Phase::Ready && inst.phase != Phase::Terminating
        };
        if fits && str_eq(inst.app.as_str(), app) && is_stale(slots, inst) {
            assert(p(instances@[i as int]));
            return Some(i);
        }
        assert(!p(instances@[i as int]));
        i += 1;
    }
    None
}

/// How many instances an app has.
pub fn total_of(instances: &Vec<Instance>, app: &str) -> (n: usize)
    ensures
        n == count(instances@, of_app(app@)),
{
    let mut n: usize = 0;
    let mut i: usize = 0;
    assert(instances@.take(0) =~= seq![]);
    while i < instances.len()
        invariant
            i <= instances@.len(),
            n <= i,
            n == count(instances@.take(i as int), of_app(app@)),
        decreases instances@.len() - i,
    {
        assert(instances@.take(i + 1).drop_last() =~= instances@.take(i as int));
        if str_eq(instances[i].app.as_str(), app) {
            n += 1;
        }
        i += 1;
    }
    assert(instances@.take(i as int) =~= instances@);
    n
}

/// How many ready instances an app has.
pub fn ready_total(instances: &Vec<Instance>, app: &str) -> (n: usize)
    ensures
        n == count(instances@, ready_of(app@)),
{
    let mut n: usize = 0;
    let mut i: usize = 0;
    assert(instances@.take(0) =~= seq![]);
    while i < instances.len()
        invariant
            i <= instances@.len(),
            n <= i,
            n == count(instances@.take(i as int), ready_of(app@)),
        decreases instances@.len() - i,
    {
        assert(instances@.take(i + 1).drop_last() =~= instances@.take(i as int));
        if instances[i].phase == Phase::Ready && str_eq(instances[i].app.as_str(), app) {
            n += 1;
        }
        i += 1;
    }
    assert(instances@.take(i as int) =~= instances@);
    n
}

/// Whether a place is filled by an instance with the given fingerprint.
pub fn is_current(instances: &Vec<Instance>, app: &str, replica: u32, hash: u64) -> (r: bool)
    ensures
        r == has_current(instances@, app@, replica, hash),
{
    let mut i: usize = 0;
    while i < instances.len()
        invariant
            i <= instances@.len(),
            forall|j: int|
                0 <= j < i ==> !((#[trigger] instances@[j]).fills(app@, replica)
                    && instances@[j].spec_hash == hash),
        decreases instances@.len() - i,
    {
        let inst = &instances[i];
        if inst.replica == replica && inst.spec_hash == hash && str_eq(inst.app.as_str(), app) {
            assert(instances@[i as int].fills(app@, replica));
            return true;
        }
        i += 1;
    }
    false
}

/// The ports in use.
pub fn used_ports(instances: &Vec<Instance>, ports: &SlotPorts) -> (used: Vec<u16>)
    requires
        ports.wf(),
    ensures
        used@.to_set() == ports_in_use(instances@, ports@),
{
    let mut used: Vec<u16> = Vec::new();
    let mut i: usize = 0;
    while i < instances.len()
        invariant
            i <= instances@.len(),
            used@.len() == i,
            forall|j: int| 0 <= j < i ==> #[trigger] used@[j] == instances@[j].port,
        decreases instances@.len() - i,
    {
        used.push(instances[i].port);
        i += 1;
    }
    let ghost own = used@;
    ports.append_to(&mut used);
    proof {
        assert forall|p: u16| used@.to_set().contains(p) <==> ports_in_use(
            instances@,
            ports@,
        ).contains(p) by {
            assert(used@.contains(p) <==> own.contains(p) || is_given(ports@, p));
            if own.contains(p) {
                let j = choose|j: int| 0 <= j < own.len() && own[j] == p;
                assert(instances@[j].port == p);
            }
            if exists|i: int| 0 <= i < instances@.len() && (#[trigger] instances@[i]).port == p {
                let i = choose|i: int|
                    0 <= i < instances@.len() && (#[trigger] instances@[i]).port == p;
                assert(own[i] == p);
            }
        }
        assert(used@.to_set() =~= ports_in_use(instances@, ports@));
    }
    used
}

impl Reconciler {
    /// What a roll works on.
    pub open spec fn fleet(&self, groups: Seq<i32>) -> Fleet {
        Fleet { instances: self.instances@, ports: self.slot_ports@, groups }
    }

    /// Retires one instance.
    fn retire(&mut self, k: usize, now: u64, groups: &mut Vec<i32>)
        requires
            old(self).wf(),
            k < old(self).instances@.len(),
        ensures
            final(self).wf(),
            *final(self) == (Reconciler { instances: final(self).instances, ..*old(self) }),
            final(self).fleet(final(groups)@) == retire_at(
                old(self).fleet(old(groups)@),
                k as int,
                now,
            ),
    {
        if self.instances[k].is_running() {
            match begin_stop(&mut self.instances[k], false, now) {
                Some(g) => groups.push(g),
                None => {},
            }
            assert(self.instances@ =~= old(self).instances@.update(
                k as int,
                old(self).instances@[k as int].stopped(false, now),
            ));
        } else {
            let _ = self.instances.remove(k);
        }
    }

    /// One step of rolling an app.
    fn roll_app(&mut self, slots: &Vec<Slot>, app: &str, now: u64, groups: &mut Vec<i32>)
        requires
            old(self).wf(),
        ensures
            final(self).wf(),
            *final(self) == (Reconciler {
                instances: final(self).instances,
                slot_ports: final(self).slot_ports,
                ..*old(self)
            }),
            final(self).fleet(final(groups)@) == rolled_app(
                old(self).fleet(old(groups)@),
                old(self).manifest,
                slots@,
                app@,
                now,
            ),
    {
        let ghost f = self.fleet(groups@);
        if let Some(k) = find_stale(&self.instances, slots, app, false) {
            self.retire(k, now, groups);
            return;
        }
        let found = self.manifest.app_index(app);
        let stale = find_stale(&self.instances, slots, app, true);
        if self.manifest.defaults.max_surge > 0 {
            if let Some(k) = stale {
                if let Some(a) = found {
                    proof {
                        lemma_first_where(f.instances, stale_ready(slots@, app@), 0);
                    }
                    let replica = self.instances[k].replica;
                    if let Some(s) = find_slot(slots, self.instances[k].app.as_str(), replica) {
                        let total = total_of(&self.instances, app) as u64;
                        let budget: u64 = self.manifest.apps[a].replicas as u64
                            + self.manifest.defaults.max_surge as u64;
                        if total < budget && !is_current(
                            &self.instances,
                            app,
                            replica,
                            slots[s].hash,
                        ) {
                            let used = used_ports(&self.instances, &self.slot_ports);
                            let port = surge_port_for(
                                &self.manifest,
                                &self.manifest.apps[a],
                                &used,
                            );
                            self.slot_ports.insert(app.to_owned(), replica, port);
                        }
                    }
                }
            }
            return;
        }
        let replicas: u64 = match found {
            Some(a) => self.manifest.apps[a].replicas as u64,
            None => 0,
        };
        let ready = ready_total(&self.instances, app) as u64;
        if replicas >= ready && replicas - ready >= MAX_UNAVAILABLE {
            return;
        }
        if let Some(k) = stale {
            self.retire(k, now, groups);
        }
    }

    /// A step of rolling for every selected app. Returns the process groups to ask to terminate.
    pub fn roll_stale(&mut self, slots: &Vec<Slot>, now: u64) -> (groups: Vec<i32>)
        requires
            old(self).wf(),
        ensures
            final(self).wf(),
            *final(self) == (Reconciler {
                instances: final(self).instances,
                slot_ports: final(self).slot_ports,
                ..*old(self)
            }),
            final(self).fleet(groups@) == rolled(
                old(self).fleet(seq![]),
                old(self).manifest,
                slots@,
                old(self).selected.listed(),
                old(self).selected.listed().len() as int,
                now,
            ),
    {
        let ghost f = self.fleet(seq![]);
        let ghost names = self.selected.listed();
        let mut groups: Vec<i32> = Vec::new();
        let mut i: usize = 0;
        assert(groups@ =~= seq![]);
        while i < self.selected.len()
            invariant
                self.wf(),
                i <= names.len(),
                names == self.selected.listed(),
                *self == (Reconciler {
                    instances: self.instances,
                    slot_ports: self.slot_ports,
                    ..*old(self)
                }),
                self.fleet(groups@) == rolled(f, self.manifest, slots@, names, i as int, now),
            decreases names.len() - i,
        {
            let app = self.selected.name(i).to_owned();
            self.roll_app(slots, app.as_str(), now, &mut groups);
            i += 1;
        }
        groups
    }
}

/// Whether a place is filled by a ready instance with the given fingerprint.
pub open spec fn has_current_ready(
    insts: Seq<Instance>,
    app: Seq<char>,
    replica: u32,
    hash: u64,
) -> bool {
    exists|i: int|
        0 <= i < insts.len() && (#[trigger] insts[i]).fills(app, replica) && insts[i].spec_hash
            == hash && insts[i].phase == Phase::Ready
}

/// Being a stale instance whose replacement is ready.
pub open spec fn surplus(insts: Seq<Instance>, slots: Seq<Slot>) -> spec_fn(int) -> bool {
    |i: int|
        slot_at(slots, insts[i].app@, insts[i].replica, 0) matches Some(k) && insts[i].spec_hash
            != slots[k].hash && insts[i].phase != Phase::Terminating && has_current_ready(
            insts,
            insts[i].app@,
            insts[i].replica,
            slots[k].hash,
        )
}

/// Whether a place is filled by a ready instance with the given fingerprint.
fn is_current_ready(instances: &Vec<Instance>, app: &str, replica: u32, hash: u64) -> (r: bool)
    ensures
        r == has_current_ready(instances@, app@, replica, hash),
{
    let mut i: usize = 0;
    while i < instances.len()
        invariant
            i <= instances@.len(),
            forall|j: int|
                0 <= j < i ==> !((#[trigger] instances@[j]).fills(app@, replica)
                    && instances@[j].spec_hash == hash && instances@[j].phase == Phase::Ready),
        decreases instances@.len() - i,
    {
        let inst = &instances[i];
        if inst.phase == Phase::Ready && inst.replica == replica && inst.spec_hash == hash
            && str_eq(inst.app.as_str(), app) {
            assert(instances@[i as int].fills(app@, replica));
            return true;
        }
        i += 1;
    }
    false
}

impl Reconciler {
    /// Retires the stale instances whose replacement is ready, where extra instances are allowed.
    /// Returns the process groups to ask to terminate.
    pub fn retire_stale_surplus(&mut self, slots: &Vec<Slot>, now: u64) -> (groups: Vec<i32>)
        requires
            old(self).wf(),
        ensures
            final(self).wf(),
            *final(self) == (Reconciler { instances: final(self).instances, ..*old(self) }),
            old(self).manifest.defaults.max_surge == 0 ==> final(self).instances@
                == old(self).instances@ && groups@.len() == 0,
            old(self).manifest.defaults.max_surge > 0 ==> final(self).instances@ == without_surplus(
                old(self).instances@,
                slots@,
                now,
            ) && groups@ == marked_groups(
                old(self).instances@,
                surplus(old(self).instances@, slots@),
                old(self).instances@.len() as int,
            ),
            final(self).instances@ == kept(
                retiring(
                    old(self).instances@,
                    to_retire(old(self).instances@, old(self).manifest, slots@),
                    now,
                ),
                old(self).instances@.len() as int,
            ),
            groups@ == marked_groups(
                old(self).instances@,
                to_retire(old(self).instances@, old(self).manifest, slots@),
                old(self).instances@.len() as int,
            ),
    {
        if self.manifest.defaults.max_surge == 0 {
            proof {
                lemma_none_marked(
                    self.instances@,
                    to_retire(self.instances@, self.manifest, slots@),
                    now,
                    self.instances@.len() as int,
                );
                assert(self.instances@.take(self.instances@.len() as int) =~= self.instances@);
            }
            return Vec::new();
        }
        let ghost all = self.instances@;
        let ghost p = surplus(all, slots@);
        let mut marks: Vec<bool> = Vec::new();
        let mut i: usize = 0;
        while i < self.instances.len()
            invariant
                i <= all.len(),
                all == self.instances@,
                p == surplus(all, slots@),
                marks@.len() == i,
                forall|j: int| 0 <= j < i ==> #[trigger] marks@[j] == p(j),
            decreases all.len() - i,
        {
            let inst = &self.instances[i];
            let mark = match find_slot(slots, inst.app.as_str(), inst.replica) {
                Some(k) => inst.spec_hash != slots[k].hash && inst.phase != Phase::Terminating
                    && is_current_ready(
                    &self.instances,
                    inst.app.as_str(),
                    inst.replica,
                    slots[k].hash,
                ),
                None => false,
            };
            marks.push(mark);
            i += 1;
        }
        proof {
            lemma_same_marks(all, marked(marks@), p, now, all.len() as int);
            lemma_same_marks(all, to_retire(all, self.manifest, slots@), p, now, all.len() as int);
        }
        retire_marked(&mut self.instances, &marks, now)
    }
}

/// The instances that are retired once their replacements are ready.
pub open spec fn to_retire(insts: Seq<Instance>, m: Manifest, slots: Seq<Slot>) -> spec_fn(
    int,
) -> bool {
    |i: int| m.defaults.max_surge > 0 && surplus(insts, slots)(i)
}

/// Where nothing is marked, nothing is retired.
proof fn lemma_none_marked(insts: Seq<Instance>, marks: spec_fn(int) -> bool, now: u64, n: int)
    requires
        0 <= n <= insts.len(),
        forall|i: int| 0 <= i < n ==> !#[trigger] marks(i),
    ensures
        kept(retiring(insts, marks, now), n) == insts.take(n),
        marked_groups(insts, marks, n).len() == 0,
    decreases n,
{
    if n > 0 {
        lemma_none_marked(insts, marks, now, n - 1);
        assert(!marks(n - 1));
        assert(insts.take(n) =~= insts.take(n - 1).push(insts[n - 1]));
    } else {
        assert(insts.take(0) =~= seq![]);
    }
}

/// Retiring one instance takes at most that one from the ready instances of its app, and nothing
/// from those of another.
proof fn lemma_retire_at_ready(f: Fleet, k: int, now: u64, app: Seq<char>)
    requires
        0 <= k < f.instances.len(),
    ensures
        count(retire_at(f, k, now).instances, ready_of(app)) + (if f.instances[k].app@ == app
            && f.instances[k].phase == Phase::Ready {
            1nat
        } else {
            0
        }) == count(f.instances, ready_of(app)),
{
    match retired(f.instances[k], now) {
        Some(i) => lemma_count_update(f.instances, k, i, ready_of(app)),
        None => lemma_count_remove(f.instances, k, ready_of(app)),
    }
}

/// A roll never takes more of an app than it may be short of: after it no more instances are
/// unavailable than before it, or than the one that may be.
pub proof fn law_roll_respects_max_unavailable(
    f: Fleet,
    m: Manifest,
    slots: Seq<Slot>,
    apps: Seq<Seq<char>>,
    n: int,
    now: u64,
    app: Seq<char>,
)
    requires
        0 <= n <= apps.len(),
    ensures
        unavailable(rolled(f, m, slots, apps, n, now).instances, m, app) <= if unavailable(
            f.instances,
            m,
            app,
        ) > MAX_UNAVAILABLE {
            unavailable(f.instances, m, app)
        } else {
            MAX_UNAVAILABLE as int
        },
    decreases n,
{
    if n > 0 {
        law_roll_respects_max_unavailable(f, m, slots, apps, n - 1, now, app);
        let g = rolled(f, m, slots, apps, n - 1, now);
        let b = apps[n - 1];
        lemma_first_where(g.instances, stale_unready(slots, b), 0);
        lemma_first_where(g.instances, stale_ready(slots, b), 0);
        match first_where(g.instances, stale_unready(slots, b), 0) {
            Some(k) => lemma_retire_at_ready(g, k, now, app),
            None => match first_where(g.instances, stale_ready(slots, b), 0) {
                Some(k) => lemma_retire_at_ready(g, k, now, app),
                None => {},
            },
        }
    }
}

/// Where extra instances are allowed, a roll stops no ready instance: an app has as many ready
/// instances after it as before it.
pub proof fn law_surging_roll_keeps_ready(
    f: Fleet,
    m: Manifest,
    slots: Seq<Slot>,
    apps: Seq<Seq<char>>,
    n: int,
    now: u64,
    app: Seq<char>,
)
    requires
        0 <= n <= apps.len(),
        m.defaults.max_surge > 0,
    ensures
        count(rolled(f, m, slots, apps, n, now).instances, ready_of(app)) == count(
            f.instances,
            ready_of(app),
        ),
    decreases n,
{
    if n > 0 {
        law_surging_roll_keeps_ready(f, m, slots, apps, n - 1, now, app);
        let g = rolled(f, m, slots, apps, n - 1, now);
        let b = apps[n - 1];
        lemma_first_where(g.instances, stale_unready(slots, b), 0);
        match first_where(g.instances, stale_unready(slots, b), 0) {
            Some(k) => lemma_retire_at_ready(g, k, now, app),
            None => {},
        }
    }
}

/// A roll takes one step at a time: for one app it retires at most one instance, and changes no
/// other.
pub proof fn law_roll_retires_at_most_one(
    f: Fleet,
    m: Manifest,
    slots: Seq<Slot>,
    app: Seq<char>,
    now: u64,
)
    ensures
        ({
            let after = rolled_app(f, m, slots, app, now).instances;
            ||| after == f.instances
            ||| exists|k: int|
                0 <= k < f.instances.len() && (#[trigger] f.instances[k]).app@ == app && stale(
                    slots,
                    f.instances[k],
                ) && after == retire_at(f, k, now).instances
        }),
{
    lemma_first_where(f.instances, stale_unready(slots, app), 0);
    lemma_first_where(f.instances, stale_ready(slots, app), 0);
    let after = rolled_app(f, m, slots, app, now).instances;
    match first_where(f.instances, stale_unready(slots, app), 0) {
        Some(k) => {
            assert(f.instances[k].app@ == app && after == retire_at(f, k, now).instances);
        },
        None => match first_where(f.instances, stale_ready(slots, app), 0) {
            Some(k) => {
                assert(f.instances[k].app@ == app);
            },
            None => {},
        },
    }
}

/// Whether a place is filled by a ready instance.
pub open spec fn place_ready(insts: Seq<Instance>, app: Seq<char>, replica: u32) -> bool {
    exists|i: int|
        0 <= i < insts.len() && (#[trigger] insts[i]).fills(app, replica) && insts[i].phase
            == Phase::Ready
}

/// The instances once the surplus was retired.
pub open spec fn without_surplus(insts: Seq<Instance>, slots: Seq<Slot>, now: u64) -> Seq<Instance> {
    kept(retiring(insts, surplus(insts, slots), now), insts.len() as int)
}

pub proof fn lemma_place_ready(insts: Seq<Instance>, inst: Instance)
    requires
        insts.contains(inst),
        inst.phase == Phase::Ready,
    ensures
        place_ready(insts, inst.app@, inst.replica),
{
    let i = choose|i: int| 0 <= i < insts.len() && insts[i] == inst;
    assert(insts[i].fills(inst.app@, inst.replica));
}

/// Retiring the surplus leaves no place without a ready instance that had one.
pub proof fn law_surplus_retired_without_downtime(
    insts: Seq<Instance>,
    slots: Seq<Slot>,
    now: u64,
    app: Seq<char>,
    replica: u32,
)
    requires
        place_ready(insts, app, replica),
    ensures
        place_ready(without_surplus(insts, slots, now), app, replica),
{
    let p = surplus(insts, slots);
    let j = choose|j: int|
        0 <= j < insts.len() && (#[trigger] insts[j]).fills(app, replica) && insts[j].phase
            == Phase::Ready;
    let c = if p(j) {
        let hash = slots[slot_at(slots, insts[j].app@, insts[j].replica, 0)->0].hash;
        choose|i: int|
            0 <= i < insts.len() && (#[trigger] insts[i]).fills(insts[j].app@, insts[j].replica)
                && insts[i].spec_hash == hash && insts[i].phase == Phase::Ready
    } else {
        j
    };
    assert(!p(c));
    let f = retiring(insts, p, now);
    assert(f(c) == Some(insts[c]));
    lemma_kept_contains(f, insts.len() as int, c);
    lemma_place_ready(without_surplus(insts, slots, now), insts[c]);
}

/// Where extra instances are allowed, a ready instance is left as it is by a roll.
pub proof fn lemma_surging_roll_keeps(
    f: Fleet,
    m: Manifest,
    slots: Seq<Slot>,
    apps: Seq<Seq<char>>,
    n: int,
    now: u64,
    inst: Instance,
)
    requires
        m.defaults.max_surge > 0,
        f.instances.contains(inst),
        inst.phase == Phase::Ready,
    ensures
        rolled(f, m, slots, apps, n, now).instances.contains(inst),
    decreases n,
{
    if n > 0 {
        lemma_surging_roll_keeps(f, m, slots, apps, n - 1, now, inst);
        let g = rolled(f, m, slots, apps, n - 1, now);
        let after = rolled(f, m, slots, apps, n, now).instances;
        let b = apps[n - 1];
        lemma_first_where(g.instances, stale_unready(slots, b), 0);
        let i = choose|i: int| 0 <= i < g.instances.len() && g.instances[i] == inst;
        match first_where(g.instances, stale_unready(slots, b), 0) {
            Some(k) => {
                assert(i != k);
                if g.instances[k].running() || i < k {
                    assert(after[i] == inst);
                } else {
                    assert(after[i - 1] == inst);
                }
            },
            None => {},
        }
    }
}

/// Being a ready instance of an app with a replica below a number.
pub open spec fn ready_below(app: Seq<char>, n: nat) -> spec_fn(Instance) -> bool {
    |i: Instance| i.app@ == app && i.phase == Phase::Ready && i.replica < n
}

/// Being a ready instance in a place.
pub open spec fn ready_in(app: Seq<char>, replica: u32) -> spec_fn(Instance) -> bool {
    |i: Instance| i.fills(app, replica) && i.phase == Phase::Ready
}

proof fn lemma_count_parts(insts: Seq<Instance>, app: Seq<char>, n: u32)
    ensures
        count(insts, ready_below(app, n as nat)) + count(insts, ready_in(app, n)) == count(
            insts,
            ready_below(app, (n + 1) as nat),
        ),
    decreases insts.len(),
{
    if insts.len() > 0 {
        lemma_count_parts(insts.drop_last(), app, n);
    }
}

proof fn lemma_count_some(insts: Seq<Instance>, p: spec_fn(Instance) -> bool, i: int)
    requires
        0 <= i < insts.len(),
        p(insts[i]),
    ensures
        count(insts, p) >= 1,
    decreases insts.len(),
{
    if i < insts.len() - 1 {
        assert(insts.drop_last()[i] == insts[i]);
        lemma_count_some(insts.drop_last(), p, i);
    }
}

proof fn lemma_ready_below(insts: Seq<Instance>, app: Seq<char>, n: u32)
    ensures
        count(insts, ready_below(app, n as nat)) <= count(insts, ready_of(app)),
    decreases insts.len(),
{
    if insts.len() > 0 {
        lemma_ready_below(insts.drop_last(), app, n);
    }
}

/// An app whose every place is filled by a ready instance has as many ready instances as it asks
/// for.
pub proof fn law_ready_places_make_ready_app(insts: Seq<Instance>, app: Seq<char>, n: u32)
    requires
        forall|r: u32| r < n ==> #[trigger] place_ready(insts, app, r),
    ensures
        count(insts, ready_of(app)) >= n,
{
    lemma_ready_places(insts, app, n);
    lemma_ready_below(insts, app, n);
}

proof fn lemma_ready_places(insts: Seq<Instance>, app: Seq<char>, n: u32)
    requires
        forall|r: u32| r < n ==> #[trigger] place_ready(insts, app, r),
    ensures
        count(insts, ready_below(app, n as nat)) >= n,
    decreases n,
{
    if n > 0 {
        let last = (n - 1) as u32;
        lemma_ready_places(insts, app, last);
        lemma_count_parts(insts, app, last);
        assert(place_ready(insts, app, last));
        let i = choose|i: int|
            0 <= i < insts.len() && (#[trigger] insts[i]).fills(app, last) && insts[i].phase
                == Phase::Ready;
        lemma_count_some(insts, ready_in(app, last), i);
    }
}

/// A roll gives no two places one port, and none the port of an app, as long as a port above the
/// app's own is free.
pub proof fn law_roll_keeps_ports_apart(
    f: Fleet,
    m: Manifest,
    slots: Seq<Slot>,
    app: Seq<char>,
    now: u64,
    p: int,
)
    requires
        ports_apart(m, f.ports),
        m.app_named(app) matches Some(a) ==> m.apps@[a].port_end() <= p <= 65535,
        !claimed(m, p),
        !ports_in_use(f.instances, f.ports).contains(p as u16),
    ensures
        ports_apart(m, rolled_app(f, m, slots, app, now).ports),
{
    let used = ports_in_use(f.instances, f.ports);
    if let Some(a) = m.app_named(app) {
        law_surge_port_is_free(m, m.apps@[a], used, p);
        let port = surge_port(m, m.apps@[a], used);
        assert forall|k: (Seq<char>, u32)| #[trigger] f.ports.dom().contains(k) implies f.ports[k]
            != port by {
            if f.ports[k] == port {
                assert(used.contains(port));
            }
        }
    }
}

} // verus!
