//! One tick of the loop: the steps in their order, from what is known of the processes to what is
//! to be stopped, killed and started.

use crate::fleet::{
    kept, lemma_kept_contains, marked_groups, overdue, reaping, retiring, stopping, Exit, Instance,
};
use crate::manifest::Manifest;
use crate::order::is_stable_order;
use crate::reconcile::Reconciler;
use crate::roll::{
    first_where, has_current, law_surplus_retired_without_downtime, lemma_first_where, lemma_place_ready,
    lemma_surging_roll_keeps, place_ready, retire_at, rolled, stale, stale_ready, stale_unready, surplus,
    without_surplus, Fleet,
};
use crate::scale::{blocked, check_blocked, highest_first, ordered_groups, unwanted};
use crate::slots::{are_desired, lemma_slot_at, lemma_slots_distinct, slot_at, Slot};
use crate::spawn::{
    extras, filled, inside, is_filled, law_live_processes_within_budget,
    law_spawning_keeps_instances, lemma_app_of, lemma_keeping_makes_no_extras, live_after_start,
    peopled, surged, to_start,
};
use crate::state::Phase;
use vstd::prelude::*;

verus! {

/// What is to be done after a tick's decisions, in this order.
pub struct TickPlan {
    /// The process groups to kill.
    pub kill: Vec<i32>,
    /// The process groups to ask to terminate.
    pub terminate: Vec<i32>,
    /// The instances to start.
    pub start: Vec<usize>,
    /// The places that are to be filled.
    pub slots: Vec<Slot>,
}

/// What to do once a tick is over.
#[derive(Debug, Clone, Copy, PartialEq, Eq, Structural)]
pub enum LoopStep {
    /// Leave the loop, and say whether what was waited for has come.
    Stop(bool),
    /// Sleep until the next tick.
    Sleep,
}

/// What follows a tick.
pub open spec fn loop_choice(step: usize, max_steps: usize, satisfied: bool) -> LoopStep {
    if satisfied {
        LoopStep::Stop(true)
    } else if step + 1 < max_steps {
        LoopStep::Sleep
    } else {
        LoopStep::Stop(false)
    }
}

/// What to do once tick `step` is over, counted from 0, where there are to be `max_steps` at most
/// and `satisfied` says whether what is waited for has come. There is no sleep after the last one.
pub fn after_tick(step: usize, max_steps: usize, satisfied: bool) -> (r: LoopStep)
    ensures
        r == if satisfied {
            LoopStep::Stop(true)
        } else if step + 1 < max_steps {
            LoopStep::Sleep
        } else {
            LoopStep::Stop(false)
        },
        r == loop_choice(step, max_steps, satisfied),
{
    if satisfied {
        LoopStep::Stop(true)
    } else if step < max_steps && max_steps - step > 1 {
        LoopStep::Sleep
    } else {
        LoopStep::Stop(false)
    }
}

/// The instances once those that exited were harvested.
pub open spec fn harvested(insts: Seq<Instance>, exits: Seq<Exit>, m: Manifest, now: u64) -> Seq<
    Instance,
> {
    kept(reaping(insts, exits, now, m.defaults), exits.len() as int)
}

/// The instances once those that are not wanted were retired.
pub open spec fn scaled(insts: Seq<Instance>, slots: Seq<Slot>, now: u64) -> Seq<Instance> {
    kept(retiring(insts, unwanted(insts, slots), now), insts.len() as int)
}

/// The instances once those whose checks fail were stopped.
pub open spec fn gated(
    insts: Seq<Instance>,
    m: Manifest,
    checks: Map<Seq<char>, bool>,
    now: u64,
) -> Seq<Instance> {
    stopping(insts, blocked(insts, m, checks), true, now)
}

/// Whether a tick leads from `before` to `after` and `plan`, where `slots` are the places that the
/// manifest asks for at its begin, and `order` is the order in which what is not wanted is asked
/// to terminate.
pub open spec fn ticks(
    before: Reconciler,
    exits: Seq<Exit>,
    now: u64,
    slots: Seq<Slot>,
    order: Seq<usize>,
    after: Reconciler,
    plan: TickPlan,
) -> bool {
    let m = before.manifest;
    let a = harvested(before.instances@, exits, m, now);
    let b = scaled(a, slots, now);
    let c = gated(b, m, before.checks_ok@, now);
    let d = rolled(
        Fleet { instances: c, ports: before.slot_ports@, groups: seq![] },
        m,
        slots,
        before.selected.listed(),
        before.selected.listed().len() as int,
        now,
    );
    &&& are_desired(slots, m, before.selected@, before.slot_ports@)
    &&& is_stable_order(highest_first(a), a.len() as int, order)
    &&& plan.kill@ == overdue(before.instances@, exits, now, exits.len() as int)
    &&& plan.terminate@ == ordered_groups(a, unwanted(a, slots), order, order.len() as int)
        + marked_groups(b, blocked(b, m, before.checks_ok@), b.len() as int) + d.groups
    &&& are_desired(plan.slots@, m, before.selected@, d.ports)
    &&& after.slot_ports@ == d.ports
    &&& after.instances@ == peopled(d.instances, m, d.ports, plan.slots@, now)
    &&& plan.start@ == to_start(
        after.instances@,
        m,
        before.checks_ok@,
        now,
        after.instances@.len() as int,
    )
}

impl Reconciler {
    /// The decisions of one tick, `exits` holding for each instance what became of its process:
    /// harvests what exited, retires what is not wanted, stops what a failing check blocks, rolls
    /// what is stale, and fills the places. Once what is to be started was started, the stale
    /// instances whose replacement is ready are retired.
    pub fn tick(&mut self, exits: &Vec<Exit>, now: u64) -> (plan: TickPlan)
        requires
            old(self).wf(),
            exits@.len() == old(self).instances@.len(),
        ensures
            final(self).wf(),
            *final(self) == (Reconciler {
                instances: final(self).instances,
                slot_ports: final(self).slot_ports,
                ..*old(self)
            }),
            exists|slots: Seq<Slot>, order: Seq<usize>| #[trigger]
                ticks(*old(self), exits@, now, slots, order, *final(self), plan),
    {
        let kill = self.reap(exits, now);
        let ghost a = self.instances@;
        let slots = self.desired_slots();
        let mut terminate = self.terminate_undesired(&slots, now);
        let ghost order = choose|order: Seq<usize>| #[trigger]
            is_stable_order(highest_first(a), a.len() as int, order) && terminate@
                == ordered_groups(a, unwanted(a, slots@), order, order.len() as int);
        let mut more = self.stop_check_blocked(now);
        terminate.append(&mut more);
        let mut rest = self.roll_stale(&slots, now);
        terminate.append(&mut rest);
        let places = self.desired_slots();
        let start = self.spawn_missing(&places, now);
        let plan = TickPlan { kill, terminate, start, slots: places };
        assert(ticks(*old(self), exits@, now, slots@, order, *self, plan));
        plan
    }
}

/// Whether a fleet is as the manifest asks for: every process runs, every instance is ready and
/// fills a place with the fingerprint that the place asks for, every place is filled, and no check
/// blocks an app.
pub open spec fn settled_fleet(
    insts: Seq<Instance>,
    exits: Seq<Exit>,
    m: Manifest,
    checks: Map<Seq<char>, bool>,
    slots: Seq<Slot>,
) -> bool {
    &&& exits.len() == insts.len()
    &&& forall|i: int|
        0 <= i < insts.len() ==> (#[trigger] insts[i]).running() && insts[i].phase == Phase::Ready
            && exits[i] != Exit::Exited && slot_at(
            slots,
            insts[i].app@,
            insts[i].replica,
            0,
        ) is Some && !stale(slots, insts[i]) && !check_blocked(m, checks, insts[i].app@)
    &&& forall|k: int|
        0 <= k < slots.len() ==> is_filled(insts, (#[trigger] slots[k]).app@, slots[k].replica)
}

/// Keeping everything keeps the list.
proof fn lemma_kept_all(f: spec_fn(int) -> Option<Instance>, insts: Seq<Instance>, n: int)
    requires
        0 <= n <= insts.len(),
        forall|i: int| 0 <= i < n ==> #[trigger] f(i) == Some(insts[i]),
    ensures
        kept(f, n) == insts.take(n),
    decreases n,
{
    if n > 0 {
        lemma_kept_all(f, insts, n - 1);
        assert(f(n - 1) == Some(insts[n - 1]));
        assert(insts.take(n) =~= insts.take(n - 1).push(insts[n - 1]));
    } else {
        assert(insts.take(0) =~= seq![]);
    }
}

proof fn lemma_nothing_to_roll(
    f: Fleet,
    m: Manifest,
    slots: Seq<Slot>,
    apps: Seq<Seq<char>>,
    n: int,
    now: u64,
)
    requires
        forall|i: int| 0 <= i < f.instances.len() ==> !stale(slots, #[trigger] f.instances[i]),
    ensures
        rolled(f, m, slots, apps, n, now) == f,
    decreases n,
{
    if n > 0 {
        lemma_nothing_to_roll(f, m, slots, apps, n - 1, now);
        lemma_first_where(f.instances, stale_unready(slots, apps[n - 1]), 0);
        lemma_first_where(f.instances, stale_ready(slots, apps[n - 1]), 0);
    }
}

proof fn lemma_nothing_to_fill(insts: Seq<Instance>, slots: Seq<Slot>, n: int, now: u64)
    requires
        0 <= n <= slots.len(),
        forall|k: int|
            0 <= k < slots.len() ==> is_filled(insts, (#[trigger] slots[k]).app@, slots[k].replica),
    ensures
        filled(insts, slots, n, now) == insts,
    decreases n,
{
    if n > 0 {
        lemma_nothing_to_fill(insts, slots, n - 1, now);
        assert(is_filled(insts, slots[n - 1].app@, slots[n - 1].replica));
    }
}

proof fn lemma_nothing_to_surge(
    insts: Seq<Instance>,
    m: Manifest,
    ports: Map<(Seq<char>, u32), u16>,
    slots: Seq<Slot>,
    n: int,
    now: u64,
)
    requires
        0 <= n <= slots.len(),
        forall|k: int|
            0 <= k < slots.len() ==> has_current(
                insts,
                (#[trigger] slots[k]).app@,
                slots[k].replica,
                slots[k].hash,
            ),
    ensures
        surged(insts, m, ports, slots, n, now) == insts,
    decreases n,
{
    if n > 0 {
        lemma_nothing_to_surge(insts, m, ports, slots, n - 1, now);
        assert(has_current(
            insts,
            slots[n - 1].app@,
            slots[n - 1].replica,
            slots[n - 1].hash,
        ));
    }
}

proof fn lemma_nothing_to_start(
    insts: Seq<Instance>,
    m: Manifest,
    checks: Map<Seq<char>, bool>,
    now: u64,
    n: int,
)
    requires
        0 <= n <= insts.len(),
        forall|i: int| 0 <= i < insts.len() ==> (#[trigger] insts[i]).running(),
    ensures
        to_start(insts, m, checks, now, n) == Seq::<usize>::empty(),
    decreases n,
{
    if n > 0 {
        lemma_nothing_to_start(insts, m, checks, now, n - 1);
        assert(insts[n - 1].running());
    }
}

/// What is as the manifest asks for is left alone: a tick on a settled fleet changes no instance
/// and no port, stops nothing and starts nothing, and finds nothing to retire after it.
pub proof fn law_settled_fleet_is_left_alone(
    insts: Seq<Instance>,
    exits: Seq<Exit>,
    m: Manifest,
    selected: Set<Seq<char>>,
    apps: Seq<Seq<char>>,
    checks: Map<Seq<char>, bool>,
    ports: Map<(Seq<char>, u32), u16>,
    slots: Seq<Slot>,
    now: u64,
)
    requires
        are_desired(slots, m, selected, ports),
        settled_fleet(insts, exits, m, checks, slots),
    ensures
        harvested(insts, exits, m, now) == insts,
        scaled(insts, slots, now) == insts,
        gated(insts, m, checks, now) == insts,
        ({
            let f = Fleet { instances: insts, ports, groups: seq![] };
            rolled(f, m, slots, apps, apps.len() as int, now) == f
        }),
        peopled(insts, m, ports, slots, now) == insts,
        to_start(insts, m, checks, now, insts.len() as int).len() == 0,
        overdue(insts, exits, now, insts.len() as int).len() == 0,
        forall|i: int| 0 <= i < insts.len() ==> !#[trigger] surplus(insts, slots)(i),
{
    let n = insts.len() as int;
    lemma_kept_all(reaping(insts, exits, now, m.defaults), insts, n);
    assert(insts.take(n) =~= insts);
    lemma_kept_all(retiring(insts, unwanted(insts, slots), now), insts, n);
    assert(stopping(insts, blocked(insts, m, checks), true, now) =~= insts);
    let f = Fleet { instances: insts, ports, groups: seq![] };
    lemma_nothing_to_roll(f, m, slots, apps, apps.len() as int, now);
    lemma_nothing_to_fill(insts, slots, slots.len() as int, now);
    assert forall|k: int| 0 <= k < slots.len() implies has_current(
        insts,
        (#[trigger] slots[k]).app@,
        slots[k].replica,
        slots[k].hash,
    ) by {
        assert(is_filled(insts, slots[k].app@, slots[k].replica));
        let i = choose|i: int|
            0 <= i < insts.len() && (#[trigger] insts[i]).fills(slots[k].app@, slots[k].replica);
        assert(!stale(slots, insts[i]));
        lemma_slot_at(slots, insts[i].app@, insts[i].replica, 0);
        let j = slot_at(slots, insts[i].app@, insts[i].replica, 0)->0;
        lemma_slots_distinct(slots, m, selected, ports, j, k);
    }
    lemma_nothing_to_surge(insts, m, ports, slots, slots.len() as int, now);
    lemma_nothing_to_start(insts, m, checks, now, n);
    lemma_nothing_overdue(insts, exits, now, n);
}

proof fn lemma_nothing_overdue(insts: Seq<Instance>, exits: Seq<Exit>, now: u64, n: int)
    requires
        0 <= n <= insts.len(),
        forall|i: int| 0 <= i < insts.len() ==> (#[trigger] insts[i]).phase == Phase::Ready,
    ensures
        overdue(insts, exits, now, n).len() == 0,
    decreases n,
{
    if n > 0 {
        lemma_nothing_overdue(insts, exits, now, n - 1);
        assert(insts[n - 1].phase == Phase::Ready);
    }
}

/// Rolling with extra instances allowed costs no place its ready instance: where a place that the
/// manifest asks for is filled by a ready instance before a tick, it is after it, and still is
/// once the surplus was retired, as long as no ready process of the app exits and no check blocks
/// the app.
pub proof fn law_surging_tick_has_no_downtime(
    before: Reconciler,
    exits: Seq<Exit>,
    now: u64,
    slots: Seq<Slot>,
    order: Seq<usize>,
    after: Reconciler,
    plan: TickPlan,
    app: Seq<char>,
    replica: u32,
)
    requires
        ticks(before, exits, now, slots, order, after, plan),
        exits.len() == before.instances@.len(),
        before.manifest.defaults.max_surge > 0,
        slot_at(slots, app, replica, 0) is Some,
        !check_blocked(before.manifest, before.checks_ok@, app),
        forall|i: int|
            0 <= i < exits.len() && (#[trigger] before.instances@[i]).app@ == app
                && before.instances@[i].phase == Phase::Ready ==> exits[i] != Exit::Exited,
        place_ready(before.instances@, app, replica),
    ensures
        place_ready(after.instances@, app, replica),
        place_ready(without_surplus(after.instances@, plan.slots@, now), app, replica),
{
    let m = before.manifest;
    let insts = before.instances@;
    let i = choose|i: int|
        0 <= i < insts.len() && (#[trigger] insts[i]).fills(app, replica) && insts[i].phase
            == Phase::Ready;
    let inst = insts[i];
    let a = harvested(insts, exits, m, now);
    let f = reaping(insts, exits, now, m.defaults);
    assert(f(i) == Some(inst));
    lemma_kept_contains(f, exits.len() as int, i);
    let j = choose|j: int| 0 <= j < a.len() && a[j] == inst;
    let b = scaled(a, slots, now);
    let g = retiring(a, unwanted(a, slots), now);
    assert(g(j) == Some(inst));
    lemma_kept_contains(g, a.len() as int, j);
    let k = choose|k: int| 0 <= k < b.len() && b[k] == inst;
    let c = gated(b, m, before.checks_ok@, now);
    assert(!blocked(b, m, before.checks_ok@)(k));
    assert(c[k] == inst);
    assert(c.contains(inst));
    let names = before.selected.listed();
    let n = before.selected.listed().len() as int;
    let start = Fleet { instances: c, ports: before.slot_ports@, groups: seq![] };
    lemma_surging_roll_keeps(start, m, slots, names, n, now, inst);
    let d = rolled(start, m, slots, names, n, now);
    law_spawning_keeps_instances(d.instances, m, d.ports, plan.slots@, now);
    let x = choose|x: int| 0 <= x < d.instances.len() && d.instances[x] == inst;
    assert(after.instances@.subrange(0, d.instances.len() as int)[x] == after.instances@[x]);
    assert(after.instances@.contains(inst));
    lemma_place_ready(after.instances@, inst);
    law_surplus_retired_without_downtime(after.instances@, plan.slots@, now, app, replica);
}

/// Changing the instances in their places, or taking one out, makes no extras.
proof fn lemma_same_places_no_extras(
    insts: Seq<Instance>,
    after: Seq<Instance>,
    app: Seq<char>,
    n: nat,
)
    requires
        after.len() == insts.len(),
        forall|i: int|
            0 <= i < insts.len() ==> (#[trigger] after[i]).app@ == insts[i].app@ && after[i].replica
                == insts[i].replica,
        n <= u32::MAX,
    ensures
        extras(after, app, n) <= extras(insts, app, n),
{
    let k = insts.len() as int;
    let f = |i: int| Some(after[i]);
    lemma_kept_all(f, after, k);
    assert(after.take(k) =~= after);
    assert(insts.take(k) =~= insts);
    lemma_keeping_makes_no_extras(f, insts, k, app, n);
}

proof fn lemma_kept_without(f: spec_fn(int) -> Option<Instance>, insts: Seq<Instance>, at: int, k: int)
    requires
        0 <= at < insts.len(),
        0 <= k <= insts.len(),
        forall|i: int|
            0 <= i < insts.len() ==> #[trigger] f(i) == if i == at {
                None
            } else {
                Some(insts[i])
            },
    ensures
        kept(f, k) == if k <= at {
            insts.take(k)
        } else {
            insts.take(k).remove(at)
        },
    decreases k,
{
    if k > 0 {
        lemma_kept_without(f, insts, at, k - 1);
        assert(insts.take(k) =~= insts.take(k - 1).push(insts[k - 1]));
        assert(f(k - 1) == if k - 1 == at {
            None
        } else {
            Some(insts[k - 1])
        });
        if k - 1 == at {
            assert(insts.take(k).remove(at) =~= insts.take(k - 1));
        } else if k - 1 > at {
            assert(insts.take(k).remove(at) =~= insts.take(k - 1).remove(at).push(insts[k - 1]));
        }
    } else {
        assert(insts.take(0) =~= seq![]);
    }
}

proof fn lemma_retiring_no_extras(f: Fleet, k: int, now: u64, app: Seq<char>, n: nat)
    requires
        0 <= k < f.instances.len(),
        n <= u32::MAX,
    ensures
        extras(retire_at(f, k, now).instances, app, n) <= extras(f.instances, app, n),
{
    let insts = f.instances;
    let after = retire_at(f, k, now).instances;
    if insts[k].running() {
        lemma_same_places_no_extras(insts, after, app, n);
    } else {
        let len = insts.len() as int;
        let g = |i: int|
            if i == k {
                None
            } else {
                Some(insts[i])
            };
        lemma_kept_without(g, insts, k, len);
        assert(insts.take(len) =~= insts);
        lemma_keeping_makes_no_extras(g, insts, len, app, n);
    }
}

proof fn lemma_roll_no_extras(
    f: Fleet,
    m: Manifest,
    slots: Seq<Slot>,
    apps: Seq<Seq<char>>,
    k: int,
    now: u64,
    app: Seq<char>,
    n: nat,
)
    requires
        n <= u32::MAX,
    ensures
        extras(rolled(f, m, slots, apps, k, now).instances, app, n) <= extras(
            f.instances,
            app,
            n,
        ),
    decreases k,
{
    if k > 0 {
        lemma_roll_no_extras(f, m, slots, apps, k - 1, now, app, n);
        let g = rolled(f, m, slots, apps, k - 1, now);
        let b = apps[k - 1];
        lemma_first_where(g.instances, stale_unready(slots, b), 0);
        lemma_first_where(g.instances, stale_ready(slots, b), 0);
        match first_where(g.instances, stale_unready(slots, b), 0) {
            Some(i) => lemma_retiring_no_extras(g, i, now, app, n),
            None => match first_where(g.instances, stale_ready(slots, b), 0) {
                Some(i) => lemma_retiring_no_extras(g, i, now, app, n),
                None => {},
            },
        }
    }
}

/// Tick after tick an app has no more processes in its places than its replicas and the extra ones
/// that are allowed: where it has no more extras than that before a tick, it has no more after it,
/// nor once the surplus was retired, and what then runs, with all that was to be started, stays
/// within the budget. A cluster begins with no instance, and so with no extras.
pub proof fn law_tick_stays_within_budget(
    before: Reconciler,
    exits: Seq<Exit>,
    now: u64,
    slots: Seq<Slot>,
    order: Seq<usize>,
    after: Reconciler,
    plan: TickPlan,
    a: int,
)
    requires
        before.manifest.valid(),
        ticks(before, exits, now, slots, order, after, plan),
        exits.len() == before.instances@.len(),
        0 <= a < before.manifest.apps@.len(),
        before.selected@.contains(before.manifest.apps@[a].name@),
        extras(
            before.instances@,
            before.manifest.apps@[a].name@,
            before.manifest.apps@[a].replicas as nat,
        ) <= before.manifest.defaults.max_surge,
    ensures
        ({
            let m = before.manifest;
            let app = m.apps@[a].name@;
            let n = m.apps@[a].replicas as nat;
            let insts = after.instances@;
            &&& extras(insts, app, n) <= m.defaults.max_surge
            &&& extras(without_surplus(insts, plan.slots@, now), app, n) <= m.defaults.max_surge
            &&& live_after_start(
                insts,
                m,
                before.checks_ok@,
                now,
                inside(app, n),
                insts.len() as int,
            ) <= n + m.defaults.max_surge
        }),
{
    let m = before.manifest;
    let app = m.apps@[a].name@;
    let n = m.apps@[a].replicas as nat;
    let insts = before.instances@;
    let x = harvested(insts, exits, m, now);
    assert(insts.take(exits.len() as int) =~= insts);
    lemma_keeping_makes_no_extras(
        reaping(insts, exits, now, m.defaults),
        insts,
        exits.len() as int,
        app,
        n,
    );
    let y = scaled(x, slots, now);
    assert(x.take(x.len() as int) =~= x);
    lemma_keeping_makes_no_extras(
        retiring(x, unwanted(x, slots), now),
        x,
        x.len() as int,
        app,
        n,
    );
    let z = gated(y, m, before.checks_ok@, now);
    lemma_same_places_no_extras(y, z, app, n);
    let start = Fleet { instances: z, ports: before.slot_ports@, groups: seq![] };
    let names = before.selected.listed();
    lemma_roll_no_extras(start, m, slots, names, names.len() as int, now, app, n);
    let d = rolled(start, m, slots, names, names.len() as int, now);
    lemma_app_of(m, a);
    law_live_processes_within_budget(
        d.instances,
        m,
        before.selected@,
        before.checks_ok@,
        d.ports,
        plan.slots@,
        now,
        a,
    );
    let end = after.instances@;
    assert(end.take(end.len() as int) =~= end);
    lemma_keeping_makes_no_extras(
        retiring(end, surplus(end, plan.slots@), now),
        end,
        end.len() as int,
        app,
        n,
    );
}

} // verus!
