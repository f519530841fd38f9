//! What one tick does as a whole, stated over what the instances were before it and are after it.

use crate::fleet::{kept, lemma_kept_contains, marked_groups, reaping, retiring, Exit, Instance};
use crate::manifest::Manifest;
use crate::order::{is_stable_order, lemma_ascending_distinct};
use crate::places::{
    came_for, has_place, is_fresh, is_leftover, is_place_of, lacks, law_leftovers_are_retired,
    law_leftovers_go_from_the_top, law_places_are_filled_with_new_instances,
    law_places_are_those_of_the_replicas, law_roll_reaches_every_app, lemma_out_of_date,
    old_and_idle, out_of_date, places_differ,
};
use crate::promises::{
    are_groups_of, asked_to_stop, comes_from, is_met, law_failed_check_stops_dependents,
    law_killed_is_what_outlived_its_grace, law_no_exit_no_change,
    law_start_waits_for_every_dependency, lemma_stems_from, must_stop, outlived_grace, picked,
    waits_for_failed_check,
};
use crate::reconcile::Reconciler;
use crate::roll::{
    first_where, lemma_first_where, retire_at, rolled, rolled_app, stale_ready, stale_unready,
    Fleet,
};
use crate::scale::{blocked, highest_first, ordered_groups, unwanted};
use crate::slots::{are_desired, Slot};
use crate::state::Phase;
use crate::tick::{gated, harvested, scaled, ticks, TickPlan};
use vstd::prelude::*;

verus! {

proof fn lemma_retire_back(f: Fleet, k: int, now: u64, x: Instance)
    requires
        0 <= k < f.instances.len(),
        retire_at(f, k, now).instances.contains(x),
        x.phase != Phase::Terminating,
    ensures
        f.instances.contains(x),
{
    let after = retire_at(f, k, now).instances;
    let i = choose|i: int| 0 <= i < after.len() && after[i] == x;
    if f.instances[k].running() || i < k {
        assert(f.instances[i] == x);
    } else {
        assert(f.instances[i + 1] == x);
    }
}

proof fn lemma_retire_forward(f: Fleet, k: int, now: u64, x: Instance)
    requires
        0 <= k < f.instances.len(),
        f.instances.contains(x),
        x.handle is Some,
    ensures
        ({
            let g = retire_at(f, k, now);
            g.instances.contains(x) || (f.instances[k] == x && g.instances.contains(
                asked_to_stop(x, false, now),
            ) && g.groups.contains(x.handle->0.pgid))
        }),
{
    let g = retire_at(f, k, now);
    let i = choose|i: int| 0 <= i < f.instances.len() && f.instances[i] == x;
    if f.instances[k].running() {
        if i == k {
            assert(g.instances[k] == asked_to_stop(x, false, now));
            assert(g.groups[f.groups.len() as int] == x.handle->0.pgid);
        } else {
            assert(g.instances[i] == x);
        }
    } else if i < k {
        assert(g.instances[i] == x);
    } else {
        assert(g.instances[i - 1] == x);
    }
}

/// Whether a step of rolling is that of a fleet that stays, but for its ports, or of one in which
/// one instance was retired that is out of date and not stopping.
spec fn rolls_one(f: Fleet, g: Fleet, slots: Seq<Slot>, now: u64, k: int) -> bool {
    ||| g.instances == f.instances && g.groups == f.groups
    ||| 0 <= k < f.instances.len() && g == retire_at(f, k, now) && out_of_date(
        slots,
        f.instances[k],
    ) && f.instances[k].phase != Phase::Terminating
}

proof fn lemma_rolls_one(f: Fleet, m: Manifest, slots: Seq<Slot>, app: Seq<char>, now: u64) -> (k:
    int)
    requires
        places_differ(slots),
    ensures
        rolls_one(f, rolled_app(f, m, slots, app, now), slots, now, k),
{
    lemma_first_where(f.instances, stale_unready(slots, app), 0);
    lemma_first_where(f.instances, stale_ready(slots, app), 0);
    match first_where(f.instances, stale_unready(slots, app), 0) {
        Some(k) => {
            lemma_out_of_date(slots, f.instances[k]);
            k
        },
        None => match first_where(f.instances, stale_ready(slots, app), 0) {
            Some(k) => {
                lemma_out_of_date(slots, f.instances[k]);
                k
            },
            None => 0,
        },
    }
}

proof fn lemma_rolled_back(
    f: Fleet,
    m: Manifest,
    slots: Seq<Slot>,
    apps: Seq<Seq<char>>,
    n: int,
    now: u64,
    x: Instance,
)
    requires
        places_differ(slots),
        rolled(f, m, slots, apps, n, now).instances.contains(x),
        x.phase != Phase::Terminating,
    ensures
        f.instances.contains(x),
    decreases n,
{
    if n > 0 {
        let g = rolled(f, m, slots, apps, n - 1, now);
        let h = rolled_app(g, m, slots, apps[n - 1], now);
        let k = lemma_rolls_one(g, m, slots, apps[n - 1], now);
        if h.instances != g.instances {
            lemma_retire_back(g, k, now, x);
        }
        lemma_rolled_back(f, m, slots, apps, n - 1, now, x);
    }
}

/// Every instance of a rolled fleet was there before, as it is or before it was asked to stop.
proof fn lemma_rolled_places(
    f: Fleet,
    m: Manifest,
    slots: Seq<Slot>,
    apps: Seq<Seq<char>>,
    n: int,
    now: u64,
    x: Instance,
)
    requires
        places_differ(slots),
        rolled(f, m, slots, apps, n, now).instances.contains(x),
    ensures
        f.instances.contains(x) || (x.handle is Some && x.phase == Phase::Terminating),
    decreases n,
{
    if n > 0 {
        let g = rolled(f, m, slots, apps, n - 1, now);
        let h = rolled_app(g, m, slots, apps[n - 1], now);
        let k = lemma_rolls_one(g, m, slots, apps[n - 1], now);
        if h.instances != g.instances {
            let i = choose|i: int| 0 <= i < h.instances.len() && h.instances[i] == x;
            if g.instances[k].running() {
                if i != k {
                    assert(g.instances[i] == x);
                    lemma_rolled_places(f, m, slots, apps, n - 1, now, x);
                }
            } else {
                if i < k {
                    assert(g.instances[i] == x);
                } else {
                    assert(g.instances[i + 1] == x);
                }
                lemma_rolled_places(f, m, slots, apps, n - 1, now, x);
            }
        } else {
            lemma_rolled_places(f, m, slots, apps, n - 1, now, x);
        }
    }
}

proof fn lemma_rolled_forward(
    f: Fleet,
    m: Manifest,
    slots: Seq<Slot>,
    apps: Seq<Seq<char>>,
    n: int,
    now: u64,
    x: Instance,
)
    requires
        places_differ(slots),
        f.instances.contains(x),
        x.handle is Some,
    ensures
        ({
            let g = rolled(f, m, slots, apps, n, now);
            g.instances.contains(x) || (x.phase != Phase::Terminating && out_of_date(slots, x)
                && g.instances.contains(asked_to_stop(x, false, now)) && g.groups.contains(
                x.handle->0.pgid,
            ))
        }),
        forall|y: i32|
            f.groups.contains(y) ==> #[trigger] rolled(f, m, slots, apps, n, now).groups.contains(
                y,
            ),
    decreases n,
{
    if n > 0 {
        lemma_rolled_forward(f, m, slots, apps, n - 1, now, x);
        let g = rolled(f, m, slots, apps, n - 1, now);
        let h = rolled_app(g, m, slots, apps[n - 1], now);
        let k = lemma_rolls_one(g, m, slots, apps[n - 1], now);
        if !(h.instances == g.instances && h.groups == g.groups) {
            if g.instances.contains(x) {
                lemma_retire_forward(g, k, now, x);
            } else {
                lemma_retire_forward(g, k, now, asked_to_stop(x, false, now));
            }
            assert forall|y: i32| g.groups.contains(y) implies #[trigger] h.groups.contains(y) by {
                let i = choose|i: int| 0 <= i < g.groups.len() && g.groups[i] == y;
                assert(h.groups[i] == y);
            }
        }
    }
}

proof fn lemma_rolled_groups(
    f: Fleet,
    m: Manifest,
    slots: Seq<Slot>,
    apps: Seq<Seq<char>>,
    n: int,
    now: u64,
    y: i32,
)
    requires
        places_differ(slots),
        rolled(f, m, slots, apps, n, now).groups.contains(y),
    ensures
        f.groups.contains(y) || exists|x: Instance| #[trigger]
            f.instances.contains(x) && x.phase != Phase::Terminating && x.handle is Some
                && x.handle->0.pgid == y && out_of_date(slots, x),
    decreases n,
{
    if n > 0 {
        let g = rolled(f, m, slots, apps, n - 1, now);
        let h = rolled_app(g, m, slots, apps[n - 1], now);
        let k = lemma_rolls_one(g, m, slots, apps[n - 1], now);
        if g.groups.contains(y) {
            lemma_rolled_groups(f, m, slots, apps, n - 1, now, y);
        } else {
            let i = choose|i: int| 0 <= i < h.groups.len() && h.groups[i] == y;
            if i < g.groups.len() {
                assert(g.groups[i] == y);
            }
            let x = g.instances[k];
            assert(g.instances.contains(x));
            lemma_rolled_back(f, m, slots, apps, n - 1, now, x);
        }
    }
}

proof fn lemma_kept_back(f: spec_fn(int) -> Option<Instance>, n: int, x: Instance) -> (i: int)
    requires
        0 <= n,
        kept(f, n).contains(x),
    ensures
        0 <= i < n,
        f(i) == Some(x),
{
    lemma_stems_from(f, n);
    let src = picked(|i: int| f(i) is Some, n);
    let k = choose|k: int| 0 <= k < kept(f, n).len() && kept(f, n)[k] == x;
    assert(f(src[k]) == Some(kept(f, n)[k]));
    src[k]
}

/// The list between the steps of a tick: without what has exited, then without what has no place,
/// then with what waits for a failed check stopped, and then rolled.
spec fn after_exits(before: Reconciler, exits: Seq<Exit>, now: u64) -> Seq<Instance> {
    harvested(before.instances@, exits, before.manifest, now)
}

spec fn after_scaling(before: Reconciler, exits: Seq<Exit>, slots: Seq<Slot>, now: u64) -> Seq<
    Instance,
> {
    scaled(after_exits(before, exits, now), slots, now)
}

spec fn after_gating(before: Reconciler, exits: Seq<Exit>, slots: Seq<Slot>, now: u64) -> Seq<
    Instance,
> {
    gated(after_scaling(before, exits, slots, now), before.manifest, before.checks_ok@, now)
}

spec fn after_rolling(before: Reconciler, exits: Seq<Exit>, slots: Seq<Slot>, now: u64) -> Fleet {
    rolled(
        Fleet {
            instances: after_gating(before, exits, slots, now),
            ports: before.slot_ports@,
            groups: seq![],
        },
        before.manifest,
        slots,
        before.selected.listed(),
        before.selected.listed().len() as int,
        now,
    )
}

proof fn lemma_gated_back(
    insts: Seq<Instance>,
    slots: Seq<Slot>,
    m: Manifest,
    checks: Map<Seq<char>, bool>,
    now: u64,
    x: Instance,
)
    requires
        m.names_distinct(),
        gated(scaled(insts, slots, now), m, checks, now).contains(x),
        x.handle is Some,
        x.phase != Phase::Terminating,
    ensures
        insts.contains(x),
        has_place(slots, x.app@, x.replica),
        !waits_for_failed_check(m, checks, x.app@),
{
    let b = scaled(insts, slots, now);
    let c = gated(b, m, checks, now);
    law_failed_check_stops_dependents(b, m, checks, now);
    let k = choose|k: int| 0 <= k < c.len() && c[k] == x;
    assert(b[k] == x);
    assert(b.contains(x));
    let f = retiring(insts, unwanted(insts, slots), now);
    let i = lemma_kept_back(f, insts.len() as int, x);
    let s = law_leftovers_are_retired(insts, slots, now);
    assert(insts[i] == x);
}

/// What stands at the end of a tick, as far as it is not new: one that runs and is not stopping
/// has been as it is all along.
proof fn lemma_tick_back(
    before: Reconciler,
    exits: Seq<Exit>,
    now: u64,
    slots: Seq<Slot>,
    order: Seq<usize>,
    after: Reconciler,
    plan: TickPlan,
    x: Instance,
)
    requires
        before.manifest.valid(),
        exits.len() == before.instances@.len(),
        ticks(before, exits, now, slots, order, after, plan),
        after.instances@.contains(x),
        x.handle is Some,
        x.phase != Phase::Terminating,
    ensures
        before.instances@.contains(x),
        has_place(slots, x.app@, x.replica),
        !waits_for_failed_check(before.manifest, before.checks_ok@, x.app@),
        exists|i: int|
            0 <= i < before.instances@.len() && #[trigger] before.instances@[i] == x && exits[i]
                != Exit::Exited,
{
    let m = before.manifest;
    law_places_are_those_of_the_replicas(slots, m, before.selected@, before.slot_ports@);
    let a = after_exits(before, exits, now);
    let c = after_gating(before, exits, slots, now);
    let d = after_rolling(before, exits, slots, now);
    law_places_are_filled_with_new_instances(d.instances, m, d.ports, plan.slots@, now);
    let j = choose|j: int| 0 <= j < after.instances@.len() && after.instances@[j] == x;
    if j >= d.instances.len() {
        assert(came_for(after.instances@[j], d.instances, m, plan.slots@, now));
    }
    assert(d.instances[j] == x);
    assert(d.instances.contains(x));
    lemma_rolled_back(
        Fleet { instances: c, ports: before.slot_ports@, groups: seq![] },
        m,
        slots,
        before.selected.listed(),
        before.selected.listed().len() as int,
        now,
        x,
    );
    lemma_gated_back(a, slots, m, before.checks_ok@, now, x);
    let g = reaping(before.instances@, exits, now, m.defaults);
    let l = lemma_kept_back(g, exits.len() as int, x);
    assert(before.instances@[l] == x && exits[l] != Exit::Exited);
}

/// After a tick no instance that runs on, ready or not, belongs to an app that waits for a check
/// that does not answer.
pub proof fn law_tick_stops_what_a_check_holds(
    before: Reconciler,
    exits: Seq<Exit>,
    now: u64,
    slots: Seq<Slot>,
    order: Seq<usize>,
    after: Reconciler,
    plan: TickPlan,
    j: int,
)
    requires
        before.manifest.valid(),
        exits.len() == before.instances@.len(),
        ticks(before, exits, now, slots, order, after, plan),
        0 <= j < after.instances@.len(),
        after.instances@[j].handle is Some,
        after.instances@[j].phase != Phase::Terminating,
    ensures
        !waits_for_failed_check(before.manifest, before.checks_ok@, after.instances@[j].app@),
{
    assert(after.instances@.contains(after.instances@[j]));
    lemma_tick_back(before, exits, now, slots, order, after, plan, after.instances@[j]);
}

proof fn lemma_scaled_places(insts: Seq<Instance>, slots: Seq<Slot>, now: u64, x: Instance)
    requires
        scaled(insts, slots, now).contains(x),
    ensures
        has_place(slots, x.app@, x.replica) || (x.handle is Some && x.phase == Phase::Terminating),
{
    let f = retiring(insts, unwanted(insts, slots), now);
    let i = lemma_kept_back(f, insts.len() as int, x);
    let s = law_leftovers_are_retired(insts, slots, now);
}

proof fn lemma_gated_places(
    insts: Seq<Instance>,
    slots: Seq<Slot>,
    m: Manifest,
    checks: Map<Seq<char>, bool>,
    now: u64,
    x: Instance,
)
    requires
        m.names_distinct(),
        gated(scaled(insts, slots, now), m, checks, now).contains(x),
    ensures
        has_place(slots, x.app@, x.replica) || (x.handle is Some && x.phase == Phase::Terminating),
{
    let b = scaled(insts, slots, now);
    let c = gated(b, m, checks, now);
    law_failed_check_stops_dependents(b, m, checks, now);
    let k = choose|k: int| 0 <= k < c.len() && c[k] == x;
    if !must_stop(b, m, checks)(k) {
        assert(b[k] == x);
        lemma_scaled_places(insts, slots, now, x);
    }
}

proof fn lemma_place_is_replica(
    slots: Seq<Slot>,
    m: Manifest,
    selected: Set<Seq<char>>,
    ports: Map<(Seq<char>, u32), u16>,
    x: Instance,
)
    requires
        m.valid(),
        are_desired(slots, m, selected, ports),
        has_place(slots, x.app@, x.replica),
    ensures
        is_replica(m, selected, x),
{
    law_places_are_those_of_the_replicas(slots, m, selected, ports);
    let l = choose|l: int|
        0 <= l < slots.len() && (#[trigger] slots[l]).app@ == x.app@ && slots[l].replica
            == x.replica;
    assert(is_place_of(slots[l], m, selected, ports));
}

proof fn lemma_tick_member(
    before: Reconciler,
    exits: Seq<Exit>,
    now: u64,
    slots: Seq<Slot>,
    order: Seq<usize>,
    after: Reconciler,
    plan: TickPlan,
    j: int,
)
    requires
        before.manifest.valid(),
        ticks(before, exits, now, slots, order, after, plan),
        0 <= j < after.instances@.len(),
    ensures
        is_replica(before.manifest, before.selected@, after.instances@[j]) || (
        after.instances@[j].handle is Some && after.instances@[j].phase == Phase::Terminating),
{
    let m = before.manifest;
    let d = after_rolling(before, exits, slots, now);
    let x = after.instances@[j];
    law_places_are_filled_with_new_instances(d.instances, m, d.ports, plan.slots@, now);
    if j >= d.instances.len() {
        assert(came_for(x, d.instances, m, plan.slots@, now));
        let k = choose|k: int|
            0 <= k < plan.slots@.len() && is_fresh(x, #[trigger] plan.slots@[k], now) && lacks(
                d.instances,
                m,
                plan.slots@[k],
            );
        assert(has_place(plan.slots@, x.app@, x.replica));
        lemma_place_is_replica(plan.slots@, m, before.selected@, d.ports, x);
    } else {
        let c = after_gating(before, exits, slots, now);
        assert(d.instances[j] == x);
        assert(d.instances.contains(x));
        law_places_are_those_of_the_replicas(slots, m, before.selected@, before.slot_ports@);
        lemma_rolled_places(
            Fleet { instances: c, ports: before.slot_ports@, groups: seq![] },
            m,
            slots,
            before.selected.listed(),
            before.selected.listed().len() as int,
            now,
            x,
        );
        if c.contains(x) {
            lemma_gated_places(
                after_exits(before, exits, now),
                slots,
                m,
                before.checks_ok@,
                now,
                x,
            );
            if has_place(slots, x.app@, x.replica) {
                lemma_place_is_replica(slots, m, before.selected@, before.slot_ports@, x);
            }
        }
    }
}

/// After a tick every replica of every selected app has an instance, and an instance of anything
/// else is on its way out, with its process.
pub proof fn law_tick_leaves_what_is_wanted(
    before: Reconciler,
    exits: Seq<Exit>,
    now: u64,
    slots: Seq<Slot>,
    order: Seq<usize>,
    after: Reconciler,
    plan: TickPlan,
)
    requires
        before.manifest.valid(),
        exits.len() == before.instances@.len(),
        ticks(before, exits, now, slots, order, after, plan),
    ensures
        forall|a: int, r: u32|
            0 <= a < before.manifest.apps@.len() && before.selected@.contains(
                before.manifest.apps@[a].name@,
            ) && r < before.manifest.apps@[a].replicas ==> #[trigger] has_instance(
                after.instances@,
                before.manifest.apps@[a].name@,
                r,
            ),
        forall|j: int|
            0 <= j < after.instances@.len() ==> is_replica(
                before.manifest,
                before.selected@,
                #[trigger] after.instances@[j],
            ) || (after.instances@[j].handle is Some && after.instances@[j].phase
                == Phase::Terminating),
{
    let m = before.manifest;
    let d = after_rolling(before, exits, slots, now);
    let end = after.instances@;
    assert forall|x: int, r: u32|
        0 <= x < m.apps@.len() && before.selected@.contains(m.apps@[x].name@) && r
            < m.apps@[x].replicas implies #[trigger] has_instance(end, m.apps@[x].name@, r) by {
        law_places_are_those_of_the_replicas(plan.slots@, m, before.selected@, d.ports);
        law_places_are_filled_with_new_instances(d.instances, m, d.ports, plan.slots@, now);
        assert(has_place(plan.slots@, m.apps@[x].name@, r));
        let k = choose|k: int|
            0 <= k < plan.slots@.len() && (#[trigger] plan.slots@[k]).app@ == m.apps@[x].name@
                && plan.slots@[k].replica == r;
        let j = choose|j: int|
            0 <= j < end.len() && (#[trigger] end[j]).app@ == plan.slots@[k].app@ && end[j].replica
                == plan.slots@[k].replica;
        assert(end[j].app@ == m.apps@[x].name@);
    }
    assert forall|j: int| 0 <= j < end.len() implies is_replica(
        m,
        before.selected@,
        #[trigger] end[j],
    ) || (end[j].handle is Some && end[j].phase == Phase::Terminating) by {
        lemma_tick_member(before, exits, now, slots, order, after, plan, j);
    }
}

/// Whether a replica of an app has an instance.
pub open spec fn has_instance(insts: Seq<Instance>, app: Seq<char>, replica: u32) -> bool {
    exists|i: int|
        0 <= i < insts.len() && (#[trigger] insts[i]).app@ == app && insts[i].replica == replica
}

/// Whether an instance is that of a replica of a selected app.
pub open spec fn is_replica(m: Manifest, selected: Set<Seq<char>>, inst: Instance) -> bool {
    exists|a: int|
        0 <= a < m.apps@.len() && (#[trigger] m.apps@[a]).name@ == inst.app@ && selected.contains(
            inst.app@,
        ) && inst.replica < m.apps@[a].replicas
}

/// What runs is either left as it is by a tick, or asked to stop, and then its group is told so.
/// It is left as it is where it is stopping already, and where it is in a place, up to date, and
/// its app waits for no check that fails.
pub proof fn law_tick_stops_or_leaves_alone(
    before: Reconciler,
    exits: Seq<Exit>,
    now: u64,
    slots: Seq<Slot>,
    order: Seq<usize>,
    after: Reconciler,
    plan: TickPlan,
    i: int,
)
    requires
        before.manifest.valid(),
        exits.len() == before.instances@.len(),
        before.instances@.len() <= usize::MAX,
        ticks(before, exits, now, slots, order, after, plan),
        0 <= i < before.instances@.len(),
        before.instances@[i].handle is Some,
        exits[i] != Exit::Exited,
        !outlived_grace(before.instances@, exits, now)(i),
    ensures
        ({
            let x = before.instances@[i];
            let stays = x.phase == Phase::Terminating || (has_place(slots, x.app@, x.replica)
                && !out_of_date(slots, x) && !waits_for_failed_check(
                before.manifest,
                before.checks_ok@,
                x.app@,
            ));
            &&& stays ==> after.instances@.contains(x)
            &&& after.instances@.contains(x) || ((after.instances@.contains(
                asked_to_stop(x, true, now),
            ) || after.instances@.contains(asked_to_stop(x, false, now)))
                && plan.terminate@.contains(x.handle->0.pgid))
        }),
{
    let m = before.manifest;
    let x = before.instances@[i];
    let pgid = x.handle->0.pgid;
    let a = after_exits(before, exits, now);
    let b = after_scaling(before, exits, slots, now);
    let c = after_gating(before, exits, slots, now);
    let d = after_rolling(before, exits, slots, now);
    let start = Fleet { instances: c, ports: before.slot_ports@, groups: seq![] };
    let names = before.selected.listed();
    let nn = names.len() as int;
    law_places_are_those_of_the_replicas(slots, m, before.selected@, before.slot_ports@);
    law_places_are_filled_with_new_instances(d.instances, m, d.ports, plan.slots@, now);
    let f = reaping(before.instances@, exits, now, m.defaults);
    law_no_exit_no_change(before.instances@, exits, now, m.defaults, i);
    assert(f(i) == Some(x));
    lemma_kept_contains(f, exits.len() as int, i);
    let ja = choose|j: int| 0 <= j < a.len() && a[j] == x;
    lemma_kept_len(f, exits.len() as int);
    let z = lemma_gated_forward(a, slots, order, m, before.checks_ok@, now, ja);
    lemma_rolled_forward(start, m, slots, names, nn, now, z);
    let first = ordered_groups(a, unwanted(a, slots), order, order.len() as int);
    let second = marked_groups(b, blocked(b, m, before.checks_ok@), b.len() as int);
    lemma_prefix_members(d.instances, after.instances@);
    lemma_concat_members(first, second, d.groups);
}

/// What runs is left as it is or asked to stop when what has no place and what a check holds is
/// stopped.
proof fn lemma_gated_forward(
    insts: Seq<Instance>,
    slots: Seq<Slot>,
    order: Seq<usize>,
    m: Manifest,
    checks: Map<Seq<char>, bool>,
    now: u64,
    i: int,
) -> (z: Instance)
    requires
        m.names_distinct(),
        insts.len() <= usize::MAX,
        is_stable_order(highest_first(insts), insts.len() as int, order),
        0 <= i < insts.len(),
        insts[i].handle is Some,
    ensures
        gated(scaled(insts, slots, now), m, checks, now).contains(z),
        ({
            let x = insts[i];
            let b = scaled(insts, slots, now);
            let stays = x.phase == Phase::Terminating || (has_place(slots, x.app@, x.replica)
                && !waits_for_failed_check(m, checks, x.app@));
            if stays {
                z == x
            } else {
                (z == asked_to_stop(x, true, now) || z == asked_to_stop(x, false, now)) && (
                ordered_groups(insts, unwanted(insts, slots), order, order.len() as int).contains(
                    x.handle->0.pgid,
                ) || marked_groups(b, blocked(b, m, checks), b.len() as int).contains(
                    x.handle->0.pgid,
                ))
            }
        }),
{
    let x = insts[i];
    let pgid = x.handle->0.pgid;
    let b = scaled(insts, slots, now);
    let c = gated(b, m, checks, now);
    let g = retiring(insts, unwanted(insts, slots), now);
    let s = law_leftovers_are_retired(insts, slots, now);
    assert(g(i) is Some);
    lemma_kept_contains(g, insts.len() as int, i);
    let y = g(i)->0;
    let jb = choose|j: int| 0 <= j < b.len() && b[j] == y;
    law_failed_check_stops_dependents(b, m, checks, now);
    let z = c[jb];
    let p = must_stop(b, m, checks);
    if is_leftover(insts, slots)(i) {
        assert(y == asked_to_stop(x, false, now));
        let first = ordered_groups(insts, unwanted(insts, slots), order, order.len() as int);
        let src = law_leftovers_go_from_the_top(insts, slots, order);
        assert(src.contains(i));
        let k = choose|k: int| 0 <= k < src.len() && src[k] == i;
        assert(first[k] == pgid);
        assert(!p(jb));
    } else if p(jb) {
        let second = marked_groups(b, blocked(b, m, checks), b.len() as int);
        let src = choose|src: Seq<int>| #[trigger] comes_from(second, b, p, src);
        assert(src.contains(jb));
        let k = choose|k: int| 0 <= k < src.len() && src[k] == jb;
        assert(second[k] == pgid);
    }
    z
}

proof fn lemma_kept_len(f: spec_fn(int) -> Option<Instance>, n: int)
    requires
        0 <= n,
    ensures
        kept(f, n).len() <= n,
    decreases n,
{
    if n > 0 {
        lemma_kept_len(f, n - 1);
    }
}

proof fn lemma_prefix_members(a: Seq<Instance>, b: Seq<Instance>)
    requires
        a.is_prefix_of(b),
    ensures
        forall|x: Instance| #[trigger] a.contains(x) ==> b.contains(x),
{
    assert forall|x: Instance| #[trigger] a.contains(x) implies b.contains(x) by {
        let i = choose|i: int| 0 <= i < a.len() && a[i] == x;
        assert(b[i] == x);
    }
}

proof fn lemma_concat_members(a: Seq<i32>, b: Seq<i32>, c: Seq<i32>)
    ensures
        forall|x: i32| #[trigger]
            (a + b + c).contains(x) <==> a.contains(x) || b.contains(x) || c.contains(x),
{
    let all = a + b + c;
    assert forall|x: i32| #[trigger] all.contains(x) <==> a.contains(x) || b.contains(x)
        || c.contains(x) by {
        if all.contains(x) {
            let i = choose|i: int| 0 <= i < all.len() && all[i] == x;
            if i < a.len() {
                assert(a[i] == x);
            } else if i < a.len() + b.len() {
                assert(b[i - a.len()] == x);
            } else {
                assert(c[i - a.len() - b.len()] == x);
            }
        }
        if a.contains(x) {
            let i = choose|i: int| 0 <= i < a.len() && a[i] == x;
            assert(all[i] == x);
        }
        if b.contains(x) {
            let i = choose|i: int| 0 <= i < b.len() && b[i] == x;
            assert(all[a.len() + i] == x);
        }
        if c.contains(x) {
            let i = choose|i: int| 0 <= i < c.len() && c[i] == x;
            assert(all[a.len() + b.len() + i] == x);
        }
    }
}

/// Killed in a tick is exactly what outlived its grace, and started exactly what may be started
/// once the tick has done the rest: no process, not stopping, its delay over, and every name that
/// its app depends on met.
pub proof fn law_tick_kills_and_starts(
    before: Reconciler,
    exits: Seq<Exit>,
    now: u64,
    slots: Seq<Slot>,
    order: Seq<usize>,
    after: Reconciler,
    plan: TickPlan,
    i: usize,
    a: int,
)
    requires
        before.manifest.valid(),
        exits.len() == before.instances@.len(),
        ticks(before, exits, now, slots, order, after, plan),
        after.instances@.len() <= usize::MAX,
        i < after.instances@.len(),
        0 <= a < before.manifest.apps@.len(),
        before.manifest.apps@[a].name@ == after.instances@[i as int].app@,
    ensures
        are_groups_of(plan.kill@, before.instances@, outlived_grace(before.instances@, exits, now)),
        plan.start@.contains(i) <==> {
            let x = after.instances@[i as int];
            &&& x.handle is None
            &&& x.phase != Phase::Terminating
            &&& x.backoff_until is None || x.backoff_until->0 <= now
            &&& forall|d: int|
                0 <= d < before.manifest.apps@[a].depends_on@.len() ==> is_met(
                    after.instances@,
                    before.manifest,
                    before.checks_ok@,
                    (#[trigger] before.manifest.apps@[a].depends_on@[d])@,
                )
        },
{
    law_killed_is_what_outlived_its_grace(before.instances@, exits, now);
    law_start_waits_for_every_dependency(
        after.instances@,
        before.manifest,
        before.checks_ok@,
        now,
        i,
        a,
    );
}

/// Whether an instance is one that a tick has a reason to stop: it runs, is not stopping, and is
/// in no place, or waits for a check that fails, or is out of date.
pub open spec fn has_reason_to_stop(
    inst: Instance,
    m: Manifest,
    checks: Map<Seq<char>, bool>,
    slots: Seq<Slot>,
) -> bool {
    &&& inst.handle is Some
    &&& inst.phase != Phase::Terminating
    &&& !has_place(slots, inst.app@, inst.replica) || waits_for_failed_check(m, checks, inst.app@)
        || out_of_date(slots, inst)
}

proof fn lemma_gated_groups(
    insts: Seq<Instance>,
    slots: Seq<Slot>,
    order: Seq<usize>,
    m: Manifest,
    checks: Map<Seq<char>, bool>,
    now: u64,
    g: i32,
) -> (x: Instance)
    requires
        m.names_distinct(),
        insts.len() <= usize::MAX,
        is_stable_order(highest_first(insts), insts.len() as int, order),
        ({
            let b = scaled(insts, slots, now);
            ordered_groups(insts, unwanted(insts, slots), order, order.len() as int).contains(g)
                || marked_groups(b, blocked(b, m, checks), b.len() as int).contains(g)
        }),
    ensures
        insts.contains(x),
        has_reason_to_stop(x, m, checks, slots),
        x.handle->0.pgid == g,
{
    let b = scaled(insts, slots, now);
    let first = ordered_groups(insts, unwanted(insts, slots), order, order.len() as int);
    let second = marked_groups(b, blocked(b, m, checks), b.len() as int);
    if first.contains(g) {
        let src = law_leftovers_go_from_the_top(insts, slots, order);
        let k = choose|k: int| 0 <= k < first.len() && first[k] == g;
        assert(is_leftover(insts, slots)(src[k]));
        insts[src[k]]
    } else {
        law_failed_check_stops_dependents(b, m, checks, now);
        let p = must_stop(b, m, checks);
        let src = choose|src: Seq<int>| #[trigger] comes_from(second, b, p, src);
        let k = choose|k: int| 0 <= k < second.len() && second[k] == g;
        assert(p(src[k]));
        let x = b[src[k]];
        assert(b.contains(x));
        let f = retiring(insts, unwanted(insts, slots), now);
        let i = lemma_kept_back(f, insts.len() as int, x);
        let s = law_leftovers_are_retired(insts, slots, now);
        assert(insts[i] == x);
        x
    }
}

/// A tick asks nothing to terminate without a reason: each group that it asks is that of an
/// instance that runs, has not exited, is not stopping, and is in no place, waits for a check that
/// fails, or is out of date.
pub proof fn law_tick_signals_with_reason(
    before: Reconciler,
    exits: Seq<Exit>,
    now: u64,
    slots: Seq<Slot>,
    order: Seq<usize>,
    after: Reconciler,
    plan: TickPlan,
    g: i32,
) -> (i: int)
    requires
        before.manifest.valid(),
        exits.len() == before.instances@.len(),
        before.instances@.len() <= usize::MAX,
        ticks(before, exits, now, slots, order, after, plan),
        plan.terminate@.contains(g),
    ensures
        0 <= i < before.instances@.len(),
        before.instances@[i].handle is Some && before.instances@[i].handle->0.pgid == g,
        exits[i] != Exit::Exited,
        has_reason_to_stop(
            before.instances@[i],
            before.manifest,
            before.checks_ok@,
            slots,
        ),
{
    let m = before.manifest;
    let a = after_exits(before, exits, now);
    let b = after_scaling(before, exits, slots, now);
    let c = after_gating(before, exits, slots, now);
    let d = after_rolling(before, exits, slots, now);
    let first = ordered_groups(a, unwanted(a, slots), order, order.len() as int);
    let second = marked_groups(b, blocked(b, m, before.checks_ok@), b.len() as int);
    lemma_concat_members(first, second, d.groups);
    let f = reaping(before.instances@, exits, now, m.defaults);
    lemma_kept_len(f, exits.len() as int);
    let x = if first.contains(g) || second.contains(g) {
        lemma_gated_groups(a, slots, order, m, before.checks_ok@, now, g)
    } else {
        law_places_are_those_of_the_replicas(slots, m, before.selected@, before.slot_ports@);
        let start = Fleet { instances: c, ports: before.slot_ports@, groups: seq![] };
        lemma_rolled_groups(
            start,
            m,
            slots,
            before.selected.listed(),
            before.selected.listed().len() as int,
            now,
            g,
        );
        let x = choose|x: Instance| #[trigger]
            start.instances.contains(x) && x.phase != Phase::Terminating && x.handle is Some
                && x.handle->0.pgid == g && out_of_date(slots, x);
        lemma_gated_back(a, slots, m, before.checks_ok@, now, x);
        x
    };
    let l = lemma_kept_back(f, exits.len() as int, x);
    l
}

/// A roll goes on at every tick: a selected app with an instance that is out of date and not
/// ready has one such instance asked to stop for good, as long as its instances run and no check
/// holds it.
pub proof fn law_tick_rolls_on(
    before: Reconciler,
    exits: Seq<Exit>,
    now: u64,
    slots: Seq<Slot>,
    order: Seq<usize>,
    after: Reconciler,
    plan: TickPlan,
    app: Seq<char>,
    i: int,
) -> (j: int)
    requires
        before.manifest.valid(),
        before.selected.wf(),
        exits.len() == before.instances@.len(),
        before.instances@.len() <= usize::MAX,
        ticks(before, exits, now, slots, order, after, plan),
        before.selected@.contains(app),
        !waits_for_failed_check(before.manifest, before.checks_ok@, app),
        forall|k: int|
            0 <= k < exits.len() && (#[trigger] before.instances@[k]).app@ == app
                ==> before.instances@[k].handle is Some && exits[k] != Exit::Exited,
        0 <= i < before.instances@.len(),
        old_and_idle(slots, app)(before.instances@[i]),
    ensures
        0 <= j < before.instances@.len(),
        old_and_idle(slots, app)(before.instances@[j]),
        after.instances@.contains(asked_to_stop(before.instances@[j], false, now)),
        plan.terminate@.contains(before.instances@[j].handle->0.pgid),
{
    let m = before.manifest;
    let x = before.instances@[i];
    let names = before.selected.listed();
    let a = after_exits(before, exits, now);
    let b = after_scaling(before, exits, slots, now);
    let c = after_gating(before, exits, slots, now);
    let d = after_rolling(before, exits, slots, now);
    let start = Fleet { instances: c, ports: before.slot_ports@, groups: seq![] };
    law_places_are_those_of_the_replicas(slots, m, before.selected@, before.slot_ports@);
    assert(has_place(slots, x.app@, x.replica));
    let at = lemma_comes_to_the_roll(before, exits, slots, order, now, i);
    // Its app is rolled in its turn, and all its instances have processes.
    assert(names.contains(app));
    let q = choose|q: int| 0 <= q < names.len() && names[q] == app;
    assert forall|y: int, w: int| 0 <= y < names.len() && 0 <= w < names.len() && y
        != w implies names[y] != names[w] by {
        if names[y] == names[w] {
            lemma_ascending_distinct(names, y, w);
        }
    }
    assert forall|k: int| 0 <= k < c.len() && (#[trigger] c[k]).app@ == app implies c[k].handle
        is Some by {
        lemma_gated_handles(before, exits, slots, now, k);
    }
    law_roll_reaches_every_app(start, m, slots, names, now, q, at);
    let k = choose|k: int|
        0 <= k < c.len() && old_and_idle(slots, app)(#[trigger] c[k]) && d.instances.contains(
            asked_to_stop(c[k], false, now),
        ) && d.groups.contains(c[k].handle->0.pgid);
    let y = c[k];
    assert(c.contains(y));
    let l = lemma_came_to_the_roll(before, exits, slots, now, y);
    law_places_are_filled_with_new_instances(d.instances, m, d.ports, plan.slots@, now);
    lemma_prefix_members(d.instances, after.instances@);
    lemma_concat_members(
        ordered_groups(a, unwanted(a, slots), order, order.len() as int),
        marked_groups(b, blocked(b, m, before.checks_ok@), b.len() as int),
        d.groups,
    );
    l
}

proof fn lemma_comes_to_the_roll(
    before: Reconciler,
    exits: Seq<Exit>,
    slots: Seq<Slot>,
    order: Seq<usize>,
    now: u64,
    i: int,
) -> (at: int)
    requires
        before.manifest.names_distinct(),
        exits.len() == before.instances@.len(),
        before.instances@.len() <= usize::MAX,
        is_stable_order(
            highest_first(after_exits(before, exits, now)),
            after_exits(before, exits, now).len() as int,
            order,
        ),
        0 <= i < before.instances@.len(),
        before.instances@[i].handle is Some,
        before.instances@[i].phase != Phase::Terminating,
        exits[i] != Exit::Exited,
        has_place(slots, before.instances@[i].app@, before.instances@[i].replica),
        !waits_for_failed_check(
            before.manifest,
            before.checks_ok@,
            before.instances@[i].app@,
        ),
    ensures
        0 <= at < after_gating(before, exits, slots, now).len(),
        after_gating(before, exits, slots, now)[at] == before.instances@[i],
{
    let m = before.manifest;
    let insts = before.instances@;
    let a = after_exits(before, exits, now);
    let c = after_gating(before, exits, slots, now);
    let f = reaping(insts, exits, now, m.defaults);
    law_no_exit_no_change(insts, exits, now, m.defaults, i);
    assert(f(i) == Some(insts[i]));
    lemma_kept_contains(f, exits.len() as int, i);
    lemma_kept_len(f, exits.len() as int);
    let ja = choose|j: int| 0 <= j < a.len() && a[j] == insts[i];
    let z = lemma_gated_forward(a, slots, order, m, before.checks_ok@, now, ja);
    choose|at: int| 0 <= at < c.len() && c[at] == insts[i]
}

proof fn lemma_came_to_the_roll(
    before: Reconciler,
    exits: Seq<Exit>,
    slots: Seq<Slot>,
    now: u64,
    x: Instance,
) -> (l: int)
    requires
        before.manifest.names_distinct(),
        exits.len() == before.instances@.len(),
        after_gating(before, exits, slots, now).contains(x),
        x.handle is Some,
        x.phase != Phase::Terminating,
    ensures
        0 <= l < before.instances@.len(),
        before.instances@[l] == x,
        exits[l] != Exit::Exited,
{
    let m = before.manifest;
    let a = after_exits(before, exits, now);
    lemma_gated_back(a, slots, m, before.checks_ok@, now, x);
    lemma_kept_back(
        reaping(before.instances@, exits, now, m.defaults),
        exits.len() as int,
        x,
    )
}

proof fn lemma_gated_handles(
    before: Reconciler,
    exits: Seq<Exit>,
    slots: Seq<Slot>,
    now: u64,
    k: int,
)
    requires
        before.manifest.names_distinct(),
        exits.len() == before.instances@.len(),
        0 <= k < after_gating(before, exits, slots, now).len(),
        forall|i: int|
            0 <= i < exits.len() && (#[trigger] before.instances@[i]).app@ == after_gating(
                before,
                exits,
                slots,
                now,
            )[k].app@ ==> before.instances@[i].handle is Some && exits[i] != Exit::Exited,
    ensures
        after_gating(before, exits, slots, now)[k].handle is Some,
{
    let m = before.manifest;
    let a = after_exits(before, exits, now);
    let b = after_scaling(before, exits, slots, now);
    law_failed_check_stops_dependents(b, m, before.checks_ok@, now);
    let x = b[k];
    assert(b.contains(x));
    let g = retiring(a, unwanted(a, slots), now);
    let i = lemma_kept_back(g, a.len() as int, x);
    assert(a.contains(a[i]));
    let f = reaping(before.instances@, exits, now, m.defaults);
    let l = lemma_kept_back(f, exits.len() as int, a[i]);
    assert(before.instances@[l].app@ == a[i].app@);
}

} // verus!
