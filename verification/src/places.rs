//! What happens to the places that a manifest asks for, stated over their fields and those of the
//! instances alone: which places there are, who fills them, and who has to go from them.

use crate::fingerprint::fingerprint;
use crate::fleet::{
    backed_off, backoff, count, kept, lemma_count_push, lemma_count_remove, lemma_count_update,
    marked_groups, of_app, ready_of, retiring, Handle, Instance,
};
use crate::manifest::{App, Defaults, Manifest};
use crate::order::{is_stable_order, key_before, text_lt};
use crate::promises::{
    are_groups_of, asked_to_stop, lemma_app_is, lemma_groups_from, lemma_marked_groups,
    lemma_stems_from, ms_after, picked, stems_from,
};
use crate::roll::{
    first_where, has_current, lemma_first_where, ports_in_use, replicas_of, retire_at, rolled,
    rolled_app, stale, stale_ready, stale_unready, surplus, to_retire, without_surplus, Fleet,
};
use crate::scale::{highest_first, ordered_groups, unwanted};
use crate::slots::{
    are_desired, claimed, first_free, is_desired, is_given, law_surge_port_is_free, lemma_slot_at,
    lemma_slots_distinct, slot_at, slot_before, slot_of, surge_port, wanted, Slot,
};
use crate::spawn::{filled, is_filled, newcomer, peopled, port_taken, started, surged, wants_surge};
use crate::state::Phase;
use vstd::prelude::*;

verus! {

// The places and their ports.

/// The places that a manifest asks for are those of the replicas of the selected apps, each once:
/// with the port that was given to it, or the one that its number gives it in the app's window,
/// and the fingerprint of what would be started there.
pub proof fn law_places_are_those_of_the_replicas(
    slots: Seq<Slot>,
    m: Manifest,
    selected: Set<Seq<char>>,
    ports: Map<(Seq<char>, u32), u16>,
)
    requires
        m.valid(),
        are_desired(slots, m, selected, ports),
    ensures
        places_differ(slots),
        forall|j: int, k: int|
            0 <= j < k < slots.len() ==> text_lt(
                (#[trigger] slots[j]).app@,
                (#[trigger] slots[k]).app@,
            ) || (slots[j].app@ == slots[k].app@ && slots[j].replica < slots[k].replica),
        forall|k: int|
            0 <= k < slots.len() ==> is_place_of(#[trigger] slots[k], m, selected, ports),
        forall|a: int, r: u32|
            0 <= a < m.apps@.len() && selected.contains(m.apps@[a].name@) && r
                < m.apps@[a].replicas ==> #[trigger] has_place(slots, m.apps@[a].name@, r),
{
    assert forall|j: int, k: int| 0 <= j < k < slots.len() implies text_lt(
        (#[trigger] slots[j]).app@,
        (#[trigger] slots[k]).app@,
    ) || (slots[j].app@ == slots[k].app@ && slots[j].replica < slots[k].replica) by {
        assert(slot_before(slots[j], slots[k]));
    }
    assert forall|j: int, k: int| 0 <= j < k < slots.len() implies !((#[trigger] slots[j]).app@ == (
    #[trigger] slots[k]).app@ && slots[j].replica == slots[k].replica) by {
        if slots[j].app@ == slots[k].app@ && slots[j].replica == slots[k].replica {
            lemma_slots_distinct(slots, m, selected, ports, j, k);
        }
    }
    assert forall|k: int| 0 <= k < slots.len() implies is_place_of(
        #[trigger] slots[k],
        m,
        selected,
        ports,
    ) by {
        assert(is_desired(slots[k], m, selected, ports));
        let a = choose|a: int| #[trigger]
            wanted(m, selected, a, slots[k].replica) && slots[k] == slot_of(
                m,
                a,
                slots[k].replica,
                ports,
            );
        assert(m.apps@[a].port_end() <= 0x1_0000);
        assert(m.apps@[a].name@ == slots[k].app@);
    }
    assert forall|a: int, r: u32|
        0 <= a < m.apps@.len() && selected.contains(m.apps@[a].name@) && r
            < m.apps@[a].replicas implies #[trigger] has_place(slots, m.apps@[a].name@, r) by {
        assert(wanted(m, selected, a, r));
        let s = slot_of(m, a, r, ports);
        assert(slots.contains(s));
        let k = choose|k: int| 0 <= k < slots.len() && slots[k] == s;
        assert(slots[k].app@ == m.apps@[a].name@ && slots[k].replica == r);
    }
}

/// Whether a place is that of a replica of a selected app.
pub open spec fn is_place_of(
    slot: Slot,
    m: Manifest,
    selected: Set<Seq<char>>,
    ports: Map<(Seq<char>, u32), u16>,
) -> bool {
    exists|a: int|
        0 <= a < m.apps@.len() && (#[trigger] m.apps@[a]).name@ == slot.app@ && selected.contains(
            slot.app@,
        ) && slot.replica < m.apps@[a].replicas && slot.port == (if ports.dom().contains(
            (slot.app@, slot.replica),
        ) {
            ports[(slot.app@, slot.replica)] as int
        } else {
            m.apps@[a].port + slot.replica
        }) && slot.hash == fingerprint(m, m.apps@[a], slot.replica as nat, slot.port)
}

/// Whether a port is in no app's window, has been given to no place and is no instance's.
pub open spec fn is_free_port(
    insts: Seq<Instance>,
    m: Manifest,
    ports: Map<(Seq<char>, u32), u16>,
    p: int,
) -> bool {
    &&& forall|b: int|
        0 <= b < m.apps@.len() ==> !((#[trigger] m.apps@[b]).port <= p < m.apps@[b].port
            + m.apps@[b].replicas)
    &&& forall|i: int| 0 <= i < insts.len() ==> (#[trigger] insts[i]).port != p
    &&& forall|k: (Seq<char>, u32)| #[trigger] ports.dom().contains(k) ==> ports[k] != p
}

proof fn lemma_is_free_port(
    insts: Seq<Instance>,
    m: Manifest,
    ports: Map<(Seq<char>, u32), u16>,
    p: int,
)
    requires
        0 <= p <= 65535,
    ensures
        is_free_port(insts, m, ports, p) <==> !claimed(m, p) && !ports_in_use(
            insts,
            ports,
        ).contains(p as u16),
{
    let used = ports_in_use(insts, ports);
    if is_free_port(insts, m, ports, p) {
        if claimed(m, p) {
            let b = choose|b: int| 0 <= b < m.apps@.len() && (#[trigger] m.apps@[b]).claims(p);
            assert(m.apps@[b].port <= p);
        }
        assert(!is_given(ports, p as u16));
        assert(!used.contains(p as u16));
    }
    if !claimed(m, p) && !used.contains(p as u16) {
        assert forall|b: int| 0 <= b < m.apps@.len() implies !((#[trigger] m.apps@[b]).port <= p
            < m.apps@[b].port + m.apps@[b].replicas) by {
            assert(!m.apps@[b].claims(p));
        }
        assert forall|i: int| 0 <= i < insts.len() implies (#[trigger] insts[i]).port != p by {
            if insts[i].port == p {
                assert(insts[i].port == p as u16);
            }
        }
        assert forall|k: (Seq<char>, u32)| #[trigger] ports.dom().contains(k) implies ports[k]
            != p by {
            if ports[k] == p {
                assert(is_given(ports, p as u16));
            }
        }
    }
}

proof fn lemma_none_free(m: Manifest, used: Set<u16>, from: int)
    requires
        0 <= from,
        forall|p: int| from <= p <= 65535 ==> #[trigger] claimed(m, p) || used.contains(p as u16),
    ensures
        first_free(m, used, from) is None,
    decreases 65536 - from,
{
    if from <= 65535 {
        assert(claimed(m, from) || used.contains(from as u16));
        lemma_none_free(m, used, from + 1);
    }
}

/// The port for an extra instance is the first one behind its app's window that is in no app's
/// window, was given to no place and is no instance's, whatever the phase of that instance. If
/// there is none, it is the one behind the window, counted round the end of the port range.
pub proof fn law_extra_port_is_first_free(
    insts: Seq<Instance>,
    m: Manifest,
    ports: Map<(Seq<char>, u32), u16>,
    app: App,
    p: int,
)
    requires
        app.port + app.replicas <= p <= 65535,
    ensures
        ({
            let q = surge_port(m, app, ports_in_use(insts, ports)) as int;
            &&& is_free_port(insts, m, ports, p) ==> is_free_port(insts, m, ports, q) && app.port
                + app.replicas <= q <= p
            &&& (forall|x: int|
                app.port + app.replicas <= x <= 65535 ==> !#[trigger] is_free_port(
                    insts,
                    m,
                    ports,
                    x,
                )) ==> q == (app.port + app.replicas) % 65536
        }),
{
    let used = ports_in_use(insts, ports);
    let q = surge_port(m, app, used) as int;
    lemma_is_free_port(insts, m, ports, p);
    lemma_is_free_port(insts, m, ports, q);
    if is_free_port(insts, m, ports, p) {
        law_surge_port_is_free(m, app, used, p);
    }
    if forall|x: int|
        app.port + app.replicas <= x <= 65535 ==> !#[trigger] is_free_port(insts, m, ports, x) {
        assert forall|x: int| app.port_end() <= x <= 65535 implies #[trigger] claimed(m, x)
            || used.contains(x as u16) by {
            lemma_is_free_port(insts, m, ports, x);
            assert(!is_free_port(insts, m, ports, x));
        }
        lemma_none_free(m, used, app.port_end());
    }
}

// Filling the places.

/// Whether an instance is new in a place, waiting for its first start.
pub open spec fn is_fresh(inst: Instance, slot: Slot, now: u64) -> bool {
    &&& inst.app@ == slot.app@
    &&& inst.replica == slot.replica
    &&& inst.port == slot.port
    &&& inst.spec_hash == slot.hash
    &&& inst.handle is None
    &&& inst.phase == Phase::Pending
    &&& inst.restarts == 0
    &&& inst.started_at is None
    &&& inst.backoff_until is None
    &&& inst.ready_deadline is None
    &&& inst.kill_deadline is None
    &&& !inst.restart_after_stop
    &&& inst.consecutive_live_fail == 0
    &&& inst.next_ready_probe == now
    &&& inst.next_live_probe == now
    &&& !inst.ever_ready
}

/// Whether an instance is new in a place that had none up to date; none at all, where no extra
/// instances are allowed.
pub open spec fn came_for(
    inst: Instance,
    insts: Seq<Instance>,
    m: Manifest,
    slots: Seq<Slot>,
    now: u64,
) -> bool {
    exists|k: int|
        0 <= k < slots.len() && is_fresh(inst, #[trigger] slots[k], now) && lacks(
            insts,
            m,
            slots[k],
        )
}

/// Whether a place has no instance up to date; none at all, where no extra instances are allowed.
pub open spec fn lacks(insts: Seq<Instance>, m: Manifest, slot: Slot) -> bool {
    forall|i: int|
        0 <= i < insts.len() && (#[trigger] insts[i]).app@ == slot.app@ && insts[i].replica
            == slot.replica ==> insts[i].spec_hash != slot.hash && m.defaults.max_surge > 0
}

proof fn lemma_filled_with(
    insts: Seq<Instance>,
    m: Manifest,
    slots: Seq<Slot>,
    n: int,
    now: u64,
)
    requires
        0 <= n <= slots.len(),
    ensures
        insts.is_prefix_of(filled(insts, slots, n, now)),
        forall|j: int|
            insts.len() <= j < filled(insts, slots, n, now).len() ==> came_for(
                #[trigger] filled(insts, slots, n, now)[j],
                insts,
                m,
                slots,
                now,
            ),
        forall|k: int|
            0 <= k < n ==> is_filled(
                filled(insts, slots, n, now),
                (#[trigger] slots[k]).app@,
                slots[k].replica,
            ),
    decreases n,
{
    if n > 0 {
        lemma_filled_with(insts, m, slots, n - 1, now);
        let before = filled(insts, slots, n - 1, now);
        let after = filled(insts, slots, n, now);
        let slot = slots[n - 1];
        if !is_filled(before, slot.app@, slot.replica) {
            assert forall|i: int|
                0 <= i < insts.len() && (#[trigger] insts[i]).app@ == slot.app@ && insts[i].replica
                    == slot.replica implies insts[i].spec_hash != slot.hash
                && m.defaults.max_surge > 0 by {
                assert(before[i] == insts[i]);
                assert(before[i].fills(slot.app@, slot.replica));
            }
            assert(is_fresh(after[before.len() as int], slots[n - 1], now));
            assert(after[before.len() as int].fills(slot.app@, slot.replica));
        }
        assert forall|k: int| 0 <= k < n implies is_filled(
            after,
            (#[trigger] slots[k]).app@,
            slots[k].replica,
        ) by {
            if k < n - 1 {
                assert(is_filled(before, slots[k].app@, slots[k].replica));
                let i = choose|i: int|
                    0 <= i < before.len() && (#[trigger] before[i]).fills(
                        slots[k].app@,
                        slots[k].replica,
                    );
                assert(after[i] == before[i]);
            }
        }
    }
}

proof fn lemma_surged_with(
    insts: Seq<Instance>,
    base: Seq<Instance>,
    m: Manifest,
    ports: Map<(Seq<char>, u32), u16>,
    slots: Seq<Slot>,
    n: int,
    now: u64,
)
    requires
        0 <= n <= slots.len(),
        insts.is_prefix_of(base),
        forall|j: int|
            insts.len() <= j < base.len() ==> came_for(#[trigger] base[j], insts, m, slots, now),
    ensures
        base.is_prefix_of(surged(base, m, ports, slots, n, now)),
        forall|j: int|
            insts.len() <= j < surged(base, m, ports, slots, n, now).len() ==> came_for(
                #[trigger] surged(base, m, ports, slots, n, now)[j],
                insts,
                m,
                slots,
                now,
            ),
    decreases n,
{
    if n > 0 {
        lemma_surged_with(insts, base, m, ports, slots, n - 1, now);
        let before = surged(base, m, ports, slots, n - 1, now);
        let after = surged(base, m, ports, slots, n, now);
        let slot = slots[n - 1];
        if wants_surge(before, m, ports, slot) {
            assert forall|i: int|
                0 <= i < insts.len() && (#[trigger] insts[i]).app@ == slot.app@ && insts[i].replica
                    == slot.replica implies insts[i].spec_hash != slot.hash
                && m.defaults.max_surge > 0 by {
                assert(base[i] == insts[i]);
                assert(before[i] == base[i]);
                assert(before[i].fills(slot.app@, slot.replica));
            }
            assert(is_fresh(after[before.len() as int], slots[n - 1], now));
        }
        assert forall|j: int| insts.len() <= j < after.len() implies came_for(
            #[trigger] after[j],
            insts,
            m,
            slots,
            now,
        ) by {
            if j < before.len() {
                assert(after[j] == before[j]);
            }
        }
    }
}

/// Filling the places touches no instance that is there. What is added is new, in a place that
/// had no instance up to date (no instance at all, where no extra ones are allowed), and in the
/// end every place has an instance.
pub proof fn law_places_are_filled_with_new_instances(
    insts: Seq<Instance>,
    m: Manifest,
    ports: Map<(Seq<char>, u32), u16>,
    slots: Seq<Slot>,
    now: u64,
)
    ensures
        ({
            let after = peopled(insts, m, ports, slots, now);
            &&& insts.is_prefix_of(after)
            &&& forall|j: int|
                insts.len() <= j < after.len() ==> came_for(
                    #[trigger] after[j],
                    insts,
                    m,
                    slots,
                    now,
                )
            &&& forall|k: int|
                0 <= k < slots.len() ==> exists|j: int|
                    0 <= j < after.len() && (#[trigger] after[j]).app@ == (
                    #[trigger] slots[k]).app@ && after[j].replica == slots[k].replica
        }),
{
    let n = slots.len() as int;
    lemma_filled_with(insts, m, slots, n, now);
    let base = filled(insts, slots, n, now);
    lemma_surged_with(insts, base, m, ports, slots, n, now);
    let after = peopled(insts, m, ports, slots, now);
    assert forall|k: int| 0 <= k < slots.len() implies exists|j: int|
        0 <= j < after.len() && (#[trigger] after[j]).app@ == (#[trigger] slots[k]).app@
            && after[j].replica == slots[k].replica by {
        assert(is_filled(base, slots[k].app@, slots[k].replica));
        let i = choose|i: int|
            0 <= i < base.len() && (#[trigger] base[i]).fills(slots[k].app@, slots[k].replica);
        assert(after[i] == base[i]);
    }
}

proof fn lemma_surged_grows(
    base: Seq<Instance>,
    m: Manifest,
    ports: Map<(Seq<char>, u32), u16>,
    slots: Seq<Slot>,
    k: int,
    n: int,
    now: u64,
    p: spec_fn(Instance) -> bool,
)
    requires
        0 <= k <= n <= slots.len(),
    ensures
        surged(base, m, ports, slots, k, now).is_prefix_of(
            surged(base, m, ports, slots, n, now),
        ),
        count(surged(base, m, ports, slots, k, now), p) <= count(
            surged(base, m, ports, slots, n, now),
            p,
        ),
    decreases n - k,
{
    if k < n {
        lemma_surged_grows(base, m, ports, slots, k, n - 1, now, p);
        lemma_count_push(
            surged(base, m, ports, slots, n - 1, now),
            newcomer(slots[n - 1], now),
            p,
        );
    }
}

/// Where extra instances are allowed, the replacement of an instance that is out of date is added
/// beside it: when the places are filled, a place has an instance up to date, unless its app has
/// all the instances that it may, or the place's port is one that an instance in it still has.
pub proof fn law_replacement_is_added_beside(
    insts: Seq<Instance>,
    m: Manifest,
    ports: Map<(Seq<char>, u32), u16>,
    slots: Seq<Slot>,
    now: u64,
    k: int,
    a: int,
)
    requires
        m.names_distinct(),
        m.defaults.max_surge > 0,
        places_differ(slots),
        0 <= k < slots.len(),
        0 <= a < m.apps@.len(),
        m.apps@[a].name@ == slots[k].app@,
        forall|i: int|
            0 <= i < insts.len() && (#[trigger] insts[i]).app@ == slots[k].app@ && insts[i].replica
                == slots[k].replica ==> insts[i].port != slots[k].port,
        count(
            peopled(insts, m, ports, slots, now),
            |x: Instance| x.app@ == slots[k].app@,
        ) < m.apps@[a].replicas + m.defaults.max_surge,
    ensures
        exists|j: int|
            0 <= j < peopled(insts, m, ports, slots, now).len() && (#[trigger] peopled(
                insts,
                m,
                ports,
                slots,
                now,
            )[j]).app@ == slots[k].app@ && peopled(insts, m, ports, slots, now)[j].replica
                == slots[k].replica && peopled(insts, m, ports, slots, now)[j].spec_hash
                == slots[k].hash,
{
    let n = slots.len() as int;
    let slot = slots[k];
    let after = peopled(insts, m, ports, slots, now);
    lemma_app_is(m, slot.app@, a);
    law_places_are_filled_with_new_instances(insts, m, ports, slots, now);
    let base = filled(insts, slots, n, now);
    let before = surged(base, m, ports, slots, k, now);
    lemma_surged_grows(base, m, ports, slots, k, n, now, of_app(slot.app@));
    lemma_surged_grows(base, m, ports, slots, k + 1, n, now, of_app(slot.app@));
    lemma_count_same(after, |x: Instance| x.app@ == slots[k].app@, of_app(slot.app@));
    if !has_current(after, slot.app@, slot.replica, slot.hash) {
        assert forall|i: int| 0 <= i < before.len() implies !((#[trigger] before[i]).fills(
            slot.app@,
            slot.replica,
        ) && (before[i].spec_hash == slot.hash || before[i].port == slot.port)) by {
            assert(after[i] == before[i]);
            if before[i].fills(slot.app@, slot.replica) {
                assert(after[i].fills(slot.app@, slot.replica));
                if i < insts.len() {
                    assert(after[i] == insts[i]);
                } else {
                    assert(came_for(after[i], insts, m, slots, now));
                    let l = choose|l: int|
                        0 <= l < slots.len() && is_fresh(after[i], #[trigger] slots[l], now)
                            && lacks(insts, m, slots[l]);
                    if l < k {
                        assert(slots[l].app@ == slots[k].app@);
                    } else if k < l {
                        assert(slots[k].app@ == slots[l].app@);
                    }
                }
            }
        }
        assert(!has_current(before, slot.app@, slot.replica, slot.hash));
        assert(!port_taken(before, slot));
        assert(wants_surge(before, m, ports, slot));
        let next = surged(base, m, ports, slots, k + 1, now);
        assert(next[before.len() as int] == newcomer(slot, now));
        assert(after[before.len() as int] == newcomer(slot, now));
        assert(after[before.len() as int].fills(slot.app@, slot.replica));
    }
    let j = choose|j: int|
        0 <= j < after.len() && (#[trigger] after[j]).fills(slot.app@, slot.replica)
            && after[j].spec_hash == slot.hash;
    assert(after[j].app@ == slot.app@);
}

/// A started instance has its process and the fingerprint of what was started. It is ready at once
/// where its app is not probed for that, and otherwise has its app's time to become so; its first
/// readiness probe is due at once, its first liveness probe after a period. The count of its
/// restarts, its place and its port stay.
pub proof fn law_started_instance(inst: Instance, m: Manifest, app: App, h: Handle, now: u64)
    ensures
        ({
            let r = started(inst, m, app, h, now);
            &&& r.handle == Some(h)
            &&& app.ready_path@.len() == 0 ==> r.phase == Phase::Ready && r.ever_ready
            &&& app.ready_path@.len() > 0 ==> r.phase == Phase::Starting && !r.ever_ready
            &&& r.started_at == Some(now)
            &&& r.backoff_until is None
            &&& r.consecutive_live_fail == 0
            &&& r.ready_deadline is Some
            &&& r.ready_deadline->0 == ms_after(now, app.ready_timeout * 1_000)
            &&& r.next_ready_probe == now
            &&& r.next_live_probe == ms_after(now, app.live_period * 1_000)
            &&& r.spec_hash == fingerprint(m, app, inst.replica as nat, inst.port)
            &&& r.app == inst.app
            &&& r.replica == inst.replica
            &&& r.port == inst.port
            &&& r.restarts == inst.restarts
            &&& r.kill_deadline == inst.kill_deadline
            &&& r.restart_after_stop == inst.restart_after_stop
        }),
{
}

/// An instance whose start failed waits out its delay, counting one restart more, and is otherwise
/// as it was.
pub proof fn law_failed_start_waits(inst: Instance, now: u64, d: Defaults)
    ensures
        ({
            let r = backed_off(inst, inst.restarts, now, d);
            &&& r.phase == Phase::CrashLoopBackOff
            &&& r.restarts == inst.restarts + 1 || inst.restarts == u32::MAX && r.restarts
                == u32::MAX
            &&& r.backoff_until is Some
            &&& r.backoff_until->0 == ms_after(
                now,
                backoff(d.restart_backoff_ms, d.restart_backoff_max_ms, r.restarts) as int,
            )
            &&& r == (Instance {
                phase: r.phase,
                restarts: r.restarts,
                backoff_until: r.backoff_until,
                ..inst
            })
        }),
{
}

// Scaling down.

/// Whether a place stands in a list.
pub open spec fn has_place(slots: Seq<Slot>, app: Seq<char>, replica: u32) -> bool {
    exists|k: int|
        0 <= k < slots.len() && (#[trigger] slots[k]).app@ == app && slots[k].replica == replica
}

proof fn lemma_has_place(slots: Seq<Slot>, app: Seq<char>, replica: u32)
    ensures
        slot_at(slots, app, replica, 0) is Some <==> has_place(slots, app, replica),
{
    lemma_slot_at(slots, app, replica, 0);
}

/// Having a process that is not stopping yet, in no place of a list.
pub open spec fn is_leftover(insts: Seq<Instance>, slots: Seq<Slot>) -> spec_fn(int) -> bool {
    |i: int|
        insts[i].handle is Some && insts[i].phase != Phase::Terminating && !has_place(
            slots,
            insts[i].app@,
            insts[i].replica,
        )
}

/// What becomes of the instances when those in no place are retired: one in a place, or one that
/// is stopping, stays as it is; one in no place is asked to stop for good where it has a process,
/// and dropped where it has none. The instances that remain keep their order.
pub proof fn law_leftovers_are_retired(insts: Seq<Instance>, slots: Seq<Slot>, now: u64) -> (src:
    Seq<int>)
    ensures
        ({
            let f = retiring(insts, unwanted(insts, slots), now);
            &&& stems_from(kept(f, insts.len() as int), f, insts.len() as int, src)
            &&& forall|i: int|
                0 <= i < insts.len() ==> #[trigger] f(i) == if has_place(
                    slots,
                    insts[i].app@,
                    insts[i].replica,
                ) || (insts[i].handle is Some && insts[i].phase == Phase::Terminating) {
                    Some(insts[i])
                } else if insts[i].handle is Some {
                    Some(asked_to_stop(insts[i], false, now))
                } else {
                    None
                }
        }),
{
    let f = retiring(insts, unwanted(insts, slots), now);
    let n = insts.len() as int;
    lemma_stems_from(f, n);
    assert forall|i: int| 0 <= i < insts.len() implies #[trigger] f(i) == if has_place(
        slots,
        insts[i].app@,
        insts[i].replica,
    ) || (insts[i].handle is Some && insts[i].phase == Phase::Terminating) {
        Some(insts[i])
    } else if insts[i].handle is Some {
        Some(asked_to_stop(insts[i], false, now))
    } else {
        None
    } by {
        lemma_has_place(slots, insts[i].app@, insts[i].replica);
    }
    picked(|i: int| f(i) is Some, n)
}

/// Whether `src` says where the process groups of a list come from, the highest replicas first:
/// each is that of an instance with the property, of two instances the one with the higher replica
/// comes first, or the one that stands first where the replicas are equal, and no such instance is
/// left out.
pub open spec fn comes_from_the_top(
    groups: Seq<i32>,
    insts: Seq<Instance>,
    p: spec_fn(int) -> bool,
    src: Seq<int>,
) -> bool {
    &&& src.len() == groups.len()
    &&& forall|k: int|
        0 <= k < src.len() ==> 0 <= #[trigger] src[k] < insts.len() && p(src[k]) && (
        insts[src[k]].handle matches Some(h) && groups[k] == h.pgid)
    &&& forall|k: int, l: int|
        0 <= k < l < src.len() ==> insts[#[trigger] src[k]].replica > insts[
            #[trigger] src[l]].replica || (insts[src[k]].replica == insts[src[l]].replica && src[k]
            < src[l])
    &&& forall|i: int| 0 <= i < insts.len() && #[trigger] p(i) ==> src.contains(i)
}

spec fn ordered_places(p: spec_fn(int) -> bool, order: Seq<usize>, n: int) -> Seq<int>
    decreases n,
{
    if n <= 0 {
        seq![]
    } else if p(order[n - 1] as int) {
        ordered_places(p, order, n - 1).push(order[n - 1] as int)
    } else {
        ordered_places(p, order, n - 1)
    }
}

proof fn lemma_ordered_places(
    insts: Seq<Instance>,
    marks: spec_fn(int) -> bool,
    p: spec_fn(int) -> bool,
    order: Seq<usize>,
    n: int,
)
    requires
        is_stable_order(highest_first(insts), insts.len() as int, order),
        0 <= n <= order.len(),
        forall|i: int|
            0 <= i < insts.len() ==> #[trigger] p(i) == (marks(i) && insts[i].handle is Some),
    ensures
        ({
            let src = ordered_places(p, order, n);
            let groups = ordered_groups(insts, marks, order, n);
            &&& src.len() == groups.len()
            &&& forall|k: int|
                0 <= k < src.len() ==> 0 <= #[trigger] src[k] < insts.len() && p(src[k]) && (
                insts[src[k]].handle matches Some(h) && groups[k] == h.pgid)
            &&& forall|k: int, l: int|
                0 <= k < l < src.len() ==> insts[#[trigger] src[k]].replica > insts[
                    #[trigger] src[l]].replica || (insts[src[k]].replica == insts[src[l]].replica
                    && src[k] < src[l])
            &&& forall|x: int|
                0 <= x < n && p(#[trigger] order[x] as int) ==> src.contains(order[x] as int)
            &&& forall|k: int|
                0 <= k < src.len() ==> exists|x: int|
                    0 <= x < n && #[trigger] order[x] == #[trigger] src[k]
        }),
    decreases n,
{
    if n > 0 {
        lemma_ordered_places(insts, marks, p, order, n - 1);
        let before = ordered_places(p, order, n - 1);
        let src = ordered_places(p, order, n);
        let i = order[n - 1] as int;
        assert(p(i) == (marks(i) && insts[i].handle is Some));
        assert forall|x: int| 0 <= x < n && p(#[trigger] order[x] as int) implies src.contains(
            order[x] as int,
        ) by {
            if x == n - 1 {
                assert(src[before.len() as int] == order[x]);
            } else {
                assert(before.contains(order[x] as int));
                let k = choose|k: int| 0 <= k < before.len() && before[k] == order[x];
                assert(src[k] == order[x]);
            }
        }
        assert forall|k: int| 0 <= k < src.len() implies exists|x: int|
            0 <= x < n && #[trigger] order[x] == #[trigger] src[k] by {
            if k < before.len() {
                assert(src[k] == before[k]);
                let x = choose|x: int| 0 <= x < n - 1 && #[trigger] order[x] == before[k];
                assert(order[x] == src[k]);
            } else {
                assert(order[n - 1] == src[k]);
            }
        }
        assert forall|k: int, l: int|
            0 <= k < l < src.len() implies insts[#[trigger] src[k]].replica
            > insts[#[trigger] src[l]].replica || (insts[src[k]].replica == insts[src[l]].replica
            && src[k] < src[l]) by {
            assert(src[k] == before[k]);
            if l < before.len() {
                assert(src[l] == before[l]);
            } else {
                let x = choose|x: int| 0 <= x < n - 1 && #[trigger] order[x] == before[k];
                assert(key_before(highest_first(insts), order[x], order[n - 1]));
            }
        }
    }
}

/// Asked to terminate is exactly what has a process, is not stopping yet and is in no place, from
/// the highest replica down.
pub proof fn law_leftovers_go_from_the_top(
    insts: Seq<Instance>,
    slots: Seq<Slot>,
    order: Seq<usize>,
) -> (src: Seq<int>)
    requires
        insts.len() <= usize::MAX,
        is_stable_order(highest_first(insts), insts.len() as int, order),
    ensures
        comes_from_the_top(
            ordered_groups(insts, unwanted(insts, slots), order, order.len() as int),
            insts,
            is_leftover(insts, slots),
            src,
        ),
{
    let p = is_leftover(insts, slots);
    let marks = unwanted(insts, slots);
    assert forall|i: int| 0 <= i < insts.len() implies #[trigger] p(i) == (marks(i)
        && insts[i].handle is Some) by {
        lemma_has_place(slots, insts[i].app@, insts[i].replica);
    }
    lemma_ordered_places(insts, marks, p, order, order.len() as int);
    let src = ordered_places(p, order, order.len() as int);
    assert forall|i: int| 0 <= i < insts.len() && #[trigger] p(i) implies src.contains(i) by {
        let u = i as usize;
        assert(order.contains(u));
        let x = choose|x: int| 0 <= x < order.len() && order[x] == u;
        assert(p(order[x] as int));
    }
    src
}

// Rolling.

/// Whether no place stands twice in a list.
pub open spec fn places_differ(slots: Seq<Slot>) -> bool {
    forall|j: int, k: int|
        0 <= j < k < slots.len() ==> !((#[trigger] slots[j]).app@ == (#[trigger] slots[k]).app@
            && slots[j].replica == slots[k].replica)
}

/// Whether an instance is in a place that asks for another fingerprint than it has.
pub open spec fn out_of_date(slots: Seq<Slot>, inst: Instance) -> bool {
    exists|k: int|
        0 <= k < slots.len() && (#[trigger] slots[k]).app@ == inst.app@ && slots[k].replica
            == inst.replica && slots[k].hash != inst.spec_hash
}

pub proof fn lemma_out_of_date(slots: Seq<Slot>, inst: Instance)
    requires
        places_differ(slots),
    ensures
        stale(slots, inst) <==> out_of_date(slots, inst),
{
    lemma_slot_at(slots, inst.app@, inst.replica, 0);
    if out_of_date(slots, inst) {
        let k = choose|k: int|
            0 <= k < slots.len() && (#[trigger] slots[k]).app@ == inst.app@ && slots[k].replica
                == inst.replica && slots[k].hash != inst.spec_hash;
        let j = slot_at(slots, inst.app@, inst.replica, 0)->0;
        if j < k {
            assert(slots[j].app@ == slots[k].app@);
        } else if k < j {
            assert(slots[k].app@ == slots[j].app@);
        }
    }
}

/// Being an instance of an app that is out of date and not ready yet, not ready any more, waiting
/// to be started, or waiting out a delay.
pub open spec fn old_and_idle(slots: Seq<Slot>, app: Seq<char>) -> spec_fn(Instance) -> bool {
    |i: Instance|
        i.app@ == app && (i.phase == Phase::Pending || i.phase == Phase::Starting || i.phase
            == Phase::Unready || i.phase == Phase::CrashLoopBackOff) && out_of_date(slots, i)
}

/// Being an instance of an app that is out of date and ready.
pub open spec fn old_and_ready(slots: Seq<Slot>, app: Seq<char>) -> spec_fn(Instance) -> bool {
    |i: Instance| i.app@ == app && i.phase == Phase::Ready && out_of_date(slots, i)
}

/// Whether a fleet is another in which instance `j` was retired: asked to terminate, for good,
/// where it has a process, and dropped where it has none. Nothing else is different.
pub open spec fn lost_one(f: Fleet, g: Fleet, j: int, now: u64) -> bool {
    &&& 0 <= j < f.instances.len()
    &&& g.ports == f.ports
    &&& match f.instances[j].handle {
        Some(h) => g.instances == f.instances.update(
            j,
            asked_to_stop(f.instances[j], false, now),
        ) && g.groups == f.groups.push(h.pgid),
        None => g.instances == f.instances.remove(j) && g.groups == f.groups,
    }
}

/// Whether no instance before a place has a property.
pub open spec fn none_before(insts: Seq<Instance>, p: spec_fn(Instance) -> bool, n: int) -> bool {
    forall|l: int| 0 <= l < n ==> !p(#[trigger] insts[l])
}

proof fn lemma_first_is_first(insts: Seq<Instance>, p: spec_fn(Instance) -> bool, from: int)
    requires
        0 <= from,
    ensures
        first_where(insts, p, from) matches Some(k) ==> forall|l: int|
            from <= l < k ==> !p(#[trigger] insts[l]),
    decreases insts.len() - from,
{
    if from < insts.len() && !p(insts[from]) {
        lemma_first_is_first(insts, p, from + 1);
    }
}

/// An app with an instance that is out of date and not ready loses the first such instance at the
/// next step of its roll, however many of the app are unavailable and whatever extra ones are
/// allowed.
pub proof fn law_idle_old_instance_is_retired_at_once(
    f: Fleet,
    m: Manifest,
    slots: Seq<Slot>,
    app: Seq<char>,
    now: u64,
    i: int,
)
    requires
        places_differ(slots),
        0 <= i < f.instances.len(),
        old_and_idle(slots, app)(f.instances[i]),
    ensures
        exists|j: int| #[trigger]
            lost_one(f, rolled_app(f, m, slots, app, now), j, now) && old_and_idle(slots, app)(
                f.instances[j],
            ) && none_before(f.instances, old_and_idle(slots, app), j),
{
    let p = stale_unready(slots, app);
    lemma_first_where(f.instances, p, 0);
    lemma_out_of_date(slots, f.instances[i]);
    assert(p(f.instances[i]));
    let k = first_where(f.instances, p, 0)->0;
    lemma_out_of_date(slots, f.instances[k]);
    lemma_first_is_first(f.instances, p, 0);
    assert forall|l: int| 0 <= l < k implies !old_and_idle(slots, app)(
        #[trigger] f.instances[l],
    ) by {
        lemma_out_of_date(slots, f.instances[l]);
        assert(!p(f.instances[l]));
    }
    assert(lost_one(f, rolled_app(f, m, slots, app, now), k, now));
}

/// Without extra instances, an app of which enough are ready and all that are not are up to date
/// loses the first ready instance that is out of date; it loses none while one is missing.
pub proof fn law_old_ready_instance_is_retired_in_turn(
    f: Fleet,
    m: Manifest,
    slots: Seq<Slot>,
    now: u64,
    a: int,
)
    requires
        m.names_distinct(),
        m.defaults.max_surge == 0,
        places_differ(slots),
        0 <= a < m.apps@.len(),
        forall|i: int|
            0 <= i < f.instances.len() ==> !old_and_idle(slots, m.apps@[a].name@)(
                #[trigger] f.instances[i],
            ),
    ensures
        ({
            let app = m.apps@[a].name@;
            let ready = count(f.instances, |i: Instance| i.app@ == app && i.phase == Phase::Ready);
            let g = rolled_app(f, m, slots, app, now);
            let any = exists|i: int|
                0 <= i < f.instances.len() && old_and_ready(slots, app)(#[trigger] f.instances[i]);
            if ready >= m.apps@[a].replicas && any {
                exists|j: int| #[trigger]
                    lost_one(f, g, j, now) && old_and_ready(slots, app)(f.instances[j])
                        && none_before(f.instances, old_and_ready(slots, app), j)
            } else {
                g == f
            }
        }),
{
    let app = m.apps@[a].name@;
    lemma_app_is(m, app, a);
    let p = stale_unready(slots, app);
    let q = stale_ready(slots, app);
    lemma_first_where(f.instances, p, 0);
    lemma_first_where(f.instances, q, 0);
    assert forall|i: int| 0 <= i < f.instances.len() implies !p(#[trigger] f.instances[i]) && q(
        f.instances[i],
    ) == old_and_ready(slots, app)(f.instances[i]) by {
        lemma_out_of_date(slots, f.instances[i]);
        assert(!old_and_idle(slots, app)(f.instances[i]));
    }
    lemma_count_same(
        f.instances,
        |i: Instance| i.app@ == app && i.phase == Phase::Ready,
        ready_of(app),
    );
    let g = rolled_app(f, m, slots, app, now);
    match first_where(f.instances, q, 0) {
        Some(k) => {
            assert(old_and_ready(slots, app)(f.instances[k]));
            lemma_first_is_first(f.instances, q, 0);
            if count(f.instances, ready_of(app)) >= m.apps@[a].replicas {
                // A ready instance without a process is dropped, any other asked to stop.
                assert(lost_one(f, g, k, now));
            }
        },
        None => {},
    }
}

proof fn lemma_count_same(
    insts: Seq<Instance>,
    p: spec_fn(Instance) -> bool,
    q: spec_fn(Instance) -> bool,
)
    requires
        forall|i: int| 0 <= i < insts.len() ==> p(#[trigger] insts[i]) == q(insts[i]),
    ensures
        count(insts, p) == count(insts, q),
    decreases insts.len(),
{
    if insts.len() > 0 {
        let head = insts.drop_last();
        assert forall|i: int| 0 <= i < head.len() implies p(#[trigger] head[i]) == q(head[i]) by {
            assert(head[i] == insts[i]);
        }
        lemma_count_same(head, p, q);
        assert(insts.last() == insts[insts.len() - 1]);
    }
}

/// Whether a place has an instance that is up to date, whatever its phase.
pub open spec fn has_successor(insts: Seq<Instance>, slots: Seq<Slot>, inst: Instance) -> bool {
    exists|k: int, j: int|
        0 <= k < slots.len() && 0 <= j < insts.len() && (#[trigger] slots[k]).app@ == inst.app@
            && slots[k].replica == inst.replica && (#[trigger] insts[j]).app@ == inst.app@
            && insts[j].replica == inst.replica && insts[j].spec_hash == slots[k].hash
}

/// Where extra instances are allowed and all of the app that are not ready are up to date, the
/// place of the first ready instance that is out of date is given a port for its replacement, the
/// first free one, unless the replacement is there or the app has all the instances that it may.
/// No instance is touched.
pub proof fn law_old_ready_instance_gets_a_port(
    f: Fleet,
    m: Manifest,
    slots: Seq<Slot>,
    now: u64,
    a: int,
    i: int,
)
    requires
        m.names_distinct(),
        m.defaults.max_surge > 0,
        places_differ(slots),
        0 <= a < m.apps@.len(),
        0 <= i < f.instances.len(),
        none_before(
            f.instances,
            old_and_idle(slots, m.apps@[a].name@),
            f.instances.len() as int,
        ),
        old_and_ready(slots, m.apps@[a].name@)(f.instances[i]),
        none_before(f.instances, old_and_ready(slots, m.apps@[a].name@), i),
    ensures
        rolled_app(f, m, slots, m.apps@[a].name@, now) == if has_successor(
            f.instances,
            slots,
            f.instances[i],
        ) || count(f.instances, |x: Instance| x.app@ == m.apps@[a].name@) >= m.apps@[a].replicas
            + m.defaults.max_surge {
            f
        } else {
            (Fleet {
                ports: f.ports.insert(
                    (m.apps@[a].name@, f.instances[i].replica),
                    surge_port(m, m.apps@[a], ports_in_use(f.instances, f.ports)),
                ),
                ..f
            })
        },
{
    let app = m.apps@[a].name@;
    lemma_app_is(m, app, a);
    let p = stale_unready(slots, app);
    let q = stale_ready(slots, app);
    lemma_first_where(f.instances, p, 0);
    lemma_first_where(f.instances, q, 0);
    assert forall|j: int| 0 <= j < f.instances.len() implies !p(#[trigger] f.instances[j]) && q(
        f.instances[j],
    ) == old_and_ready(slots, app)(f.instances[j]) by {
        lemma_out_of_date(slots, f.instances[j]);
        assert(!old_and_idle(slots, app)(f.instances[j]));
    }
    assert(q(f.instances[i]));
    let k = first_where(f.instances, q, 0)->0;
    lemma_first_is_first(f.instances, q, 0);
    if k < i {
        assert(!old_and_ready(slots, app)(f.instances[k]));
    } else if i < k {
        assert(!q(f.instances[i]));
    }
    lemma_has_successor(f.instances, slots, f.instances[i]);
    lemma_count_same(f.instances, |x: Instance| x.app@ == m.apps@[a].name@, of_app(app));
}

proof fn lemma_has_successor(insts: Seq<Instance>, slots: Seq<Slot>, inst: Instance)
    requires
        places_differ(slots),
        slot_at(slots, inst.app@, inst.replica, 0) is Some,
    ensures
        has_successor(insts, slots, inst) <==> has_current(
            insts,
            inst.app@,
            inst.replica,
            slots[slot_at(slots, inst.app@, inst.replica, 0)->0].hash,
        ),
{
    lemma_slot_at(slots, inst.app@, inst.replica, 0);
    let s = slot_at(slots, inst.app@, inst.replica, 0)->0;
    if has_successor(insts, slots, inst) {
        let (k, j) = choose|k: int, j: int|
            0 <= k < slots.len() && 0 <= j < insts.len() && (#[trigger] slots[k]).app@
                == inst.app@ && slots[k].replica == inst.replica && (#[trigger] insts[j]).app@
                == inst.app@ && insts[j].replica == inst.replica && insts[j].spec_hash
                == slots[k].hash;
        if s < k {
            assert(slots[s].app@ == slots[k].app@);
        } else if k < s {
            assert(slots[k].app@ == slots[s].app@);
        }
        assert(insts[j].fills(inst.app@, inst.replica));
    }
    if has_current(insts, inst.app@, inst.replica, slots[s].hash) {
        let j = choose|j: int|
            0 <= j < insts.len() && (#[trigger] insts[j]).fills(inst.app@, inst.replica)
                && insts[j].spec_hash == slots[s].hash;
        assert(slots[s].app@ == inst.app@ && insts[j].app@ == inst.app@);
    }
}

/// A step of rolling one app leaves the instances of another in place.
proof fn lemma_roll_leaves_others(
    f: Fleet,
    m: Manifest,
    slots: Seq<Slot>,
    app: Seq<char>,
    now: u64,
    x: Instance,
)
    requires
        x.app@ != app,
    ensures
        rolled_app(f, m, slots, app, now).instances.contains(x) <==> f.instances.contains(x),
        forall|g: i32|
            f.groups.contains(g) ==> #[trigger] rolled_app(
                f,
                m,
                slots,
                app,
                now,
            ).groups.contains(g),
{
    lemma_first_where(f.instances, stale_unready(slots, app), 0);
    lemma_first_where(f.instances, stale_ready(slots, app), 0);
    match first_where(f.instances, stale_unready(slots, app), 0) {
        Some(k) => lemma_retire_leaves_others(f, k, now, x),
        None => match first_where(f.instances, stale_ready(slots, app), 0) {
            Some(k) => lemma_retire_leaves_others(f, k, now, x),
            None => {},
        },
    }
}

proof fn lemma_retire_leaves_others(f: Fleet, k: int, now: u64, x: Instance)
    requires
        0 <= k < f.instances.len(),
        f.instances[k].app@ != x.app@,
    ensures
        retire_at(f, k, now).instances.contains(x) <==> f.instances.contains(x),
        forall|g: i32| f.groups.contains(g) ==> #[trigger] retire_at(f, k, now).groups.contains(g),
{
    let before = f.instances;
    let r = retire_at(f, k, now);
    let after = r.instances;
    if before.contains(x) {
        let i = choose|i: int| 0 <= i < before.len() && before[i] == x;
        if before[k].running() || i < k {
            assert(after[i] == x);
        } else {
            assert(after[i - 1] == x);
        }
    }
    if after.contains(x) {
        let i = choose|i: int| 0 <= i < after.len() && after[i] == x;
        if before[k].running() || i < k {
            assert(before[i] == x);
        } else {
            assert(before[i + 1] == x);
        }
    }
    assert forall|g: i32| f.groups.contains(g) implies #[trigger] r.groups.contains(g) by {
        let i = choose|i: int| 0 <= i < f.groups.len() && f.groups[i] == g;
        assert(r.groups[i] == g);
    }
}

proof fn lemma_rolls_leave_others(
    f: Fleet,
    m: Manifest,
    slots: Seq<Slot>,
    apps: Seq<Seq<char>>,
    from: int,
    n: int,
    now: u64,
    x: Instance,
)
    requires
        0 <= from <= n <= apps.len(),
        forall|k: int| from <= k < n ==> #[trigger] apps[k] != x.app@,
    ensures
        rolled(f, m, slots, apps, n, now).instances.contains(x) <==> rolled(
            f,
            m,
            slots,
            apps,
            from,
            now,
        ).instances.contains(x),
        forall|g: i32|
            rolled(f, m, slots, apps, from, now).groups.contains(g) ==> #[trigger] rolled(
                f,
                m,
                slots,
                apps,
                n,
                now,
            ).groups.contains(g),
    decreases n - from,
{
    if from < n {
        lemma_rolls_leave_others(f, m, slots, apps, from, n - 1, now, x);
        let g = rolled(f, m, slots, apps, n - 1, now);
        lemma_roll_leaves_others(g, m, slots, apps[n - 1], now, x);
    }
}

/// A roll reaches every selected app: one that has an instance out of date and not ready loses
/// such an instance of its own in the same round as every other app. Where all instances of the
/// app have processes, one of them is then terminating for good and its group is asked to.
pub proof fn law_roll_reaches_every_app(
    f: Fleet,
    m: Manifest,
    slots: Seq<Slot>,
    apps: Seq<Seq<char>>,
    now: u64,
    q: int,
    i: int,
)
    requires
        places_differ(slots),
        apps.no_duplicates(),
        0 <= q < apps.len(),
        0 <= i < f.instances.len(),
        old_and_idle(slots, apps[q])(f.instances[i]),
        forall|j: int|
            0 <= j < f.instances.len() && (#[trigger] f.instances[j]).app@ == apps[q]
                ==> f.instances[j].handle is Some,
    ensures
        exists|j: int|
            0 <= j < f.instances.len() && old_and_idle(slots, apps[q])(#[trigger] f.instances[j])
                && rolled(f, m, slots, apps, apps.len() as int, now).instances.contains(
                asked_to_stop(f.instances[j], false, now),
            ) && rolled(f, m, slots, apps, apps.len() as int, now).groups.contains(
                f.instances[j].handle->0.pgid,
            ),
{
    let app = apps[q];
    let n = apps.len() as int;
    let g = rolled(f, m, slots, apps, q, now);
    assert forall|k: int| 0 <= k < q implies #[trigger] apps[k] != app by {}
    assert forall|k: int| q + 1 <= k < n implies #[trigger] apps[k] != app by {}
    lemma_rolls_leave_others(f, m, slots, apps, 0, q, now, f.instances[i]);
    assert(f.instances.contains(f.instances[i]));
    let at = choose|at: int| 0 <= at < g.instances.len() && g.instances[at] == f.instances[i];
    law_idle_old_instance_is_retired_at_once(g, m, slots, app, now, at);
    let h = rolled_app(g, m, slots, app, now);
    let j = choose|j: int| #[trigger]
        lost_one(g, h, j, now) && old_and_idle(slots, app)(g.instances[j]);
    let x = g.instances[j];
    assert(g.instances.contains(x));
    lemma_rolls_leave_others(f, m, slots, apps, 0, q, now, x);
    let l = choose|l: int| 0 <= l < f.instances.len() && f.instances[l] == x;
    assert(f.instances[l].handle is Some);
    let y = asked_to_stop(x, false, now);
    assert(h.instances[j] == y);
    assert(h.groups[g.groups.len() as int] == x.handle->0.pgid);
    assert(h == rolled(f, m, slots, apps, q + 1, now));
    lemma_rolls_leave_others(f, m, slots, apps, q + 1, n, now, y);
    assert(old_and_idle(slots, apps[q])(f.instances[l]));
}

// Retiring what was replaced.

/// Being out of date, not stopping, and in a place that has a ready instance up to date.
pub open spec fn is_replaced(insts: Seq<Instance>, slots: Seq<Slot>) -> spec_fn(int) -> bool {
    |i: int|
        insts[i].phase != Phase::Terminating && exists|k: int, j: int|
            0 <= k < slots.len() && 0 <= j < insts.len() && (#[trigger] slots[k]).app@
                == insts[i].app@ && slots[k].replica == insts[i].replica && slots[k].hash
                != insts[i].spec_hash && (#[trigger] insts[j]).app@ == insts[i].app@
                && insts[j].replica == insts[i].replica && insts[j].spec_hash == slots[k].hash
                && insts[j].phase == Phase::Ready
}

proof fn lemma_is_replaced(insts: Seq<Instance>, slots: Seq<Slot>, i: int)
    requires
        places_differ(slots),
        0 <= i < insts.len(),
    ensures
        surplus(insts, slots)(i) <==> is_replaced(insts, slots)(i),
{
    let inst = insts[i];
    lemma_slot_at(slots, inst.app@, inst.replica, 0);
    if surplus(insts, slots)(i) {
        let k = slot_at(slots, inst.app@, inst.replica, 0)->0;
        let j = choose|j: int|
            0 <= j < insts.len() && (#[trigger] insts[j]).fills(inst.app@, inst.replica)
                && insts[j].spec_hash == slots[k].hash && insts[j].phase == Phase::Ready;
        assert(slots[k].app@ == inst.app@ && insts[j].app@ == inst.app@);
    }
    if is_replaced(insts, slots)(i) {
        let (k, j) = choose|k: int, j: int|
            0 <= k < slots.len() && 0 <= j < insts.len() && (#[trigger] slots[k]).app@
                == insts[i].app@ && slots[k].replica == insts[i].replica && slots[k].hash
                != insts[i].spec_hash && (#[trigger] insts[j]).app@ == insts[i].app@
                && insts[j].replica == insts[i].replica && insts[j].spec_hash == slots[k].hash
                && insts[j].phase == Phase::Ready;
        let l = slot_at(slots, inst.app@, inst.replica, 0)->0;
        if l < k {
            assert(slots[l].app@ == slots[k].app@);
        } else if k < l {
            assert(slots[k].app@ == slots[l].app@);
        }
        assert(insts[j].fills(inst.app@, inst.replica));
    }
}

/// Once the replacement in a place is ready, each other instance in it that is out of date goes,
/// ready or not, and nothing else does: it is asked to stop for good, or dropped where it has no
/// process. The groups of the ones that have processes are asked to terminate, in order.
pub proof fn law_replaced_instances_are_retired(
    insts: Seq<Instance>,
    slots: Seq<Slot>,
    now: u64,
) -> (src: Seq<int>)
    requires
        places_differ(slots),
    ensures
        ({
            let f = retiring(insts, surplus(insts, slots), now);
            &&& stems_from(without_surplus(insts, slots, now), f, insts.len() as int, src)
            &&& forall|i: int|
                0 <= i < insts.len() ==> #[trigger] f(i) == if !is_replaced(insts, slots)(i) {
                    Some(insts[i])
                } else if insts[i].handle is Some {
                    Some(asked_to_stop(insts[i], false, now))
                } else {
                    None
                }
            &&& are_groups_of(
                marked_groups(insts, surplus(insts, slots), insts.len() as int),
                insts,
                |i: int| insts[i].handle is Some && is_replaced(insts, slots)(i),
            )
        }),
{
    let marks = surplus(insts, slots);
    let f = retiring(insts, marks, now);
    let n = insts.len() as int;
    lemma_stems_from(f, n);
    assert forall|i: int| 0 <= i < insts.len() implies marks(i) == #[trigger] is_replaced(
        insts,
        slots,
    )(i) by {
        lemma_is_replaced(insts, slots, i);
    }
    assert forall|i: int| 0 <= i < insts.len() implies #[trigger] f(i) == if !is_replaced(
        insts,
        slots,
    )(i) {
        Some(insts[i])
    } else if insts[i].handle is Some {
        Some(asked_to_stop(insts[i], false, now))
    } else {
        None
    } by {
        assert(marks(i) == is_replaced(insts, slots)(i));
    }
    let p = |i: int| insts[i].handle is Some && is_replaced(insts, slots)(i);
    assert forall|i: int| 0 <= i < insts.len() implies #[trigger] p(i) == (marks(i)
        && insts[i].handle is Some) by {
        assert(marks(i) == is_replaced(insts, slots)(i));
    }
    lemma_marked_groups(insts, marks, p, n);
    lemma_groups_from(marked_groups(insts, marks, n), insts, p);
    picked(|i: int| f(i) is Some, n)
}

/// Without extra instances nothing is ever retired for having been replaced; with them, exactly
/// what was.
pub proof fn law_replaced_only_with_extras(
    insts: Seq<Instance>,
    m: Manifest,
    slots: Seq<Slot>,
    i: int,
)
    requires
        places_differ(slots),
        0 <= i < insts.len(),
    ensures
        to_retire(insts, m, slots)(i) <==> m.defaults.max_surge != 0 && is_replaced(insts, slots)(
            i,
        ),
{
    lemma_is_replaced(insts, slots, i);
}

/// An extra instance, one in a place that has another, is only added within the budget: its app
/// then has no more instances than replicas and extra ones are allowed.
pub proof fn law_extras_are_added_within_budget(
    insts: Seq<Instance>,
    m: Manifest,
    ports: Map<(Seq<char>, u32), u16>,
    slots: Seq<Slot>,
    now: u64,
    a: int,
    i: int,
    j: int,
)
    requires
        m.names_distinct(),
        0 <= a < m.apps@.len(),
        0 <= i < insts.len() <= j < peopled(insts, m, ports, slots, now).len(),
        peopled(insts, m, ports, slots, now)[j].app@ == m.apps@[a].name@,
        insts[i].app@ == m.apps@[a].name@,
        insts[i].replica == peopled(insts, m, ports, slots, now)[j].replica,
    ensures
        count(
            peopled(insts, m, ports, slots, now),
            |x: Instance| x.app@ == m.apps@[a].name@,
        ) <= m.apps@[a].replicas + m.defaults.max_surge,
{
    let app = m.apps@[a].name@;
    let n = slots.len() as int;
    let base = filled(insts, slots, n, now);
    let after = peopled(insts, m, ports, slots, now);
    lemma_app_is(m, app, a);
    lemma_filled_apart(insts, slots, n, now);
    lemma_filled_with(insts, m, slots, n, now);
    lemma_surged_with(insts, base, m, ports, slots, n, now);
    if j < base.len() {
        assert(after[j] == base[j]);
        assert(!is_filled(insts, base[j].app@, base[j].replica));
        assert(insts[i].fills(base[j].app@, base[j].replica));
    }
    lemma_surged_budget(base, m, ports, slots, n, now, j);
    lemma_count_same(after, |x: Instance| x.app@ == m.apps@[a].name@, of_app(app));
}

proof fn lemma_filled_apart(insts: Seq<Instance>, slots: Seq<Slot>, n: int, now: u64)
    requires
        0 <= n <= slots.len(),
    ensures
        insts.is_prefix_of(filled(insts, slots, n, now)),
        forall|j: int|
            insts.len() <= j < filled(insts, slots, n, now).len() ==> !is_filled(
                insts,
                (#[trigger] filled(insts, slots, n, now)[j]).app@,
                filled(insts, slots, n, now)[j].replica,
            ),
    decreases n,
{
    if n > 0 {
        lemma_filled_apart(insts, slots, n - 1, now);
        let before = filled(insts, slots, n - 1, now);
        let after = filled(insts, slots, n, now);
        let slot = slots[n - 1];
        if !is_filled(before, slot.app@, slot.replica) {
            assert(!is_filled(insts, slot.app@, slot.replica)) by {
                assert forall|i: int| 0 <= i < insts.len() implies !(#[trigger] insts[i]).fills(
                    slot.app@,
                    slot.replica,
                ) by {
                    assert(before[i] == insts[i]);
                }
            }
        }
    }
}

proof fn lemma_surged_budget(
    base: Seq<Instance>,
    m: Manifest,
    ports: Map<(Seq<char>, u32), u16>,
    slots: Seq<Slot>,
    n: int,
    now: u64,
    j: int,
)
    requires
        0 <= n <= slots.len(),
        base.len() <= j < surged(base, m, ports, slots, n, now).len(),
    ensures
        count(
            surged(base, m, ports, slots, n, now),
            of_app(surged(base, m, ports, slots, n, now)[j].app@),
        ) <= replicas_of(m, surged(base, m, ports, slots, n, now)[j].app@) + m.defaults.max_surge,
    decreases n,
{
    if n > 0 {
        let before = surged(base, m, ports, slots, n - 1, now);
        let after = surged(base, m, ports, slots, n, now);
        let app = after[j].app@;
        lemma_count_push(before, newcomer(slots[n - 1], now), of_app(app));
        if j < before.len() {
            assert(after[j] == before[j]);
            lemma_surged_budget(base, m, ports, slots, n - 1, now, j);
        }
    }
}

/// Whether no two of the instances from a place on are in the same place with the same fingerprint.
pub open spec fn new_ones_differ(insts: Seq<Instance>, from: int) -> bool {
    forall|j: int, l: int|
        from <= j < l < insts.len() ==> !((#[trigger] insts[j]).app@ == (#[trigger] insts[l]).app@
            && insts[j].replica == insts[l].replica && insts[j].spec_hash == insts[l].spec_hash)
}

/// No place is given the same new instance twice.
pub proof fn law_new_instances_differ(
    insts: Seq<Instance>,
    m: Manifest,
    ports: Map<(Seq<char>, u32), u16>,
    slots: Seq<Slot>,
    now: u64,
)
    ensures
        new_ones_differ(peopled(insts, m, ports, slots, now), insts.len() as int),
{
    let n = slots.len() as int;
    lemma_filled_differ(insts, slots, n, now);
    lemma_surged_differ(insts, filled(insts, slots, n, now), m, ports, slots, n, now);
}

proof fn lemma_filled_differ(insts: Seq<Instance>, slots: Seq<Slot>, n: int, now: u64)
    requires
        0 <= n <= slots.len(),
    ensures
        new_ones_differ(filled(insts, slots, n, now), insts.len() as int),
        filled(insts, slots, n, now).len() >= insts.len(),
    decreases n,
{
    if n > 0 {
        lemma_filled_differ(insts, slots, n - 1, now);
        let before = filled(insts, slots, n - 1, now);
        let after = filled(insts, slots, n, now);
        let slot = slots[n - 1];
        if !is_filled(before, slot.app@, slot.replica) {
            assert forall|j: int, l: int| insts.len() <= j < l < after.len() implies !((
            #[trigger] after[j]).app@ == (#[trigger] after[l]).app@ && after[j].replica
                == after[l].replica && after[j].spec_hash == after[l].spec_hash) by {
                assert(after[j] == before[j]);
                if l == before.len() {
                    assert(!before[j].fills(slot.app@, slot.replica));
                } else {
                    assert(after[l] == before[l]);
                }
            }
        }
    }
}

proof fn lemma_surged_differ(
    insts: Seq<Instance>,
    base: Seq<Instance>,
    m: Manifest,
    ports: Map<(Seq<char>, u32), u16>,
    slots: Seq<Slot>,
    n: int,
    now: u64,
)
    requires
        0 <= n <= slots.len(),
        base.len() >= insts.len(),
        new_ones_differ(base, insts.len() as int),
    ensures
        new_ones_differ(surged(base, m, ports, slots, n, now), insts.len() as int),
        surged(base, m, ports, slots, n, now).len() >= insts.len(),
    decreases n,
{
    if n > 0 {
        lemma_surged_differ(insts, base, m, ports, slots, n - 1, now);
        let before = surged(base, m, ports, slots, n - 1, now);
        let after = surged(base, m, ports, slots, n, now);
        let slot = slots[n - 1];
        if wants_surge(before, m, ports, slot) {
            assert forall|j: int, l: int| insts.len() <= j < l < after.len() implies !((
            #[trigger] after[j]).app@ == (#[trigger] after[l]).app@ && after[j].replica
                == after[l].replica && after[j].spec_hash == after[l].spec_hash) by {
                assert(after[j] == before[j]);
                if l == before.len() {
                    assert(!(before[j].fills(slot.app@, slot.replica) && before[j].spec_hash
                        == slot.hash));
                } else {
                    assert(after[l] == before[l]);
                }
            }
        }
    }
}

/// In one round of the roll every selected app that has instances out of date and not ready has
/// one fewer of them, whether they have processes or not; an app that has none gets none.
pub proof fn law_roll_goes_on_in_every_app(
    f: Fleet,
    m: Manifest,
    slots: Seq<Slot>,
    apps: Seq<Seq<char>>,
    now: u64,
    q: int,
)
    requires
        places_differ(slots),
        apps.no_duplicates(),
        0 <= q < apps.len(),
    ensures
        ({
            let p = old_and_idle(slots, apps[q]);
            let left = count(
                rolled(f, m, slots, apps, apps.len() as int, now).instances,
                p,
            );
            if count(f.instances, p) > 0 {
                left == count(f.instances, p) - 1
            } else {
                left == 0
            }
        }),
{
    let app = apps[q];
    let n = apps.len() as int;
    let p = old_and_idle(slots, app);
    assert forall|k: int| 0 <= k < q implies #[trigger] apps[k] != app by {}
    assert forall|k: int| q + 1 <= k < n implies #[trigger] apps[k] != app by {}
    lemma_rolls_keep_count(f, m, slots, apps, 0, q, now, app);
    lemma_rolls_keep_count(f, m, slots, apps, q + 1, n, now, app);
    let g = rolled(f, m, slots, apps, q, now);
    let h = rolled_app(g, m, slots, app, now);
    assert(h == rolled(f, m, slots, apps, q + 1, now));
    if count(g.instances, p) > 0 {
        let i = lemma_count_some(g.instances, p);
        law_idle_old_instance_is_retired_at_once(g, m, slots, app, now, i);
        let j = choose|j: int| #[trigger] lost_one(g, h, j, now) && p(g.instances[j]);
        match g.instances[j].handle {
            Some(_) => lemma_count_update(
                g.instances,
                j,
                asked_to_stop(g.instances[j], false, now),
                p,
            ),
            None => lemma_count_remove(g.instances, j, p),
        }
    } else {
        lemma_first_where(g.instances, stale_unready(slots, app), 0);
        match first_where(g.instances, stale_unready(slots, app), 0) {
            Some(k) => {
                lemma_out_of_date(slots, g.instances[k]);
                lemma_count_none(g.instances, p, k);
            },
            None => {},
        }
        lemma_first_where(g.instances, stale_ready(slots, app), 0);
        match first_where(g.instances, stale_ready(slots, app), 0) {
            Some(k) => lemma_retire_keeps_count(g, k, now, p),
            None => {},
        }
    }
}

proof fn lemma_count_some(insts: Seq<Instance>, p: spec_fn(Instance) -> bool) -> (i: int)
    requires
        count(insts, p) > 0,
    ensures
        0 <= i < insts.len(),
        p(insts[i]),
    decreases insts.len(),
{
    if p(insts.last()) {
        insts.len() - 1
    } else {
        lemma_count_some(insts.drop_last(), p)
    }
}

proof fn lemma_count_none(insts: Seq<Instance>, p: spec_fn(Instance) -> bool, i: int)
    requires
        count(insts, p) == 0,
        0 <= i < insts.len(),
    ensures
        !p(insts[i]),
    decreases insts.len(),
{
    if i < insts.len() - 1 {
        lemma_count_none(insts.drop_last(), p, i);
    }
}

proof fn lemma_retire_keeps_count(f: Fleet, k: int, now: u64, p: spec_fn(Instance) -> bool)
    requires
        0 <= k < f.instances.len(),
        !p(f.instances[k]),
        !p(asked_to_stop(f.instances[k], false, now)),
    ensures
        count(retire_at(f, k, now).instances, p) == count(f.instances, p),
{
    if f.instances[k].running() {
        lemma_count_update(f.instances, k, asked_to_stop(f.instances[k], false, now), p);
    } else {
        lemma_count_remove(f.instances, k, p);
    }
}

proof fn lemma_rolls_keep_count(
    f: Fleet,
    m: Manifest,
    slots: Seq<Slot>,
    apps: Seq<Seq<char>>,
    from: int,
    n: int,
    now: u64,
    app: Seq<char>,
)
    requires
        0 <= from <= n <= apps.len(),
        forall|k: int| from <= k < n ==> #[trigger] apps[k] != app,
    ensures
        count(rolled(f, m, slots, apps, n, now).instances, old_and_idle(slots, app)) == count(
            rolled(f, m, slots, apps, from, now).instances,
            old_and_idle(slots, app),
        ),
    decreases n - from,
{
    if from < n {
        lemma_rolls_keep_count(f, m, slots, apps, from, n - 1, now, app);
        let g = rolled(f, m, slots, apps, n - 1, now);
        let other = apps[n - 1];
        let p = old_and_idle(slots, app);
        lemma_first_where(g.instances, stale_unready(slots, other), 0);
        lemma_first_where(g.instances, stale_ready(slots, other), 0);
        match first_where(g.instances, stale_unready(slots, other), 0) {
            Some(k) => lemma_retire_keeps_count(g, k, now, p),
            None => match first_where(g.instances, stale_ready(slots, other), 0) {
                Some(k) => lemma_retire_keeps_count(g, k, now, p),
                None => {},
            },
        }
    }
}

} // verus!
