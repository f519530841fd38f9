//! Stopping what should not run: instances that the manifest no longer asks for, and instances
//! whose app depends on a check that fails.

use crate::fleet::{
    kept, lemma_kept_contains, lemma_same_marks, marked, marked_groups, retire_marked, retiring,
    stop_marked, stopping, Instance,
};
use crate::manifest::Manifest;
use crate::order::{is_stable_order, key_before, stable_order, NameMap};
use crate::promises::{
    are_groups_of, law_failed_check_stops_dependents, must_stop, waits_for_failed_check,
};
use crate::reconcile::Reconciler;
use crate::slots::{find_slot, slot_at, Slot};
use crate::state::Phase;
use vstd::prelude::*;

verus! {

/// Whether the manifest does not ask for an instance, and it is not on its way out.
pub open spec fn unwanted(insts: Seq<Instance>, slots: Seq<Slot>) -> spec_fn(int) -> bool {
    |i: int|
        slot_at(slots, insts[i].app@, insts[i].replica, 0) is None && !(insts[i].running()
            && insts[i].phase == Phase::Terminating)
}

/// The keys that put higher replicas first.
pub open spec fn highest_first(insts: Seq<Instance>) -> Seq<u64> {
    Seq::new(insts.len(), |i: int| (u64::MAX - insts[i].replica) as u64)
}

/// The process groups of the marked instances, in the given order of the places.
pub open spec fn ordered_groups(
    insts: Seq<Instance>,
    marks: spec_fn(int) -> bool,
    order: Seq<usize>,
    n: int,
) -> Seq<i32>
    decreases n,
{
    if n <= 0 {
        seq![]
    } else {
        let before = ordered_groups(insts, marks, order, n - 1);
        let i = order[n - 1] as int;
        if marks(i) && insts[i].running() {
            before.push(insts[i].group()->0)
        } else {
            before
        }
    }
}

/// Whether an instance's app depends on a check that is known to fail.
pub open spec fn check_blocked(m: Manifest, checks: Map<Seq<char>, bool>, app: Seq<char>) -> bool {
    m.app_named(app) matches Some(a) && exists|d: int|
        0 <= d < m.apps@[a].depends_on@.len() && failing(
            m,
            checks,
            (#[trigger] m.apps@[a].depends_on@[d])@,
        )
}

/// Whether a dependency is a check, not an app, and known to fail.
pub open spec fn failing(m: Manifest, checks: Map<Seq<char>, bool>, dep: Seq<char>) -> bool {
    m.app_named(dep) is None && checks.dom().contains(dep) && !checks[dep]
}

/// Whether an instance runs although a check that its app depends on fails.
pub open spec fn blocked(insts: Seq<Instance>, m: Manifest, checks: Map<Seq<char>, bool>) -> (spec_fn(
    int,
) -> bool) {
    |i: int|
        check_blocked(m, checks, insts[i].app@) && insts[i].running() && insts[i].phase
            != Phase::Terminating
}

impl Reconciler {
    /// Stops the instances that the manifest no longer asks for, the higher replicas of an app
    /// before the lower ones, and drops those that no process fills. Returns the process groups
    /// to ask to terminate.
    pub fn terminate_undesired(&mut self, slots: &Vec<Slot>, now: u64) -> (groups: Vec<i32>)
        requires
            old(self).wf(),
        ensures
            final(self).wf(),
            *final(self) == (Reconciler { instances: final(self).instances, ..*old(self) }),
            final(self).instances@ == kept(
                retiring(old(self).instances@, unwanted(old(self).instances@, slots@), now),
                old(self).instances@.len() as int,
            ),
            exists|order: Seq<usize>| #[trigger]
                is_stable_order(
                    highest_first(old(self).instances@),
                    old(self).instances@.len() as int,
                    order,
                ) && groups@ == ordered_groups(
                    old(self).instances@,
                    unwanted(old(self).instances@, slots@),
                    order,
                    order.len() as int,
                ),
    {
        let ghost all = self.instances@;
        let ghost p = unwanted(all, slots@);
        let mut marks: Vec<bool> = Vec::new();
        let mut keys: Vec<u64> = Vec::new();
        let mut i: usize = 0;
        while i < self.instances.len()
            invariant
                i <= all.len(),
                all == self.instances@,
                p == unwanted(all, slots@),
                marks@.len() == i,
                keys@.len() == i,
                forall|j: int| 0 <= j < i ==> #[trigger] marks@[j] == p(j),
                forall|j: int| 0 <= j < i ==> #[trigger] keys@[j] == highest_first(all)[j],
            decreases all.len() - i,
        {
            let inst = &self.instances[i];
            let gone = find_slot(slots, inst.app.as_str(), inst.replica).is_none();
            let leaving = inst.is_running() && inst.phase == Phase::Terminating;
            marks.push(gone && !leaving);
            keys.push(u64::MAX - inst.replica as u64);
            i += 1;
        }
        assert(keys@ =~= highest_first(all));
        let order = stable_order(&keys);
        let mut groups: Vec<i32> = Vec::new();
        let mut k: usize = 0;
        while k < order.len()
            invariant
                k <= order@.len(),
                all == self.instances@,
                is_stable_order(highest_first(all), all.len() as int, order@),
                p == unwanted(all, slots@),
                marks@.len() == all.len(),
                forall|j: int| 0 <= j < all.len() ==> #[trigger] marks@[j] == p(j),
                groups@ == ordered_groups(all, p, order@, k as int),
            decreases order@.len() - k,
        {
            let at = order[k];
            if marks[at] {
                match self.instances[at].handle {
                    Some(h) => groups.push(h.pgid),
                    None => {},
                }
            }
            k += 1;
        }
        proof {
            lemma_same_marks(all, marked(marks@), p, now, all.len() as int);
        }
        let _ = retire_marked(&mut self.instances, &marks, now);
        groups
    }

    /// Stops the running instances whose app depends on a check that fails; they are started
    /// again once it answers. Returns the process groups to ask to terminate.
    pub fn stop_check_blocked(&mut self, now: u64) -> (groups: Vec<i32>)
        requires
            old(self).wf(),
        ensures
            final(self).wf(),
            *final(self) == (Reconciler { instances: final(self).instances, ..*old(self) }),
            final(self).instances@ == stopping(
                old(self).instances@,
                blocked(old(self).instances@, old(self).manifest, old(self).checks_ok@),
                true,
                now,
            ),
            groups@ == marked_groups(
                old(self).instances@,
                blocked(old(self).instances@, old(self).manifest, old(self).checks_ok@),
                old(self).instances@.len() as int,
            ),
            forall|i: int|
                0 <= i < final(self).instances@.len() && (
                #[trigger] final(self).instances@[i]).handle is Some
                    && final(self).instances@[i].phase != Phase::Terminating
                    ==> !waits_for_failed_check(
                    final(self).manifest,
                    final(self).checks_ok@,
                    final(self).instances@[i].app@,
                ),
            are_groups_of(
                groups@,
                old(self).instances@,
                must_stop(old(self).instances@, old(self).manifest, old(self).checks_ok@),
            ),
    {
        let ghost all = self.instances@;
        let ghost p = blocked(all, self.manifest, self.checks_ok@);
        let mut marks: Vec<bool> = Vec::new();
        let mut i: usize = 0;
        while i < self.instances.len()
            invariant
                self.wf(),
                i <= all.len(),
                all == self.instances@,
                p == blocked(all, self.manifest, self.checks_ok@),
                marks@.len() == i,
                forall|j: int| 0 <= j < i ==> #[trigger] marks@[j] == p(j),
            decreases all.len() - i,
        {
            let inst = &self.instances[i];
            let stop = inst.is_running() && inst.phase != Phase::Terminating && is_check_blocked(
                &self.manifest,
                &self.checks_ok,
                inst.app.as_str(),
            );
            marks.push(stop);
            i += 1;
        }
        proof {
            lemma_same_marks(all, marked(marks@), p, now, all.len() as int);
            assert(stopping(all, marked(marks@), true, now) =~= stopping(all, p, true, now));
            law_failed_check_stops_dependents(all, self.manifest, self.checks_ok@, now);
        }
        stop_marked(&mut self.instances, &marks, true, now)
    }
}

/// Whether an app depends on a check that is known to fail.
fn is_check_blocked(manifest: &Manifest, checks: &NameMap<bool>, app: &str) -> (r: bool)
    requires
        checks.wf(),
    ensures
        r == check_blocked(*manifest, checks@, app@),
{
    match manifest.app_index(app) {
        None => false,
        Some(a) => {
            let deps = &manifest.apps[a].depends_on;
            let mut d: usize = 0;
            while d < deps.len()
                invariant
                    checks.wf(),
                    a < manifest.apps@.len(),
                    manifest.app_named(app@) == Some(a as int),
                    *deps == manifest.apps@[a as int].depends_on,
                    d <= deps@.len(),
                    forall|j: int|
                        0 <= j < d ==> !failing(*manifest, checks@, (#[trigger] deps@[j])@),
                decreases deps@.len() - d,
            {
                let dep = deps[d].as_str();
                if manifest.app_index(dep).is_none() {
                    match checks.get(dep) {
                        Some(ok) => {
                            if !*ok {
                                assert(failing(
                                    *manifest,
                                    checks@,
                                    manifest.apps@[a as int].depends_on@[d as int]@,
                                ));
                                return true;
                            }
                        },
                        None => {},
                    }
                }
                d += 1;
            }
            false
        },
    }
}

/// After the undesired instances were retired, each instance left is one that the manifest asks
/// for or is being shut down.
pub proof fn law_only_wanted_or_leaving(insts: Seq<Instance>, slots: Seq<Slot>, now: u64, k: int)
    requires
        0 <= k < kept(retiring(insts, unwanted(insts, slots), now), insts.len() as int).len(),
    ensures
        ({
            let i = kept(retiring(insts, unwanted(insts, slots), now), insts.len() as int)[k];
            slot_at(slots, i.app@, i.replica, 0) is Some || (i.phase == Phase::Terminating
                && i.running())
        }),
{
    lemma_only_wanted_or_leaving(insts, slots, now, insts.len() as int, k);
}

proof fn lemma_only_wanted_or_leaving(
    insts: Seq<Instance>,
    slots: Seq<Slot>,
    now: u64,
    n: int,
    k: int,
)
    requires
        0 <= n <= insts.len(),
        0 <= k < kept(retiring(insts, unwanted(insts, slots), now), n).len(),
    ensures
        ({
            let i = kept(retiring(insts, unwanted(insts, slots), now), n)[k];
            slot_at(slots, i.app@, i.replica, 0) is Some || (i.phase == Phase::Terminating
                && i.running())
        }),
    decreases n,
{
    let f = retiring(insts, unwanted(insts, slots), now);
    if n > 0 {
        if k < kept(f, n - 1).len() {
            lemma_only_wanted_or_leaving(insts, slots, now, n - 1, k);
        } else {
            assert(f(n - 1) is Some);
        }
    }
}

/// The wanted instances are left untouched when the undesired ones are retired.
pub proof fn law_wanted_are_kept(insts: Seq<Instance>, slots: Seq<Slot>, now: u64, i: int)
    requires
        0 <= i < insts.len(),
        slot_at(slots, insts[i].app@, insts[i].replica, 0) is Some,
    ensures
        kept(retiring(insts, unwanted(insts, slots), now), insts.len() as int).contains(insts[i]),
{
    let f = retiring(insts, unwanted(insts, slots), now);
    assert(f(i) == Some(insts[i]));
    lemma_kept_contains(f, insts.len() as int, i);
}

/// In the order in which what is not wanted is asked to terminate, a higher replica never stands
/// behind a lower one.
pub proof fn law_highest_replica_stops_first(insts: Seq<Instance>, order: Seq<usize>, a: int, b: int)
    requires
        is_stable_order(highest_first(insts), insts.len() as int, order),
        0 <= a < b < order.len(),
    ensures
        insts[order[a] as int].replica >= insts[order[b] as int].replica,
{
    assert(key_before(highest_first(insts), order[a], order[b]));
}

} // verus!
