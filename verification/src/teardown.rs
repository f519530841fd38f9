//! Stopping everything: the instances in reverse start order, so that nothing loses what it
//! depends on before it has stopped itself.

use crate::fleet::{after_ms, later, Exit, Instance, STOP_GRACE};
use crate::graph::{
    depends, in_start_order, ints, law_start_order, lemma_last_named, node, start_order,
};
use crate::manifest::{App, Manifest};
use crate::order::{is_stable_order, key_before, stable_order};
use crate::promises::{are_groups_of, law_teardown_reaches_every_process, with_process};
use crate::reconcile::Reconciler;
use crate::state::Phase;
use crate::text::str_eq;
use vstd::prelude::*;

verus! {

/// The place in an order of the app of a name, from `from` on.
pub open spec fn rank_in(apps: Seq<App>, order: Seq<int>, name: Seq<char>, from: int) -> Option<int>
    decreases order.len() - from,
{
    if from < 0 || from >= order.len() {
        None
    } else if apps[order[from]].name@ == name {
        Some(from)
    } else {
        rank_in(apps, order, name, from + 1)
    }
}

/// The place of an app in the start order; none where there is no such app or no start order.
pub open spec fn start_rank(apps: Seq<App>, name: Seq<char>) -> Option<int> {
    match start_order(apps) {
        Ok(order) => rank_in(apps, order, name, 0),
        Err(_) => None,
    }
}

/// The keys that put instances in reverse start order, those of unknown apps first.
pub open spec fn teardown_keys(apps: Seq<App>, insts: Seq<Instance>) -> Seq<u64> {
    Seq::new(
        insts.len(),
        |i: int|
            match start_rank(apps, insts[i].app@) {
                Some(r) => (u64::MAX - r) as u64,
                None => 0,
            },
    )
}

/// An instance that is being shut down with everything else.
pub open spec fn going(inst: Instance) -> Instance {
    if inst.running() {
        Instance { phase: Phase::Terminating, ..inst }
    } else {
        inst
    }
}

/// The instances in a given order, all being shut down.
pub open spec fn all_going(insts: Seq<Instance>, order: Seq<usize>) -> Seq<Instance> {
    Seq::new(order.len(), |k: int| going(insts[order[k] as int]))
}

/// The process groups of the running ones among the first `n` instances.
pub open spec fn running_groups(insts: Seq<Instance>, n: int) -> Seq<i32>
    decreases n,
{
    if n <= 0 {
        seq![]
    } else if insts[n - 1].running() {
        running_groups(insts, n - 1).push(insts[n - 1].group()->0)
    } else {
        running_groups(insts, n - 1)
    }
}

/// What to do next while everything is being stopped.
#[derive(Debug)]
pub enum TeardownStep {
    /// Nothing runs any more.
    Done,
    /// Wait, and look again.
    Wait,
    /// Kill these process groups, wait, and look again.
    Kill(Vec<i32>),
}

/// Whether a step is the next one: done when nothing runs, waiting before the deadline, and killing
/// what runs from then on.
pub open spec fn is_next_step(
    step: TeardownStep,
    insts: Seq<Instance>,
    now: u64,
    deadline: u64,
) -> bool {
    if !any_running(insts) {
        step is Done
    } else if now < deadline {
        step is Wait
    } else {
        step matches TeardownStep::Kill(groups) && groups@ == running_groups(
            insts,
            insts.len() as int,
        )
    }
}

/// An instance once it is known whether its process has exited.
pub open spec fn settled(inst: Instance, exit: Exit) -> Instance {
    if inst.running() && exit == Exit::Exited {
        Instance { handle: None, ..inst }
    } else {
        inst
    }
}

/// The instances once it is known which processes have exited.
pub open spec fn all_settled(insts: Seq<Instance>, exits: Seq<Exit>) -> Seq<Instance> {
    Seq::new(insts.len(), |i: int| settled(insts[i], exits[i]))
}

/// Whether a process fills any of the instances.
pub open spec fn any_running(insts: Seq<Instance>) -> bool {
    exists|i: int| 0 <= i < insts.len() && (#[trigger] insts[i]).running()
}

fn find_rank(manifest: &Manifest, order: &Vec<usize>, name: &str) -> (r: Option<usize>)
    requires
        forall|p: int| 0 <= p < order@.len() ==> #[trigger] order@[p] < manifest.apps@.len(),
    ensures
        match r {
            Some(p) => rank_in(manifest.apps@, ints(order@), name@, 0) == Some(p as int) && p
                < order@.len(),
            None => rank_in(manifest.apps@, ints(order@), name@, 0) is None,
        },
{
    let mut p: usize = 0;
    while p < order.len()
        invariant
            p <= order@.len(),
            forall|q: int| 0 <= q < order@.len() ==> #[trigger] order@[q] < manifest.apps@.len(),
            rank_in(manifest.apps@, ints(order@), name@, 0) == rank_in(
                manifest.apps@,
                ints(order@),
                name@,
                p as int,
            ),
        decreases order@.len() - p,
    {
        assert(ints(order@)[p as int] == order@[p as int]);
        if str_eq(manifest.apps[order[p]].name.as_str(), name) {
            return Some(p);
        }
        p += 1;
    }
    None
}

impl Reconciler {
    /// Begins to stop everything: puts the instances in reverse start order, and returns the
    /// process groups to ask to terminate, in that order.
    pub fn begin_teardown(&mut self) -> (groups: Vec<i32>)
        ensures
            *final(self) == (Reconciler { instances: final(self).instances, ..*old(self) }),
            exists|order: Seq<usize>| #[trigger]
                is_stable_order(
                    teardown_keys(old(self).manifest.apps@, old(self).instances@),
                    old(self).instances@.len() as int,
                    order,
                ) && final(self).instances@ == all_going(old(self).instances@, order),
            groups@ == running_groups(
                final(self).instances@,
                final(self).instances@.len() as int,
            ),
            are_groups_of(
                groups@,
                final(self).instances@,
                with_process(final(self).instances@),
            ),
    {
        let start = match self.manifest.app_order() {
            Ok(order) => order,
            Err(_) => Vec::new(),
        };
        let ghost apps = self.manifest.apps@;
        let ghost all = self.instances@;
        proof {
            assert forall|name: Seq<char>| #[trigger] rank_in(apps, ints(start@), name, 0)
                == start_rank(apps, name) by {
                if start_order(apps) is Err {
                    assert(ints(start@).len() == 0);
                }
            }
        }
        let mut keys: Vec<u64> = Vec::new();
        let mut i: usize = 0;
        while i < self.instances.len()
            invariant
                all == self.instances@,
                apps == self.manifest.apps@,
                i <= all.len(),
                keys@.len() == i,
                forall|p: int| 0 <= p < start@.len() ==> #[trigger] start@[p] < apps.len(),
                forall|name: Seq<char>| #[trigger]
                    rank_in(apps, ints(start@), name, 0) == start_rank(apps, name),
                forall|j: int| 0 <= j < i ==> #[trigger] keys@[j] == teardown_keys(apps, all)[j],
            decreases all.len() - i,
        {
            let key = match find_rank(&self.manifest, &start, self.instances[i].app.as_str()) {
                Some(r) => u64::MAX - r as u64,
                None => 0,
            };
            assert(rank_in(apps, ints(start@), all[i as int].app@, 0) == start_rank(
                apps,
                all[i as int].app@,
            ));
            keys.push(key);
            i += 1;
        }
        assert(keys@ =~= teardown_keys(apps, all));
        let order = stable_order(&keys);
        let mut sorted: Vec<Instance> = Vec::new();
        let mut groups: Vec<i32> = Vec::new();
        let mut k: usize = 0;
        while k < order.len()
            invariant
                all == self.instances@,
                is_stable_order(teardown_keys(apps, all), all.len() as int, order@),
                k <= order@.len(),
                sorted@.len() == k,
                forall|j: int| 0 <= j < k ==> #[trigger] sorted@[j] == all_going(all, order@)[j],
                groups@ == running_groups(all_going(all, order@), k as int),
            decreases order@.len() - k,
        {
            let mut inst = self.instances[order[k]].duplicate();
            if let Some(h) = inst.handle {
                groups.push(h.pgid);
                inst.phase = Phase::Terminating;
            }
            sorted.push(inst);
            k += 1;
        }
        assert(sorted@ =~= all_going(all, order@));
        self.instances = sorted;
        proof {
            law_teardown_reaches_every_process(self.instances@);
        }
        groups
    }

    /// Takes note of which processes have exited while everything is being stopped, and says what
    /// to do next. What still runs at the deadline is killed.
    pub fn teardown_step(&mut self, exits: &Vec<Exit>, now: u64, deadline: u64) -> (step:
        TeardownStep)
        requires
            exits@.len() == old(self).instances@.len(),
        ensures
            *final(self) == (Reconciler { instances: final(self).instances, ..*old(self) }),
            final(self).instances@ == all_settled(old(self).instances@, exits@),
            match step {
                TeardownStep::Done => !any_running(final(self).instances@),
                TeardownStep::Wait => any_running(final(self).instances@) && now < deadline,
                TeardownStep::Kill(groups) => any_running(final(self).instances@) && now
                    >= deadline && groups@ == running_groups(
                    final(self).instances@,
                    final(self).instances@.len() as int,
                ),
            },
            is_next_step(step, final(self).instances@, now, deadline),
            step matches TeardownStep::Kill(groups) ==> are_groups_of(
                groups@,
                final(self).instances@,
                with_process(final(self).instances@),
            ),
    {
        let ghost all = self.instances@;
        let ghost after = all_settled(all, exits@);
        let mut groups: Vec<i32> = Vec::new();
        let mut done = true;
        let mut i: usize = 0;
        while i < exits.len()
            invariant
                i <= exits@.len(),
                exits@.len() == all.len(),
                after == all_settled(all, exits@),
                *self == (Reconciler { instances: self.instances, ..*old(self) }),
                self.instances@.len() == all.len(),
                forall|j: int| 0 <= j < i ==> #[trigger] self.instances@[j] == after[j],
                forall|j: int| i <= j < all.len() ==> #[trigger] self.instances@[j] == all[j],
                groups@ == running_groups(after, i as int),
                done ==> forall|j: int| 0 <= j < i ==> !(#[trigger] after[j]).running(),
                !done ==> any_running(after),
            decreases exits@.len() - i,
        {
            if self.instances[i].is_running() {
                if exits[i] == Exit::Exited {
                    self.instances[i].handle = None;
                } else {
                    if let Some(h) = self.instances[i].handle {
                        groups.push(h.pgid);
                    }
                    done = false;
                    assert(after[i as int].running());
                }
            }
            assert(self.instances@[i as int] == after[i as int]);
            i += 1;
        }
        assert(self.instances@ =~= after);
        proof {
            law_teardown_reaches_every_process(self.instances@);
        }
        if done {
            TeardownStep::Done
        } else if now >= deadline {
            TeardownStep::Kill(groups)
        } else {
            TeardownStep::Wait
        }
    }
}

/// The time at which what is still running is killed, everything having been asked to stop at
/// `now`.
pub fn teardown_deadline(now: u64) -> (r: u64)
    ensures
        r == later(now, STOP_GRACE),
{
    after_ms(now, STOP_GRACE)
}

proof fn lemma_rank_in(apps: Seq<App>, order: Seq<int>, name: Seq<char>, from: int, p: int)
    requires
        0 <= from <= p < order.len(),
        apps[order[p]].name@ == name,
        forall|q: int| 0 <= q < order.len() && q != p ==> apps[#[trigger] order[q]].name@ != name,
    ensures
        rank_in(apps, order, name, from) == Some(p),
    decreases p - from,
{
    if from < p {
        assert(apps[order[from]].name@ != name);
        lemma_rank_in(apps, order, name, from + 1, p);
    }
}

proof fn lemma_rank_of(m: Manifest, order: Seq<int>, p: int)
    requires
        m.names_distinct(),
        start_order(m.apps@) == Ok::<Seq<int>, int>(order),
        in_start_order(m.apps@, order),
        0 <= p < order.len(),
    ensures
        start_rank(m.apps@, m.apps@[order[p]].name@) == Some(p),
{
    let apps = m.apps@;
    let name = apps[order[p]].name@;
    assert forall|q: int| 0 <= q < order.len() && q != p implies apps[#[trigger] order[q]].name@
        != name by {
        assert(order[q] != order[p]);
        if order[q] < order[p] {
            assert(apps[order[q]].name@ != apps[order[p]].name@);
        } else {
            assert(apps[order[p]].name@ != apps[order[q]].name@);
        }
    }
    lemma_rank_in(apps, order, name, 0, p);
}

/// Dependents stop before what they depend on: in the order of a teardown every instance of an app
/// stands before every instance of an app that it depends on.
pub proof fn law_dependents_stop_first(
    m: Manifest,
    insts: Seq<Instance>,
    order: Seq<usize>,
    i: int,
    j: int,
    a: int,
    b: int,
)
    requires
        m.names_distinct(),
        start_order(m.apps@) is Ok,
        depends(m.apps@, i, j),
        m.apps@.len() <= usize::MAX,
        is_stable_order(teardown_keys(m.apps@, insts), insts.len() as int, order),
        0 <= a < order.len(),
        0 <= b < order.len(),
        insts[order[a] as int].app@ == m.apps@[i].name@,
        insts[order[b] as int].app@ == m.apps@[j].name@,
    ensures
        a < b,
{
    let apps = m.apps@;
    let start = start_order(apps)->Ok_0;
    law_start_order(m);
    lemma_last_named(apps, apps[i].name@, apps.len() as int);
    assert(node(apps, apps[i].name@) == Some(i)) by {
        let k = node(apps, apps[i].name@)->0;
        if k < i {
            assert(apps[k].name@ != apps[i].name@);
        } else if i < k {
            assert(apps[i].name@ != apps[k].name@);
        }
    }
    assert(start.contains(i));
    let p = choose|p: int| 0 <= p < start.len() && start[p] == i;
    assert(depends(apps, start[p], j));
    let q = choose|q: int| 0 <= q < p && #[trigger] start[q] == j;
    lemma_rank_of(m, start, p);
    lemma_rank_of(m, start, q);
    let keys = teardown_keys(apps, insts);
    crate::graph::lemma_start_order_len(m);
    let x = order[a];
    let y = order[b];
    assert(keys[x as int] == (u64::MAX - p) as u64);
    assert(keys[y as int] == (u64::MAX - q) as u64);
    if b < a {
        assert(key_before(keys, order[b], order[a]));
    }
}

} // verus!
