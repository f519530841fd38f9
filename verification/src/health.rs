//! Probing the running instances: which probe is due, and what its answer means.

use crate::fleet::{after_ms, begin_stop, later, millis, one_more, secs_as_ms, Instance};
use crate::manifest::App;
use crate::reconcile::Reconciler;
use crate::spawn::is_empty;
use crate::state::Phase;
use crate::text::{decimal, decimal_text, join2};
use vstd::prelude::*;

verus! {

/// Milliseconds between two readiness probes of an instance.
pub const READY_PERIOD: u64 = 1_000;

/// Milliseconds that a probe may take.
pub const PROBE_TIMEOUT: u64 = 1_000;

/// Where a probe goes.
pub struct Target {
    /// `host:port`
    pub addr: String,
    pub path: String,
}

/// The address that an instance listens on.
pub open spec fn local_addr(port: u16) -> Seq<char> {
    "127.0.0.1:"@ + decimal_text(port as nat)
}

/// Whether an instance may be probed at all.
pub open spec fn probed(inst: Instance) -> bool {
    inst.running() && inst.phase != Phase::Terminating
}

/// Whether a readiness probe of an instance is due.
pub open spec fn readiness_due(inst: Instance, app: App, now: u64) -> bool {
    probed(inst) && now >= inst.next_ready_probe && app.ready_path@.len() > 0
}

/// Whether a liveness probe of an instance is due. Only an instance that was ready is probed.
pub open spec fn liveness_due(inst: Instance, app: App, now: u64) -> bool {
    probed(inst) && now >= inst.next_live_probe && app.live_path@.len() > 0 && inst.ever_ready
}

/// The instance after a readiness probe. Readiness decides whether it counts as ready; it stops
/// only an instance that did not become ready in time.
pub open spec fn after_readiness(inst: Instance, ok: bool, now: u64) -> Instance {
    let i = Instance { next_ready_probe: later(now, READY_PERIOD), ..inst };
    if ok {
        Instance { phase: Phase::Ready, ever_ready: true, ..i }
    } else if inst.phase == Phase::Ready {
        Instance { phase: Phase::Unready, ..i }
    } else if late(inst, now) {
        i.stopped(true, now)
    } else {
        i
    }
}

/// Whether an instance is past its time to become ready for the first time.
pub open spec fn late(inst: Instance, now: u64) -> bool {
    &&& inst.phase == Phase::Starting
    &&& inst.ready_deadline matches Some(dl)
    &&& now >= dl
}

/// The instance after a liveness probe. Enough failures in a row stop it, to be started again.
pub open spec fn after_liveness(inst: Instance, app: App, ok: bool, now: u64) -> Instance {
    let i = Instance { next_live_probe: later(now, secs_as_ms(app.live_period)), ..inst };
    if ok {
        Instance { consecutive_live_fail: 0, ..i }
    } else {
        let j = Instance { consecutive_live_fail: one_more(inst.consecutive_live_fail), ..i };
        if j.consecutive_live_fail >= app.live_failures {
            j.stopped(true, now)
        } else {
            j
        }
    }
}

impl Reconciler {
    /// Where to probe the given instance for readiness, if that is due.
    pub fn readiness_target(&self, idx: usize, now: u64) -> (r: Option<Target>)
        requires
            idx < self.instances@.len(),
        ensures
            match self.manifest.app_named(self.instances@[idx as int].app@) {
                None => r is None,
                Some(a) => if readiness_due(
                    self.instances@[idx as int],
                    self.manifest.apps@[a],
                    now,
                ) {
                    r matches Some(t) && t.addr@ == local_addr(self.instances@[idx as int].port)
                        && t.path@ == self.manifest.apps@[a].ready_path@
                } else {
                    r is None
                },
            },
            r is Some <==> (self.manifest.app_named(self.instances@[idx as int].app@) matches Some(a)
                && self.manifest.apps@[a].ready_path@.len() > 0) && self.instances@[idx as int].handle
                is Some && self.instances@[idx as int].phase != Phase::Terminating
                && self.instances@[idx as int].next_ready_probe <= now,
    {
        let inst = &self.instances[idx];
        match self.manifest.app_index(inst.app.as_str()) {
            None => None,
            Some(a) => {
                let app = &self.manifest.apps[a];
                if inst.is_running() && inst.phase != Phase::Terminating && now
                    >= inst.next_ready_probe && !is_empty(app.ready_path.as_str()) {
                    Some(
                        Target { addr: local_address(inst.port), path: app.ready_path.clone() },
                    )
                } else {
                    None
                }
            },
        }
    }

    /// Takes note of the answer to a readiness probe. Returns the process group to ask to
    /// terminate, where the instance is to be restarted.
    pub fn record_readiness(&mut self, idx: usize, ok: bool, now: u64) -> (group: Option<i32>)
        requires
            old(self).wf(),
            idx < old(self).instances@.len(),
            probed(old(self).instances@[idx as int]),
        ensures
            final(self).wf(),
            *final(self) == (Reconciler { instances: final(self).instances, ..*old(self) }),
            final(self).instances@ == old(self).instances@.update(
                idx as int,
                after_readiness(old(self).instances@[idx as int], ok, now),
            ),
            group == if !ok && late(old(self).instances@[idx as int], now) {
                old(self).instances@[idx as int].group()
            } else {
                None
            },
            group == match old(self).instances@[idx as int].handle {
                Some(h) => if final(self).instances@[idx as int].phase == Phase::Terminating {
                    Some(h.pgid)
                } else {
                    None
                },
                None => None,
            },
    {
        let inst = &mut self.instances[idx];
        inst.next_ready_probe = after_ms(now, READY_PERIOD);
        if ok {
            inst.phase = Phase::Ready;
            inst.ever_ready = true;
        } else if inst.phase == Phase::Ready {
            inst.phase = Phase::Unready;
        } else if inst.phase == Phase::Starting {
            let late = match inst.ready_deadline {
                Some(dl) => now >= dl,
                None => false,
            };
            if late {
                return begin_stop(inst, true, now);
            }
        }
        None
    }

    /// Where to probe the given instance for liveness, if that is due.
    pub fn liveness_target(&self, idx: usize, now: u64) -> (r: Option<Target>)
        requires
            idx < self.instances@.len(),
        ensures
            match self.manifest.app_named(self.instances@[idx as int].app@) {
                None => r is None,
                Some(a) => if liveness_due(
                    self.instances@[idx as int],
                    self.manifest.apps@[a],
                    now,
                ) {
                    r matches Some(t) && t.addr@ == local_addr(self.instances@[idx as int].port)
                        && t.path@ == self.manifest.apps@[a].live_path@
                } else {
                    r is None
                },
            },
            r is Some <==> (self.manifest.app_named(self.instances@[idx as int].app@) matches Some(a)
                && self.manifest.apps@[a].live_path@.len() > 0) && self.instances@[idx as int].handle
                is Some && self.instances@[idx as int].phase != Phase::Terminating
                && self.instances@[idx as int].ever_ready
                && self.instances@[idx as int].next_live_probe <= now,
    {
        let inst = &self.instances[idx];
        match self.manifest.app_index(inst.app.as_str()) {
            None => None,
            Some(a) => {
                let app = &self.manifest.apps[a];
                if inst.is_running() && inst.phase != Phase::Terminating && now
                    >= inst.next_live_probe && !is_empty(app.live_path.as_str())
                    && inst.ever_ready {
                    Some(Target { addr: local_address(inst.port), path: app.live_path.clone() })
                } else {
                    None
                }
            },
        }
    }

    /// Takes note of the answer to a liveness probe. Returns the process group to ask to
    /// terminate, where the instance is to be restarted.
    pub fn record_liveness(&mut self, idx: usize, ok: bool, now: u64) -> (group: Option<i32>)
        requires
            old(self).wf(),
            idx < old(self).instances@.len(),
            probed(old(self).instances@[idx as int]),
        ensures
            final(self).wf(),
            *final(self) == (Reconciler { instances: final(self).instances, ..*old(self) }),
            match old(self).manifest.app_named(old(self).instances@[idx as int].app@) {
                None => final(self).instances@ == old(self).instances@ && group is None,
                Some(a) => {
                    let before = old(self).instances@[idx as int];
                    let app = old(self).manifest.apps@[a];
                    &&& final(self).instances@ == old(self).instances@.update(
                        idx as int,
                        after_liveness(before, app, ok, now),
                    )
                    &&& group == if !ok && one_more(before.consecutive_live_fail)
                        >= app.live_failures {
                        before.group()
                    } else {
                        None
                    }
                },
            },
            group == match old(self).instances@[idx as int].handle {
                Some(h) => if final(self).instances@[idx as int].phase == Phase::Terminating {
                    Some(h.pgid)
                } else {
                    None
                },
                None => None,
            },
    {
        let a = match self.manifest.app_index(self.instances[idx].app.as_str()) {
            None => {
                return None;
            },
            Some(a) => a,
        };
        let app = &self.manifest.apps[a];
        let inst = &mut self.instances[idx];
        inst.next_live_probe = after_ms(now, millis(app.live_period));
        if ok {
            inst.consecutive_live_fail = 0;
            None
        } else {
            inst.consecutive_live_fail = inst.consecutive_live_fail.saturating_add(1);
            if inst.consecutive_live_fail >= app.live_failures {
                begin_stop(inst, true, now)
            } else {
                None
            }
        }
    }
}

/// The address that an instance listens on.
fn local_address(port: u16) -> (r: String)
    ensures
        r@ == local_addr(port),
{
    let p = decimal(port as u64);
    join2("127.0.0.1:", p.as_str())
}

/// A readiness probe never stops an instance that has been ready: whatever it answers, the
/// instance is ready or unready after it.
pub proof fn law_readiness_never_restarts_after_ready(inst: Instance, ok: bool, now: u64)
    requires
        inst.phase == Phase::Ready || inst.phase == Phase::Unready,
    ensures
        after_readiness(inst, ok, now).phase == if ok {
            Phase::Ready
        } else {
            Phase::Unready
        },
        after_readiness(inst, ok, now).handle == inst.handle,
{
}

/// The instance after one failed liveness probe at each of the first `n` times.
pub open spec fn after_failures(inst: Instance, app: App, times: Seq<u64>, n: int) -> Instance
    decreases n,
{
    if n <= 0 {
        inst
    } else {
        after_liveness(after_failures(inst, app, times, n - 1), app, false, times[n - 1])
    }
}

/// An instance is restarted by liveness exactly when as many probes in a row have failed as its
/// app allows: not by fewer, and by that many.
pub proof fn law_liveness_restarts_at_threshold(inst: Instance, app: App, times: Seq<u64>, n: int)
    requires
        1 <= n <= times.len(),
        n <= app.live_failures,
        inst.consecutive_live_fail == 0,
        inst.phase != Phase::Terminating,
    ensures
        after_failures(inst, app, times, n).consecutive_live_fail == n,
        after_failures(inst, app, times, n).phase == if n < app.live_failures {
            inst.phase
        } else {
            Phase::Terminating
        },
        n == app.live_failures ==> after_failures(inst, app, times, n).restart_after_stop,
    decreases n,
{
    if n > 1 {
        law_liveness_restarts_at_threshold(inst, app, times, n - 1);
    } else {
        assert(after_failures(inst, app, times, 0) == inst);
    }
}

/// One probe that is answered makes the count of failures start anew.
pub proof fn law_answer_clears_failures(inst: Instance, app: App, now: u64)
    ensures
        after_liveness(inst, app, true, now).consecutive_live_fail == 0,
        after_liveness(inst, app, true, now).phase == inst.phase,
{
}

} // verus!
