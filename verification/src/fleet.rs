//! The instances of the cluster one by one: what is known of each, and what becomes of it when it
//! is stopped or exits.

use crate::manifest::Defaults;
use crate::state::Phase;
use vstd::prelude::*;

verus! {

/// Milliseconds between the request to stop an instance and its being killed.
pub const STOP_GRACE: u64 = 10_000;

/// Milliseconds after which an instance that outlives a kill is killed again.
pub const KILL_RETRY: u64 = 2_000;

/// A running process.
#[derive(Debug, Clone, Copy, PartialEq, Eq, Structural)]
pub struct Handle {
    /// Which of the started processes it is.
    pub id: u64,
    /// Its process id, where the system still knows it.
    pub pid: Option<u32>,
    /// The process group that it leads.
    pub pgid: i32,
}

/// One place for a process: the replica of an app that it is for, and all that is known of the
/// process that fills it. Times are milliseconds of one clock that does not go back.
#[derive(Debug)]
pub struct Instance {
    pub app: String,
    pub replica: u32,
    pub port: u16,
    /// The fingerprint of the specification that it was started with.
    pub spec_hash: u64,
    pub handle: Option<Handle>,
    pub phase: Phase,
    pub restarts: u32,
    pub started_at: Option<u64>,
    pub backoff_until: Option<u64>,
    pub ready_deadline: Option<u64>,
    pub kill_deadline: Option<u64>,
    /// Whether it is started again once it has stopped.
    pub restart_after_stop: bool,
    pub consecutive_live_fail: u32,
    pub next_ready_probe: u64,
    pub next_live_probe: u64,
    pub ever_ready: bool,
}

/// A time after another, or the end of time.
pub open spec fn later(now: u64, ms: u64) -> u64 {
    if now + ms > u64::MAX {
        u64::MAX
    } else {
        (now + ms) as u64
    }
}

/// The time `ms` milliseconds after `now`.
pub fn after_ms(now: u64, ms: u64) -> (r: u64)
    ensures
        r == later(now, ms),
{
    now.saturating_add(ms)
}

/// Seconds as milliseconds, or as many as there can be.
pub open spec fn secs_as_ms(secs: u64) -> u64 {
    if secs * 1000 > u64::MAX {
        u64::MAX
    } else {
        (secs * 1000) as u64
    }
}

/// `secs` seconds in milliseconds.
pub fn millis(secs: u64) -> (r: u64)
    ensures
        r == secs_as_ms(secs),
{
    match secs.checked_mul(1000) {
        Some(ms) => ms,
        None => u64::MAX,
    }
}

/// Two to the power of `n`.
pub open spec fn power_of_two(n: nat) -> nat
    decreases n,
{
    if n == 0 {
        1
    } else {
        2 * power_of_two((n - 1) as nat)
    }
}

/// How often the delay has doubled by the given restart.
pub open spec fn doublings(restarts: u32) -> nat {
    if restarts == 0 {
        0
    } else if restarts > 21 {
        20
    } else {
        (restarts - 1) as nat
    }
}

/// The delay before a restart: the base delay, doubled with each restart after the first, and
/// never more than the cap.
pub open spec fn backoff(base_ms: u64, cap_ms: u64, restarts: u32) -> u64 {
    if base_ms * power_of_two(doublings(restarts)) >= cap_ms {
        cap_ms
    } else {
        (base_ms * power_of_two(doublings(restarts))) as u64
    }
}

/// The delay in milliseconds before the given restart.
pub fn backoff_delay(base_ms: u64, cap_ms: u64, restarts: u32) -> (r: u64)
    ensures
        r == backoff(base_ms, cap_ms, restarts),
{
    let mut left: u32 = if restarts == 0 {
        0
    } else if restarts > 21 {
        20
    } else {
        restarts - 1
    };
    let ghost n = doublings(restarts);
    let mut ms: u64 = base_ms;
    let ghost done: nat = 0;
    proof {
        lemma_no_doubling(base_ms);
    }
    while left > 0
        invariant
            left <= n,
            done + left == n,
            n == doublings(restarts),
            ms == base_ms * power_of_two(done),
        decreases left,
    {
        proof {
            lemma_power_of_two_grows(done, n);
            assert(base_ms * power_of_two(done + 1) == 2 * (base_ms * power_of_two(done)))
                by (nonlinear_arith)
                requires
                    power_of_two(done + 1) == 2 * power_of_two(done),
            ;
            lemma_power_of_two_grows(done + 1, n);
            assert(base_ms * power_of_two(done + 1) <= base_ms * power_of_two(n))
                by (nonlinear_arith)
                requires
                    power_of_two(done + 1) <= power_of_two(n),
                    base_ms >= 0,
            ;
        }
        match ms.checked_mul(2) {
            Some(next) => {
                ms = next;
            },
            None => {
                return cap_ms;
            },
        }
        proof {
            done = done + 1;
        }
        left -= 1;
    }
    if ms < cap_ms {
        ms
    } else {
        cap_ms
    }
}

proof fn lemma_no_doubling(base_ms: u64)
    ensures
        base_ms * power_of_two(0) == base_ms,
{
    assert(power_of_two(0) == 1);
    assert(base_ms * power_of_two(0) == base_ms) by (nonlinear_arith)
        requires
            power_of_two(0) == 1,
    ;
}

proof fn lemma_power_of_two_grows(a: nat, b: nat)
    requires
        a <= b,
    ensures
        1 <= power_of_two(a) <= power_of_two(b),
    decreases b,
{
    if a < b {
        lemma_power_of_two_grows(a, (b - 1) as nat);
    } else if a > 0 {
        lemma_power_of_two_grows((a - 1) as nat, (a - 1) as nat);
    }
}

proof fn lemma_more_doublings(base_ms: u64, a: u32, b: u32)
    requires
        a <= b,
    ensures
        base_ms * power_of_two(doublings(a)) <= base_ms * power_of_two(doublings(b)),
{
    let x = doublings(a);
    let y = doublings(b);
    lemma_power_of_two_grows(x, y);
    assert(base_ms * power_of_two(x) <= base_ms * power_of_two(y)) by (nonlinear_arith)
        requires
            power_of_two(x) <= power_of_two(y),
            base_ms >= 0,
    ;
}

/// The delay never passes the cap and never shrinks as restarts add up.
pub proof fn law_backoff_grows_within_cap(base_ms: u64, cap_ms: u64, a: u32, b: u32)
    requires
        a <= b,
    ensures
        backoff(base_ms, cap_ms, a) <= backoff(base_ms, cap_ms, b) <= cap_ms,
{
    lemma_more_doublings(base_ms, a, b);
}

/// The delay is the base delay at the first restart, and doubles with each further one until it
/// meets the cap or the twentieth doubling.
pub proof fn law_backoff_doubles_up_to_cap(base_ms: u64, cap_ms: u64, restarts: u32)
    requires
        1 <= restarts <= 20,
    ensures
        backoff(base_ms, cap_ms, 1) == if base_ms < cap_ms {
            base_ms
        } else {
            cap_ms
        },
        backoff(base_ms, cap_ms, (restarts + 1) as u32) == if 2 * backoff(
            base_ms,
            cap_ms,
            restarts,
        ) < cap_ms {
            (2 * backoff(base_ms, cap_ms, restarts)) as u64
        } else {
            cap_ms
        },
{
    let a = doublings(restarts);
    let b = doublings((restarts + 1) as u32);
    lemma_more_doublings(base_ms, restarts, (restarts + 1) as u32);
    lemma_no_doubling(base_ms);
    assert(b == a + 1);
    assert(base_ms * power_of_two(b) == 2 * (base_ms * power_of_two(a))) by (nonlinear_arith)
        requires
            power_of_two(b) == 2 * power_of_two(a),
    ;
}

impl Instance {
    /// Whether a process fills the place.
    pub open spec fn running(&self) -> bool {
        self.handle is Some
    }

    /// A process fills the place exactly while the instance is started, ready, unready or being
    /// shut down.
    pub open spec fn wf(&self) -> bool {
        self.running() <==> !(self.phase == Phase::Pending || self.phase
            == Phase::CrashLoopBackOff)
    }

    /// Whether it is the given replica of the given app.
    pub open spec fn fills(&self, app: Seq<char>, replica: u32) -> bool {
        self.app@ == app && self.replica == replica
    }

    /// An instance that waits to be started.
    pub open spec fn waiting(app: String, replica: u32, port: u16, spec_hash: u64, now: u64) -> Instance {
        Instance {
            app,
            replica,
            port,
            spec_hash,
            handle: None,
            phase: Phase::Pending,
            restarts: 0,
            started_at: None,
            backoff_until: None,
            ready_deadline: None,
            kill_deadline: None,
            restart_after_stop: false,
            consecutive_live_fail: 0,
            next_ready_probe: now,
            next_live_probe: now,
            ever_ready: false,
        }
    }

    pub fn pending(app: String, replica: u32, port: u16, spec_hash: u64, now: u64) -> (r: Instance)
        ensures
            r == Instance::waiting(app, replica, port, spec_hash, now),
            r.wf(),
    {
        Instance {
            app,
            replica,
            port,
            spec_hash,
            handle: None,
            phase: Phase::Pending,
            restarts: 0,
            started_at: None,
            backoff_until: None,
            ready_deadline: None,
            kill_deadline: None,
            restart_after_stop: false,
            consecutive_live_fail: 0,
            next_ready_probe: now,
            next_live_probe: now,
            ever_ready: false,
        }
    }

    pub fn is_running(&self) -> (r: bool)
        ensures
            r == self.running(),
    {
        self.handle.is_some()
    }

    /// The instance after it was asked to stop.
    pub open spec fn stopped(self, respawn: bool, now: u64) -> Instance {
        Instance {
            phase: Phase::Terminating,
            restart_after_stop: respawn,
            kill_deadline: Some(later(now, STOP_GRACE)),
            ..self
        }
    }

    /// The process group to signal.
    pub open spec fn group(&self) -> Option<i32> {
        match self.handle {
            Some(h) => Some(h.pgid),
            None => None,
        }
    }

    /// A second value that is the same in every part.
    pub fn duplicate(&self) -> (r: Instance)
        ensures
            r == *self,
    {
        Instance {
            app: self.app.clone(),
            replica: self.replica,
            port: self.port,
            spec_hash: self.spec_hash,
            handle: self.handle,
            phase: self.phase,
            restarts: self.restarts,
            started_at: self.started_at,
            backoff_until: self.backoff_until,
            ready_deadline: self.ready_deadline,
            kill_deadline: self.kill_deadline,
            restart_after_stop: self.restart_after_stop,
            consecutive_live_fail: self.consecutive_live_fail,
            next_ready_probe: self.next_ready_probe,
            next_live_probe: self.next_live_probe,
            ever_ready: self.ever_ready,
        }
    }
}

/// Asks an instance to stop: its process group is to be sent a request to terminate, and if it has
/// not exited when the grace is over it is killed. `respawn` says whether it is started again
/// after that.
pub fn begin_stop(inst: &mut Instance, respawn: bool, now: u64) -> (group: Option<i32>)
    ensures
        *final(inst) == old(inst).stopped(respawn, now),
        group == old(inst).group(),
{
    let group = match inst.handle {
        Some(h) => Some(h.pgid),
        None => None,
    };
    inst.phase = Phase::Terminating;
    inst.restart_after_stop = respawn;
    inst.kill_deadline = Some(after_ms(now, STOP_GRACE));
    group
}

/// What the system says of a process that was asked for.
#[derive(Debug, Clone, Copy, PartialEq, Eq, Structural)]
pub enum Exit {
    /// It has exited.
    Exited,
    /// It is still running.
    Running,
    /// The system could not tell.
    Unknown,
}

/// How long an instance has been up.
pub open spec fn uptime(started_at: Option<u64>, now: u64) -> u64 {
    match started_at {
        Some(t) if t <= now => (now - t) as u64,
        _ => 0,
    }
}

/// How long a process that was started at `started_at` has been up, in milliseconds.
pub fn uptime_ms(started_at: Option<u64>, now: u64) -> (r: u64)
    ensures
        r == uptime(started_at, now),
{
    match started_at {
        Some(t) => now.saturating_sub(t),
        None => 0,
    }
}

/// One more, or as many as there can be.
pub open spec fn one_more(n: u32) -> u32 {
    if n == u32::MAX {
        n
    } else {
        (n + 1) as u32
    }
}

/// The instance after its start failed or its process was lost: it waits out the delay for its
/// next restart.
pub open spec fn backed_off(inst: Instance, restarts: u32, now: u64, d: Defaults) -> Instance {
    Instance {
        restarts: one_more(restarts),
        backoff_until: Some(
            later(now, backoff(d.restart_backoff_ms, d.restart_backoff_max_ms, one_more(restarts))),
        ),
        phase: Phase::CrashLoopBackOff,
        ..inst
    }
}

/// Whether an instance outlived its grace.
pub open spec fn kill_due(inst: Instance, exit: Exit, now: u64) -> bool {
    &&& inst.running()
    &&& exit == Exit::Running
    &&& inst.phase == Phase::Terminating
    &&& inst.kill_deadline matches Some(dl)
    &&& now >= dl
}

/// What becomes of an instance once it is known whether its process has exited; `None` where it
/// is dropped. An exit that was not asked for, or was asked for with a restart to follow, leads
/// to a delay and a restart; any other drops the instance. One that was up long enough starts
/// counting its restarts anew.
pub open spec fn reaped(inst: Instance, exit: Exit, now: u64, d: Defaults) -> Option<Instance> {
    if !inst.running() {
        Some(inst)
    } else if exit == Exit::Exited {
        if inst.phase != Phase::Terminating || inst.restart_after_stop {
            let count = if uptime(inst.started_at, now) >= secs_as_ms(d.stable_after_secs) {
                0
            } else {
                inst.restarts
            };
            Some(
                Instance {
                    handle: None,
                    started_at: None,
                    ever_ready: false,
                    restart_after_stop: false,
                    ..backed_off(inst, count, now, d)
                },
            )
        } else {
            None
        }
    } else if kill_due(inst, exit, now) {
        Some(Instance { kill_deadline: Some(later(now, KILL_RETRY)), ..inst })
    } else {
        Some(inst)
    }
}

/// The first `n` results of `f`, without those that are `None`.
pub open spec fn kept(f: spec_fn(int) -> Option<Instance>, n: int) -> Seq<Instance>
    decreases n,
{
    if n <= 0 {
        seq![]
    } else {
        match f(n - 1) {
            Some(i) => kept(f, n - 1).push(i),
            None => kept(f, n - 1),
        }
    }
}

/// What is kept of one place is in the list of what is kept.
pub proof fn lemma_kept_contains(f: spec_fn(int) -> Option<Instance>, n: int, i: int)
    requires
        0 <= i < n,
        f(i) is Some,
    ensures
        kept(f, n).contains(f(i)->0),
    decreases n,
{
    let all = kept(f, n);
    if i == n - 1 {
        assert(all[all.len() - 1] == f(i)->0);
    } else {
        lemma_kept_contains(f, n - 1, i);
        let before = kept(f, n - 1);
        let k = choose|k: int| 0 <= k < before.len() && before[k] == f(i)->0;
        assert(all[k] == f(i)->0);
    }
}

/// What becomes of the instances at the places of a list.
pub open spec fn reaping(insts: Seq<Instance>, exits: Seq<Exit>, now: u64, d: Defaults) -> (
spec_fn(int) -> Option<Instance>) {
    |i: int| reaped(insts[i], exits[i], now, d)
}

/// The process groups of the first `n` instances that outlived their grace.
pub open spec fn overdue(insts: Seq<Instance>, exits: Seq<Exit>, now: u64, n: int) -> Seq<i32>
    decreases n,
{
    if n <= 0 {
        seq![]
    } else if kill_due(insts[n - 1], exits[n - 1], now) {
        overdue(insts, exits, now, n - 1).push(insts[n - 1].group()->0)
    } else {
        overdue(insts, exits, now, n - 1)
    }
}

/// Every instance of a list is well formed.
pub open spec fn all_wf(insts: Seq<Instance>) -> bool {
    forall|i: int| 0 <= i < insts.len() ==> (#[trigger] insts[i]).wf()
}

/// What becomes of one instance whose process was asked for. Returns whether it is dropped, and
/// the process group to kill if it outlived its grace.
fn reap_one(inst: &mut Instance, exit: Exit, now: u64, defaults: &Defaults) -> (r: (
    bool,
    Option<i32>,
))
    ensures
        match reaped(*old(inst), exit, now, *defaults) {
            Some(i) => !r.0 && *final(inst) == i,
            None => r.0,
        },
        r.1 == if kill_due(*old(inst), exit, now) {
            old(inst).group()
        } else {
            None
        },
{
    let handle = match inst.handle {
        Some(h) => h,
        None => {
            return (false, None);
        },
    };
    match exit {
        Exit::Exited => {
            if inst.phase != Phase::Terminating || inst.restart_after_stop {
                let up = uptime_ms(inst.started_at, now);
                if up >= millis(defaults.stable_after_secs) {
                    inst.restarts = 0;
                }
                inst.restarts = inst.restarts.saturating_add(1);
                let delay = backoff_delay(
                    defaults.restart_backoff_ms,
                    defaults.restart_backoff_max_ms,
                    inst.restarts,
                );
                inst.handle = None;
                inst.started_at = None;
                inst.ever_ready = false;
                inst.backoff_until = Some(after_ms(now, delay));
                inst.phase = Phase::CrashLoopBackOff;
                inst.restart_after_stop = false;
                (false, None)
            } else {
                (true, None)
            }
        },
        Exit::Running => {
            if inst.phase == Phase::Terminating {
                if let Some(dl) = inst.kill_deadline {
                    if now >= dl {
                        inst.kill_deadline = Some(after_ms(now, KILL_RETRY));
                        return (false, Some(handle.pgid));
                    }
                }
            }
            (false, None)
        },
        Exit::Unknown => (false, None),
    }
}

/// Takes note of which processes have exited, `exits` holding one word for each instance. Drops
/// the instances that were to go, and returns the process groups to kill.
pub fn reap_exited(
    instances: &mut Vec<Instance>,
    exits: &Vec<Exit>,
    now: u64,
    defaults: &Defaults,
) -> (kill: Vec<i32>)
    requires
        exits@.len() == old(instances)@.len(),
    ensures
        final(instances)@ == kept(
            reaping(old(instances)@, exits@, now, *defaults),
            exits@.len() as int,
        ),
        kill@ == overdue(old(instances)@, exits@, now, exits@.len() as int),
        all_wf(old(instances)@) ==> all_wf(final(instances)@),
{
    let ghost all = old(instances)@;
    let ghost f = reaping(all, exits@, now, *defaults);
    let mut kill: Vec<i32> = Vec::new();
    let mut done: usize = 0;
    let mut at: usize = 0;
    while done < exits.len()
        invariant
            done <= exits@.len(),
            exits@.len() == all.len(),
            f == reaping(all, exits@, now, *defaults),
            at <= done,
            instances@.len() == at + (all.len() - done),
            instances@ == kept(f, done as int) + all.skip(done as int),
            kept(f, done as int).len() == at,
            kill@ == overdue(all, exits@, now, done as int),
            all_wf(all) ==> all_wf(kept(f, done as int)),
        decreases exits@.len() - done,
    {
        let ghost head = kept(f, done as int);
        assert(instances@[at as int] == all[done as int]);
        let (drop, group) = reap_one(&mut instances[at], exits[done], now, defaults);
        match group {
            Some(g) => kill.push(g),
            None => {},
        }
        assert(all.skip(done as int).skip(1) =~= all.skip(done + 1));
        if drop {
            instances.remove(at);
            assert(instances@ =~= head + all.skip(done + 1));
        } else {
            assert(instances@ =~= head.push(f(done as int)->0) + all.skip(done + 1));
            at += 1;
        }
        done += 1;
    }
    assert(all.skip(done as int) =~= seq![]);
    assert(kept(f, done as int) + seq![] =~= kept(f, done as int));
    kill
}

/// An instance that exits is dropped only where it was asked to stop with no restart to follow;
/// any other is started again, and once it was up long enough its restarts are counted anew.
pub proof fn law_exit_restarts_unless_retired(inst: Instance, now: u64, d: Defaults)
    requires
        inst.running(),
    ensures
        reaped(inst, Exit::Exited, now, d) is None <==> inst.phase == Phase::Terminating
            && !inst.restart_after_stop,
        reaped(inst, Exit::Exited, now, d) matches Some(i) ==> i.phase == Phase::CrashLoopBackOff
            && !i.running() && i.restarts == if uptime(inst.started_at, now) >= secs_as_ms(
            d.stable_after_secs,
        ) {
            1
        } else {
            one_more(inst.restarts)
        } && i.backoff_until == Some(
            later(now, backoff(d.restart_backoff_ms, d.restart_backoff_max_ms, i.restarts)),
        ),
{
}

/// An instance that ignores the request to stop is killed once its grace is over, and not before.
pub proof fn law_ignored_stop_is_killed(inst: Instance, respawn: bool, asked: u64, now: u64)
    requires
        inst.running(),
        asked + STOP_GRACE <= u64::MAX,
    ensures
        kill_due(inst.stopped(respawn, asked), Exit::Running, now) <==> now >= asked + STOP_GRACE,
{
}

/// How many instances of a list have a property.
pub open spec fn count(insts: Seq<Instance>, p: spec_fn(Instance) -> bool) -> nat
    decreases insts.len(),
{
    if insts.len() == 0 {
        0
    } else {
        count(insts.drop_last(), p) + if p(insts.last()) {
            1nat
        } else {
            0
        }
    }
}

/// Being an instance of an app.
pub open spec fn of_app(app: Seq<char>) -> spec_fn(Instance) -> bool {
    |i: Instance| i.app@ == app
}

/// Being a ready instance of an app.
pub open spec fn ready_of(app: Seq<char>) -> spec_fn(Instance) -> bool {
    |i: Instance| i.app@ == app && i.phase == Phase::Ready
}

/// Changing one instance changes the count by that instance alone.
pub proof fn lemma_count_update(
    insts: Seq<Instance>,
    k: int,
    inst: Instance,
    p: spec_fn(Instance) -> bool,
)
    requires
        0 <= k < insts.len(),
    ensures
        count(insts.update(k, inst), p) + (if p(insts[k]) {
            1nat
        } else {
            0
        }) == count(insts, p) + (if p(inst) {
            1nat
        } else {
            0
        }),
    decreases insts.len(),
{
    let after = insts.update(k, inst);
    if k == insts.len() - 1 {
        assert(after.drop_last() =~= insts.drop_last());
    } else {
        lemma_count_update(insts.drop_last(), k, inst, p);
        assert(after.drop_last() =~= insts.drop_last().update(k, inst));
    }
}

/// Taking one instance out changes the count by that instance alone.
pub proof fn lemma_count_remove(insts: Seq<Instance>, k: int, p: spec_fn(Instance) -> bool)
    requires
        0 <= k < insts.len(),
    ensures
        count(insts.remove(k), p) + (if p(insts[k]) {
            1nat
        } else {
            0
        }) == count(insts, p),
    decreases insts.len(),
{
    let after = insts.remove(k);
    if k == insts.len() - 1 {
        assert(after =~= insts.drop_last());
    } else {
        lemma_count_remove(insts.drop_last(), k, p);
        assert(after.drop_last() =~= insts.drop_last().remove(k));
        assert(after.last() == insts.last());
    }
}

/// One more instance changes the count by that instance alone.
pub proof fn lemma_count_push(insts: Seq<Instance>, inst: Instance, p: spec_fn(Instance) -> bool)
    ensures
        count(insts.push(inst), p) == count(insts, p) + if p(inst) {
            1nat
        } else {
            0
        },
{
    assert(insts.push(inst).drop_last() =~= insts);
}

/// What becomes of an instance that is no longer wanted: it is stopped, or dropped where no process
/// fills it.
pub open spec fn retired(inst: Instance, now: u64) -> Option<Instance> {
    if inst.running() {
        Some(inst.stopped(false, now))
    } else {
        None
    }
}

/// What becomes of the instances of a list when the marked ones are retired.
pub open spec fn retiring(insts: Seq<Instance>, marks: spec_fn(int) -> bool, now: u64) -> (spec_fn(
    int,
) -> Option<Instance>) {
    |i: int|
        if marks(i) {
            retired(insts[i], now)
        } else {
            Some(insts[i])
        }
}

/// The process groups of the marked ones among the first `n` instances.
pub open spec fn marked_groups(insts: Seq<Instance>, marks: spec_fn(int) -> bool, n: int) -> Seq<i32>
    decreases n,
{
    if n <= 0 {
        seq![]
    } else if marks(n - 1) && insts[n - 1].running() {
        marked_groups(insts, marks, n - 1).push(insts[n - 1].group()->0)
    } else {
        marked_groups(insts, marks, n - 1)
    }
}

/// A list of marks as a property of places.
pub open spec fn marked(marks: Seq<bool>) -> spec_fn(int) -> bool {
    |i: int| marks[i]
}

/// Marks that agree retire alike.
pub proof fn lemma_same_marks(
    insts: Seq<Instance>,
    a: spec_fn(int) -> bool,
    b: spec_fn(int) -> bool,
    now: u64,
    n: int,
)
    requires
        forall|i: int| 0 <= i < n ==> #[trigger] a(i) == b(i),
    ensures
        kept(retiring(insts, a, now), n) == kept(retiring(insts, b, now), n),
        marked_groups(insts, a, n) == marked_groups(insts, b, n),
    decreases n,
{
    if n > 0 {
        lemma_same_marks(insts, a, b, now, n - 1);
        assert(a(n - 1) == b(n - 1));
    }
}

/// Retires the marked instances, and returns the process groups to ask to terminate.
pub fn retire_marked(instances: &mut Vec<Instance>, marks: &Vec<bool>, now: u64) -> (groups: Vec<i32>)
    requires
        marks@.len() == old(instances)@.len(),
    ensures
        final(instances)@ == kept(
            retiring(old(instances)@, marked(marks@), now),
            marks@.len() as int,
        ),
        groups@ == marked_groups(old(instances)@, marked(marks@), marks@.len() as int),
        all_wf(old(instances)@) ==> all_wf(final(instances)@),
{
    let ghost all = old(instances)@;
    let ghost f = retiring(all, marked(marks@), now);
    let mut groups: Vec<i32> = Vec::new();
    let mut done: usize = 0;
    let mut at: usize = 0;
    while done < marks.len()
        invariant
            done <= marks@.len(),
            marks@.len() == all.len(),
            f == retiring(all, marked(marks@), now),
            at <= done,
            instances@.len() == at + (all.len() - done),
            instances@ == kept(f, done as int) + all.skip(done as int),
            kept(f, done as int).len() == at,
            groups@ == marked_groups(all, marked(marks@), done as int),
            all_wf(all) ==> all_wf(kept(f, done as int)),
        decreases marks@.len() - done,
    {
        let ghost head = kept(f, done as int);
        assert(instances@[at as int] == all[done as int]);
        assert(all.skip(done as int).skip(1) =~= all.skip(done + 1));
        if marks[done] && !instances[at].is_running() {
            instances.remove(at);
            assert(instances@ =~= head + all.skip(done + 1));
        } else {
            if marks[done] {
                match begin_stop(&mut instances[at], false, now) {
                    Some(g) => groups.push(g),
                    None => {},
                }
            }
            assert(instances@ =~= head.push(f(done as int)->0) + all.skip(done + 1));
            at += 1;
        }
        done += 1;
    }
    assert(all.skip(done as int) =~= seq![]);
    assert(kept(f, done as int) + seq![] =~= kept(f, done as int));
    groups
}

/// The instances with the marked ones asked to stop.
pub open spec fn stopping(
    insts: Seq<Instance>,
    marks: spec_fn(int) -> bool,
    respawn: bool,
    now: u64,
) -> Seq<Instance> {
    Seq::new(
        insts.len(),
        |i: int|
            if marks(i) {
                insts[i].stopped(respawn, now)
            } else {
                insts[i]
            },
    )
}

/// Asks the marked instances to stop, and returns the process groups to ask to terminate.
pub fn stop_marked(instances: &mut Vec<Instance>, marks: &Vec<bool>, respawn: bool, now: u64) -> (groups:
    Vec<i32>)
    requires
        marks@.len() == old(instances)@.len(),
    ensures
        final(instances)@ == stopping(old(instances)@, marked(marks@), respawn, now),
        groups@ == marked_groups(old(instances)@, marked(marks@), marks@.len() as int),
{
    let ghost all = old(instances)@;
    let ghost after = stopping(all, marked(marks@), respawn, now);
    let mut groups: Vec<i32> = Vec::new();
    let mut i: usize = 0;
    while i < marks.len()
        invariant
            i <= marks@.len(),
            marks@.len() == all.len(),
            after == stopping(all, marked(marks@), respawn, now),
            instances@.len() == all.len(),
            forall|j: int| 0 <= j < i ==> #[trigger] instances@[j] == after[j],
            forall|j: int| i <= j < all.len() ==> #[trigger] instances@[j] == all[j],
            groups@ == marked_groups(all, marked(marks@), i as int),
        decreases marks@.len() - i,
    {
        if marks[i] {
            match begin_stop(&mut instances[i], respawn, now) {
                Some(g) => groups.push(g),
                None => {},
            }
        }
        i += 1;
    }
    assert(instances@ =~= after);
    groups
}

} // verus!
