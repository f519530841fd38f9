//! What happens to single instances, stated over the fields of the manifest and of the instances
//! alone: who is probed, stopped, killed and started, and who is left in peace.

use crate::fingerprint::fingerprint;
use crate::fleet::{
    backoff, kept, law_backoff_doubles_up_to_cap, marked_groups, overdue, reaped, reaping, stopping,
    Exit, Handle, Instance,
};
use crate::health::{after_liveness, after_readiness, liveness_due, readiness_due};
use crate::manifest::{lemma_first_named, App, Defaults, Manifest};
use crate::reconcile::{check_news, check_round};
use crate::scale::{blocked, check_blocked, failing};
use crate::spawn::{after_launch, dependency_met, law_started_iff_startable, to_start};
use crate::state::Phase;
use crate::teardown::{
    all_going, all_settled, any_running, is_next_step, running_groups, TeardownStep,
};
use crate::tick::{loop_choice, LoopStep};
use vstd::prelude::*;

verus! {

/// A time ten seconds after another, or the end of time.
pub open spec fn ten_seconds_after(now: u64) -> u64 {
    if now + 10_000 > u64::MAX {
        u64::MAX
    } else {
        (now + 10_000) as u64
    }
}

/// An instance that was asked to stop at `now`.
pub open spec fn asked_to_stop(inst: Instance, again: bool, now: u64) -> Instance {
    Instance {
        phase: Phase::Terminating,
        restart_after_stop: again,
        kill_deadline: Some(ten_seconds_after(now)),
        ..inst
    }
}

/// Whether `src` says where the process groups of a list come from: each is that of an instance
/// with the property, in the order of the instances, and no such instance is left out.
pub open spec fn comes_from(
    groups: Seq<i32>,
    insts: Seq<Instance>,
    p: spec_fn(int) -> bool,
    src: Seq<int>,
) -> bool {
    &&& src.len() == groups.len()
    &&& forall|k: int|
        0 <= k < src.len() ==> 0 <= #[trigger] src[k] < insts.len() && p(src[k]) && (
        insts[src[k]].handle matches Some(h) && groups[k] == h.pgid)
    &&& forall|k: int, l: int| 0 <= k < l < src.len() ==> #[trigger] src[k] < #[trigger] src[l]
    &&& forall|i: int| 0 <= i < insts.len() && #[trigger] p(i) ==> src.contains(i)
}

/// Whether a list holds exactly the process groups of the instances with a property, in order.
pub open spec fn are_groups_of(
    groups: Seq<i32>,
    insts: Seq<Instance>,
    p: spec_fn(int) -> bool,
) -> bool {
    exists|src: Seq<int>| #[trigger] comes_from(groups, insts, p, src)
}

pub open spec fn picked(p: spec_fn(int) -> bool, n: int) -> Seq<int>
    decreases n,
{
    if n <= 0 {
        seq![]
    } else if p(n - 1) {
        picked(p, n - 1).push(n - 1)
    } else {
        picked(p, n - 1)
    }
}

proof fn lemma_picked(p: spec_fn(int) -> bool, n: int)
    requires
        0 <= n,
    ensures
        forall|k: int|
            0 <= k < picked(p, n).len() ==> 0 <= #[trigger] picked(p, n)[k] < n && p(
                picked(p, n)[k],
            ),
        forall|k: int, l: int|
            0 <= k < l < picked(p, n).len() ==> #[trigger] picked(p, n)[k] < #[trigger] picked(
                p,
                n,
            )[l],
        forall|i: int| 0 <= i < n && #[trigger] p(i) ==> picked(p, n).contains(i),
    decreases n,
{
    if n > 0 {
        lemma_picked(p, n - 1);
        let before = picked(p, n - 1);
        let after = picked(p, n);
        assert forall|i: int| 0 <= i < n && #[trigger] p(i) implies after.contains(i) by {
            if i == n - 1 {
                assert(after[before.len() as int] == i);
            } else {
                assert(before.contains(i));
                let k = choose|k: int| 0 <= k < before.len() && before[k] == i;
                assert(after[k] == i);
            }
        }
    }
}

/// Makes the listing of a list of groups from its places.
pub proof fn lemma_groups_from(
    groups: Seq<i32>,
    insts: Seq<Instance>,
    p: spec_fn(int) -> bool,
)
    requires
        groups.len() == picked(p, insts.len() as int).len(),
        forall|i: int| 0 <= i < insts.len() && #[trigger] p(i) ==> insts[i].handle is Some,
        forall|k: int|
            0 <= k < groups.len() ==> #[trigger] groups[k] == insts[picked(
                p,
                insts.len() as int,
            )[k]].handle->0.pgid,
    ensures
        are_groups_of(groups, insts, p),
{
    let n = insts.len() as int;
    lemma_picked(p, n);
    let src = picked(p, n);
    assert forall|k: int| 0 <= k < src.len() implies 0 <= #[trigger] src[k] < insts.len() && p(
        src[k],
    ) && (insts[src[k]].handle matches Some(h) && groups[k] == h.pgid) by {
        assert(p(src[k]));
        assert(groups[k] == insts[picked(p, n)[k]].handle->0.pgid);
    }
    assert(comes_from(groups, insts, p, src));
}

// Lists that lose some of their instances.

/// Whether `src` says where the instances of a list come from, when each place of a list of `n`
/// gives one or none: each comes from a place of its own, in the order of the places, and nothing
/// that a place gives is left out.
pub open spec fn stems_from(
    after: Seq<Instance>,
    f: spec_fn(int) -> Option<Instance>,
    n: int,
    src: Seq<int>,
) -> bool {
    &&& src.len() == after.len()
    &&& forall|k: int|
        0 <= k < src.len() ==> 0 <= #[trigger] src[k] < n && f(src[k]) == Some(after[k])
    &&& forall|k: int, l: int| 0 <= k < l < src.len() ==> #[trigger] src[k] < #[trigger] src[l]
    &&& forall|i: int| 0 <= i < n && (#[trigger] f(i)) is Some ==> src.contains(i)
}

pub proof fn lemma_stems_from(f: spec_fn(int) -> Option<Instance>, n: int)
    requires
        0 <= n,
    ensures
        stems_from(kept(f, n), f, n, picked(|i: int| f(i) is Some, n)),
    decreases n,
{
    let p = |i: int| f(i) is Some;
    lemma_picked(p, n);
    if n > 0 {
        lemma_stems_from(f, n - 1);
        let src = picked(p, n);
        let before = picked(p, n - 1);
        assert forall|k: int| 0 <= k < src.len() implies 0 <= #[trigger] src[k] < n && f(src[k])
            == Some(kept(f, n)[k]) by {
            assert(p(src[k]));
            if k < before.len() {
                assert(src[k] == before[k]);
            }
        }
    }
    assert forall|i: int| 0 <= i < n && (#[trigger] f(i)) is Some implies picked(p, n).contains(
        i,
    ) by {
        assert(p(i));
    }
}

// Exits.

/// Having a process that was asked to stop, is still there, and whose time is up.
pub open spec fn outlived_grace(insts: Seq<Instance>, exits: Seq<Exit>, now: u64) -> spec_fn(
    int,
) -> bool {
    |i: int|
        insts[i].handle is Some && insts[i].phase == Phase::Terminating
            && insts[i].kill_deadline is Some && insts[i].kill_deadline->0 <= now && exits[i]
            == Exit::Running
}

proof fn lemma_overdue(insts: Seq<Instance>, exits: Seq<Exit>, now: u64, n: int)
    requires
        0 <= n <= insts.len(),
    ensures
        ({
            let p = outlived_grace(insts, exits, now);
            &&& overdue(insts, exits, now, n).len() == picked(p, n).len()
            &&& forall|k: int|
                0 <= k < overdue(insts, exits, now, n).len() ==> #[trigger] overdue(
                    insts,
                    exits,
                    now,
                    n,
                )[k] == insts[picked(p, n)[k]].handle->0.pgid
        }),
    decreases n,
{
    if n > 0 {
        lemma_overdue(insts, exits, now, n - 1);
    }
}

/// Killed is exactly what was asked to stop, has not exited, and is past its time, in the order of
/// the instances.
pub proof fn law_killed_is_what_outlived_its_grace(insts: Seq<Instance>, exits: Seq<Exit>, now: u64)
    ensures
        are_groups_of(
            overdue(insts, exits, now, insts.len() as int),
            insts,
            outlived_grace(insts, exits, now),
        ),
{
    lemma_overdue(insts, exits, now, insts.len() as int);
    lemma_groups_from(
        overdue(insts, exits, now, insts.len() as int),
        insts,
        outlived_grace(insts, exits, now),
    );
}

/// Whether a process has been up for as many seconds as its app's restarts are forgotten after.
pub open spec fn was_stable(inst: Instance, now: u64, d: Defaults) -> bool {
    d.stable_after_secs == 0 || (inst.started_at is Some && inst.started_at->0
        + d.stable_after_secs * 1_000 <= now) || (d.stable_after_secs * 1_000 > u64::MAX
        && inst.started_at == Some(0u64) && now == u64::MAX)
}

/// What becomes of an instance when its process exits: one that was to go for good is dropped. Any
/// other waits out its delay before it is started again, counting one restart more, or the first
/// one where it had been up for long enough. It keeps its place, port and fingerprint.
pub proof fn law_exited_instance_waits_or_goes(inst: Instance, now: u64, d: Defaults)
    requires
        inst.handle is Some,
    ensures
        ({
            let r = reaped(inst, Exit::Exited, now, d);
            if inst.phase == Phase::Terminating && !inst.restart_after_stop {
                r is None
            } else {
                &&& r is Some
                &&& r->0 == (Instance {
                    handle: None,
                    started_at: None,
                    ever_ready: false,
                    restart_after_stop: false,
                    phase: Phase::CrashLoopBackOff,
                    restarts: r->0.restarts,
                    backoff_until: r->0.backoff_until,
                    ..inst
                })
                &&& r->0.restarts == if was_stable(inst, now, d) {
                    1
                } else if inst.restarts == u32::MAX {
                    u32::MAX as int
                } else {
                    inst.restarts + 1
                }
                &&& r->0.backoff_until is Some
                &&& r->0.backoff_until->0 == ms_after(
                    now,
                    backoff(
                        d.restart_backoff_ms,
                        d.restart_backoff_max_ms,
                        r->0.restarts,
                    ) as int,
                )
            }
        }),
{
}

/// An instance whose process has not exited stays as it is, and so does one without a process. The
/// one thing that may change is the time of the next kill, two seconds on, where it was killed.
pub proof fn law_no_exit_no_change(
    insts: Seq<Instance>,
    exits: Seq<Exit>,
    now: u64,
    d: Defaults,
    i: int,
)
    requires
        insts[i].handle is None || exits[i] != Exit::Exited,
    ensures
        ({
            let r = reaped(insts[i], exits[i], now, d);
            if outlived_grace(insts, exits, now)(i) {
                r is Some && r->0.kill_deadline is Some && r->0.kill_deadline->0 == ms_after(
                    now,
                    2_000,
                ) && r->0 == (Instance { kill_deadline: r->0.kill_deadline, ..insts[i] })
            } else {
                r == Some(insts[i])
            }
        }),
{
}

/// Taking note of the exits keeps the instances in their order, and loses exactly those whose
/// process exited after they were asked to go for good.
pub proof fn law_reaping_keeps_the_rest(
    insts: Seq<Instance>,
    exits: Seq<Exit>,
    now: u64,
    d: Defaults,
) -> (src: Seq<int>)
    requires
        exits.len() == insts.len(),
    ensures
        ({
            let after = kept(reaping(insts, exits, now, d), exits.len() as int);
            &&& stems_from(after, reaping(insts, exits, now, d), exits.len() as int, src)
            &&& forall|i: int|
                0 <= i < insts.len() ==> (src.contains(i) <==> !((#[trigger] insts[i]).handle
                    is Some && exits[i] == Exit::Exited && insts[i].phase == Phase::Terminating
                    && !insts[i].restart_after_stop))
        }),
{
    let f = reaping(insts, exits, now, d);
    let n = exits.len() as int;
    lemma_stems_from(f, n);
    let src = picked(|i: int| f(i) is Some, n);
    assert forall|i: int| 0 <= i < insts.len() implies (src.contains(i) <==> !((
    #[trigger] insts[i]).handle is Some && exits[i] == Exit::Exited && insts[i].phase
        == Phase::Terminating && !insts[i].restart_after_stop)) by {
        if src.contains(i) {
            let k = choose|k: int| 0 <= k < src.len() && src[k] == i;
            assert(f(src[k]) is Some);
        } else {
            assert(f(i) is None);
        }
    }
    src
}

/// The delay is the base delay for the first restart, doubles with each one up to the
/// twenty-first, and stays the same from there; it never passes the cap.
pub proof fn law_backoff_in_steps(base: u64, cap: u64, n: u32)
    requires
        1 <= n < u32::MAX,
    ensures
        backoff(base, cap, 1) == if base < cap {
            base
        } else {
            cap
        },
        n <= 20 ==> backoff(base, cap, (n + 1) as u32) == if 2 * backoff(base, cap, n) < cap {
            2 * backoff(base, cap, n)
        } else {
            cap as int
        },
        n > 20 ==> backoff(base, cap, (n + 1) as u32) == backoff(base, cap, n),
{
    if n <= 20 {
        law_backoff_doubles_up_to_cap(base, cap, n);
    } else {
        law_backoff_doubles_up_to_cap(base, cap, 1);
    }
}

// Probing.

/// A time some milliseconds after another, or the end of time.
pub open spec fn ms_after(now: u64, ms: int) -> int {
    if now + ms > u64::MAX {
        u64::MAX as int
    } else {
        now + ms
    }
}

/// A liveness probe is due for every instance with a process that is not stopping, has been ready
/// and is past the time of its next one, if its app has something to probe: ready or not at the
/// moment. For no other instance it is due.
pub proof fn law_liveness_is_probed_ready_or_not(inst: Instance, app: App, now: u64)
    ensures
        liveness_due(inst, app, now) <==> inst.handle is Some && inst.phase != Phase::Terminating
            && inst.ever_ready && app.live_path@.len() > 0 && inst.next_live_probe <= now,
{
}

/// A readiness probe is due for every instance with a process that is not stopping and is past
/// the time of its next one, if its app has something to probe: ready before or not. For no other
/// instance it is due.
pub proof fn law_readiness_is_probed_ready_or_not(inst: Instance, app: App, now: u64)
    ensures
        readiness_due(inst, app, now) <==> inst.handle is Some && inst.phase != Phase::Terminating
            && app.ready_path@.len() > 0 && inst.next_ready_probe <= now,
{
}

/// An answered readiness probe makes an instance ready, for the record too. An unanswered one
/// makes a ready instance unready, and restarts one that is still starting when its time is up.
/// Either way the next one follows a second later, and nothing else changes.
pub proof fn law_readiness_answer(inst: Instance, ok: bool, now: u64)
    ensures
        ({
            let r = after_readiness(inst, ok, now);
            let too_late = inst.phase == Phase::Starting && inst.ready_deadline is Some
                && inst.ready_deadline->0 <= now;
            &&& r.next_ready_probe == ms_after(now, 1_000)
            &&& ok ==> r.phase == Phase::Ready && r.ever_ready
            &&& !ok && inst.phase == Phase::Ready ==> r.phase == Phase::Unready
            &&& !ok && too_late ==> r.phase == Phase::Terminating && r.restart_after_stop
                && r.kill_deadline == Some(ten_seconds_after(now))
            &&& !ok && inst.phase != Phase::Ready && !too_late ==> r.phase == inst.phase
            &&& !ok ==> r.ever_ready == inst.ever_ready
            &&& ok || !too_late ==> r.restart_after_stop == inst.restart_after_stop
                && r.kill_deadline == inst.kill_deadline
            &&& r == (Instance {
                phase: r.phase,
                ever_ready: r.ever_ready,
                restart_after_stop: r.restart_after_stop,
                kill_deadline: r.kill_deadline,
                next_ready_probe: r.next_ready_probe,
                ..inst
            })
        }),
{
}

/// An answered liveness probe clears the count of failures, an unanswered one adds to it, and
/// stops the instance, to be started again, once the count reaches what its app allows. The next
/// one follows after the app's own period, and nothing else changes.
pub proof fn law_liveness_answer(inst: Instance, app: App, ok: bool, now: u64)
    ensures
        ({
            let r = after_liveness(inst, app, ok, now);
            let enough = inst.consecutive_live_fail + 1 >= app.live_failures;
            &&& r.next_live_probe == ms_after(now, app.live_period * 1_000)
            &&& ok ==> r.consecutive_live_fail == 0
            &&& !ok ==> r.consecutive_live_fail == inst.consecutive_live_fail + 1
                || inst.consecutive_live_fail == u32::MAX && r.consecutive_live_fail == u32::MAX
            &&& !ok && enough ==> r.phase == Phase::Terminating && r.restart_after_stop
                && r.kill_deadline == Some(ten_seconds_after(now))
            &&& ok || !enough ==> r.phase == inst.phase && r.restart_after_stop
                == inst.restart_after_stop && r.kill_deadline == inst.kill_deadline
            &&& r == (Instance {
                phase: r.phase,
                consecutive_live_fail: r.consecutive_live_fail,
                restart_after_stop: r.restart_after_stop,
                kill_deadline: r.kill_deadline,
                next_live_probe: r.next_live_probe,
                ..inst
            })
        }),
{
    assert(app.live_period * 1_000 >= 0) by (nonlinear_arith)
        requires
            app.live_period >= 0,
    ;
}

/// An instance after a round of probing that it answers nothing in: first the readiness probe,
/// where one is due, then the liveness probe, where one is.
pub open spec fn after_silence(inst: Instance, app: App, now: u64) -> Instance {
    let i = if readiness_due(inst, app, now) {
        after_readiness(inst, false, now)
    } else {
        inst
    };
    if liveness_due(i, app, now) {
        after_liveness(i, app, false, now)
    } else {
        i
    }
}

/// An instance after the first `n` rounds in which it answers nothing.
pub open spec fn after_silent_rounds(inst: Instance, app: App, times: Seq<u64>, n: int) -> Instance
    decreases n,
{
    if n <= 0 {
        inst
    } else {
        after_silence(after_silent_rounds(inst, app, times, n - 1), app, times[n - 1])
    }
}

/// An instance that has been ready and answers no probe any more is restarted after as many
/// periods as its app allows failures, counting those before; not before that. That it is no
/// longer ready after the first round does not spare it.
pub proof fn law_silent_instance_is_restarted(inst: Instance, app: App, times: Seq<u64>, n: int)
    requires
        inst.handle is Some,
        inst.phase == Phase::Ready || inst.phase == Phase::Unready,
        inst.ever_ready,
        app.live_path@.len() > 0,
        1 <= n <= times.len(),
        inst.consecutive_live_fail + n <= app.live_failures || n == 1,
        times[0] >= inst.next_live_probe,
        forall|k: int, l: int|
            0 <= k && l == k + 1 && l < times.len() ==> #[trigger] times[l] >= #[trigger] times[k]
                + app.live_period * 1_000,
    ensures
        ({
            let r = after_silent_rounds(inst, app, times, n);
            &&& r.handle == inst.handle
            &&& inst.consecutive_live_fail + n >= app.live_failures ==> r.phase
                == Phase::Terminating && r.restart_after_stop && r.kill_deadline == Some(
                ten_seconds_after(times[n - 1]),
            )
            &&& inst.consecutive_live_fail + n < app.live_failures ==> (r.phase == Phase::Ready
                || r.phase == Phase::Unready) && r.consecutive_live_fail
                == inst.consecutive_live_fail + n && r.ever_ready && r.next_live_probe == ms_after(
                times[n - 1],
                app.live_period * 1_000,
            )
            &&& app.ready_path@.len() > 0 && times[0] >= inst.next_ready_probe
                && inst.consecutive_live_fail + n < app.live_failures ==> r.phase == Phase::Unready
        }),
    decreases n,
{
    assert(app.live_period * 1_000 >= 0) by (nonlinear_arith)
        requires
            app.live_period >= 0,
    ;
    let before = after_silent_rounds(inst, app, times, n - 1);
    let now = times[n - 1];
    if n > 1 {
        law_silent_instance_is_restarted(inst, app, times, n - 1);
        assert(times[n - 1] >= times[n - 2] + app.live_period * 1_000);
    } else {
        assert(before == inst);
    }
    assert(before.phase == Phase::Ready || before.phase == Phase::Unready);
    law_liveness_is_probed_ready_or_not(before, app, now);
    law_readiness_is_probed_ready_or_not(before, app, now);
    law_readiness_answer(before, false, now);
    let i = if readiness_due(before, app, now) {
        after_readiness(before, false, now)
    } else {
        before
    };
    law_liveness_is_probed_ready_or_not(i, app, now);
    law_liveness_answer(i, app, false, now);
}

// Checks.

/// Whether an app has, among what it depends on, a name that no app has and that is known as a
/// check that does not answer.
pub open spec fn waits_for_failed_check(
    m: Manifest,
    checks: Map<Seq<char>, bool>,
    app: Seq<char>,
) -> bool {
    exists|a: int, d: int|
        0 <= a < m.apps@.len() && (#[trigger] m.apps@[a]).name@ == app && 0 <= d
            < m.apps@[a].depends_on@.len() && fails(
            m,
            checks,
            (#[trigger] m.apps@[a].depends_on@[d])@,
        )
}

/// Whether a name is no app's, and that of a check that is known not to answer.
pub open spec fn fails(m: Manifest, checks: Map<Seq<char>, bool>, dep: Seq<char>) -> bool {
    &&& forall|b: int| 0 <= b < m.apps@.len() ==> (#[trigger] m.apps@[b]).name@ != dep
    &&& checks.dom().contains(dep)
    &&& checks[dep] == false
}

pub proof fn lemma_app_is(m: Manifest, name: Seq<char>, a: int)
    requires
        m.names_distinct(),
        0 <= a < m.apps@.len(),
        m.apps@[a].name@ == name,
    ensures
        m.app_named(name) == Some(a),
{
    lemma_first_named(m.apps@, name, 0);
    let b = m.app_named(name)->0;
    if b < a {
        assert(m.apps@[b].name@ != m.apps@[a].name@);
    } else if a < b {
        assert(m.apps@[a].name@ != m.apps@[b].name@);
    }
}

proof fn lemma_fails(m: Manifest, checks: Map<Seq<char>, bool>, dep: Seq<char>)
    ensures
        failing(m, checks, dep) <==> fails(m, checks, dep),
{
    lemma_first_named(m.apps@, dep, 0);
}

proof fn lemma_check_blocked(m: Manifest, checks: Map<Seq<char>, bool>, app: Seq<char>)
    requires
        m.names_distinct(),
    ensures
        check_blocked(m, checks, app) <==> waits_for_failed_check(m, checks, app),
{
    lemma_first_named(m.apps@, app, 0);
    if check_blocked(m, checks, app) {
        let a = m.app_named(app)->0;
        let d = choose|d: int|
            0 <= d < m.apps@[a].depends_on@.len() && failing(
                m,
                checks,
                (#[trigger] m.apps@[a].depends_on@[d])@,
            );
        lemma_fails(m, checks, m.apps@[a].depends_on@[d]@);
        assert(m.apps@[a].name@ == app && fails(m, checks, m.apps@[a].depends_on@[d]@));
    }
    if waits_for_failed_check(m, checks, app) {
        let (a, d) = choose|a: int, d: int|
            0 <= a < m.apps@.len() && (#[trigger] m.apps@[a]).name@ == app && 0 <= d
                < m.apps@[a].depends_on@.len() && fails(
                m,
                checks,
                (#[trigger] m.apps@[a].depends_on@[d])@,
            );
        lemma_app_is(m, app, a);
        lemma_fails(m, checks, m.apps@[a].depends_on@[d]@);
        assert(failing(m, checks, m.apps@[a].depends_on@[d]@));
    }
}

/// Whether an instance is to be stopped for a check: it has a process, is not on its way out, and
/// its app waits for a check that does not answer. Its phase does not matter otherwise.
pub open spec fn must_stop(
    insts: Seq<Instance>,
    m: Manifest,
    checks: Map<Seq<char>, bool>,
) -> spec_fn(int) -> bool {
    |i: int|
        insts[i].handle is Some && insts[i].phase != Phase::Terminating && waits_for_failed_check(
            m,
            checks,
            insts[i].app@,
        )
}

pub proof fn lemma_marked_groups(
    insts: Seq<Instance>,
    marks: spec_fn(int) -> bool,
    p: spec_fn(int) -> bool,
    n: int,
)
    requires
        0 <= n <= insts.len(),
        forall|i: int|
            0 <= i < insts.len() ==> #[trigger] p(i) == (marks(i) && insts[i].handle is Some),
    ensures
        marked_groups(insts, marks, n).len() == picked(p, n).len(),
        forall|k: int|
            0 <= k < marked_groups(insts, marks, n).len() ==> #[trigger] marked_groups(
                insts,
                marks,
                n,
            )[k] == insts[picked(p, n)[k]].handle->0.pgid,
    decreases n,
{
    if n > 0 {
        lemma_marked_groups(insts, marks, p, n - 1);
        assert(p(n - 1) == (marks(n - 1) && insts[n - 1].handle is Some));
    }
}

/// A check that fails stops every running instance that depends on it, whatever its phase, unless
/// it is on its way out: after the step each is terminating with a restart to follow, none of them
/// runs on, every other instance is as it was, and the groups to ask to terminate are exactly
/// theirs.
pub proof fn law_failed_check_stops_dependents(
    insts: Seq<Instance>,
    m: Manifest,
    checks: Map<Seq<char>, bool>,
    now: u64,
)
    requires
        m.names_distinct(),
    ensures
        ({
            let after = stopping(insts, blocked(insts, m, checks), true, now);
            let p = must_stop(insts, m, checks);
            &&& after.len() == insts.len()
            &&& forall|i: int|
                0 <= i < insts.len() ==> #[trigger] after[i] == if p(i) {
                    asked_to_stop(insts[i], true, now)
                } else {
                    insts[i]
                }
            &&& forall|i: int|
                0 <= i < after.len() && (#[trigger] after[i]).handle is Some && after[i].phase
                    != Phase::Terminating ==> !waits_for_failed_check(m, checks, after[i].app@)
            &&& are_groups_of(
                marked_groups(insts, blocked(insts, m, checks), insts.len() as int),
                insts,
                p,
            )
        }),
{
    let marks = blocked(insts, m, checks);
    let after = stopping(insts, marks, true, now);
    let p = must_stop(insts, m, checks);
    assert forall|i: int| 0 <= i < insts.len() implies #[trigger] p(i) == marks(i) by {
        lemma_check_blocked(m, checks, insts[i].app@);
    }
    assert forall|i: int| 0 <= i < insts.len() implies #[trigger] after[i] == if p(i) {
        asked_to_stop(insts[i], true, now)
    } else {
        insts[i]
    } by {
        assert(p(i) == marks(i));
    }
    assert forall|i: int|
        0 <= i < after.len() && (#[trigger] after[i]).handle is Some && after[i].phase
            != Phase::Terminating implies !waits_for_failed_check(m, checks, after[i].app@) by {
        assert(!p(i));
    }
    lemma_marked_groups(insts, marks, p, insts.len() as int);
    lemma_groups_from(marked_groups(insts, marks, insts.len() as int), insts, p);
}

// Starting.

/// Whether a name that an app depends on is met: where it is an app's, that app has a ready
/// instance; where it is not, it is not known as a check that does not answer.
pub open spec fn is_met(
    insts: Seq<Instance>,
    m: Manifest,
    checks: Map<Seq<char>, bool>,
    dep: Seq<char>,
) -> bool {
    if exists|b: int| 0 <= b < m.apps@.len() && (#[trigger] m.apps@[b]).name@ == dep {
        exists|j: int|
            0 <= j < insts.len() && (#[trigger] insts[j]).app@ == dep && insts[j].phase
                == Phase::Ready
    } else {
        !(checks.dom().contains(dep) && checks[dep] == false)
    }
}

/// Exactly those instances are started that have no process, are not on their way out, have
/// waited out their delay, and of whose app every single name that it depends on is met.
pub proof fn law_start_waits_for_every_dependency(
    insts: Seq<Instance>,
    m: Manifest,
    checks: Map<Seq<char>, bool>,
    now: u64,
    i: usize,
    a: int,
)
    requires
        m.names_distinct(),
        insts.len() <= usize::MAX,
        i < insts.len(),
        0 <= a < m.apps@.len(),
        m.apps@[a].name@ == insts[i as int].app@,
    ensures
        to_start(insts, m, checks, now, insts.len() as int).contains(i) <==> {
            &&& insts[i as int].handle is None
            &&& insts[i as int].phase != Phase::Terminating
            &&& insts[i as int].backoff_until is None || insts[i as int].backoff_until->0 <= now
            &&& forall|d: int|
                0 <= d < m.apps@[a].depends_on@.len() ==> is_met(
                    insts,
                    m,
                    checks,
                    (#[trigger] m.apps@[a].depends_on@[d])@,
                )
        },
{
    law_started_iff_startable(insts, m, checks, now, i);
    lemma_app_is(m, insts[i as int].app@, a);
    assert forall|d: int| 0 <= d < m.apps@[a].depends_on@.len() implies dependency_met(
        insts,
        m,
        checks,
        (#[trigger] m.apps@[a].depends_on@[d])@,
    ) == is_met(insts, m, checks, m.apps@[a].depends_on@[d]@) by {
        lemma_first_named(m.apps@, m.apps@[a].depends_on@[d]@, 0);
    }
}

/// Whether an instance may be started: it has no process, is not on its way out, has waited out its
/// delay, and its app is in the manifest with every single name that it depends on met.
pub open spec fn may_start(
    insts: Seq<Instance>,
    m: Manifest,
    checks: Map<Seq<char>, bool>,
    now: u64,
    i: int,
) -> bool {
    &&& insts[i].handle is None
    &&& insts[i].phase != Phase::Terminating
    &&& insts[i].backoff_until is None || insts[i].backoff_until->0 <= now
    &&& exists|a: int|
        0 <= a < m.apps@.len() && (#[trigger] m.apps@[a]).name@ == insts[i].app@ && forall|d: int|
            0 <= d < m.apps@[a].depends_on@.len() ==> is_met(
                insts,
                m,
                checks,
                (#[trigger] m.apps@[a].depends_on@[d])@,
            )
}

/// What is started is exactly what may be.
pub proof fn law_started_is_what_may_start(
    insts: Seq<Instance>,
    m: Manifest,
    checks: Map<Seq<char>, bool>,
    now: u64,
)
    requires
        m.names_distinct(),
        insts.len() <= usize::MAX,
    ensures
        forall|i: usize|
            i < insts.len() ==> (#[trigger] to_start(
                insts,
                m,
                checks,
                now,
                insts.len() as int,
            ).contains(i) <==> may_start(insts, m, checks, now, i as int)),
{
    let list = to_start(insts, m, checks, now, insts.len() as int);
    assert forall|i: usize| i < insts.len() implies (#[trigger] list.contains(i) <==> may_start(
        insts,
        m,
        checks,
        now,
        i as int,
    )) by {
        let name = insts[i as int].app@;
        lemma_first_named(m.apps@, name, 0);
        if may_start(insts, m, checks, now, i as int) {
            let a = choose|a: int|
                0 <= a < m.apps@.len() && (#[trigger] m.apps@[a]).name@ == name && forall|d: int|
                    0 <= d < m.apps@[a].depends_on@.len() ==> is_met(
                        insts,
                        m,
                        checks,
                        (#[trigger] m.apps@[a].depends_on@[d])@,
                    );
            law_start_waits_for_every_dependency(insts, m, checks, now, i, a);
        }
        if list.contains(i) {
            law_start_list_is_in_order(insts, m, checks, now, insts.len() as int);
            let k = choose|k: int| 0 <= k < list.len() && list[k] == i;
            let a = choose|a: int|
                0 <= a < m.apps@.len() && (#[trigger] m.apps@[a]).name@
                    == insts[list[k] as int].app@;
            law_start_waits_for_every_dependency(insts, m, checks, now, i, a);
            assert(m.apps@[a].name@ == name);
        }
    }
}

/// Nothing of an app that the manifest does not have is started, and the list of what is started
/// goes up and names no instance twice.
pub proof fn law_start_list_is_in_order(
    insts: Seq<Instance>,
    m: Manifest,
    checks: Map<Seq<char>, bool>,
    now: u64,
    n: int,
)
    requires
        0 <= n <= insts.len() <= usize::MAX,
    ensures
        ({
            let list = to_start(insts, m, checks, now, n);
            &&& forall|k: int|
                0 <= k < list.len() ==> 0 <= #[trigger] list[k] < n && exists|a: int|
                    0 <= a < m.apps@.len() && (#[trigger] m.apps@[a]).name@
                        == insts[list[k] as int].app@
            &&& forall|k: int, l: int|
                0 <= k < l < list.len() ==> #[trigger] list[k] < #[trigger] list[l]
        }),
    decreases n,
{
    if n > 0 {
        law_start_list_is_in_order(insts, m, checks, now, n - 1);
        lemma_first_named(m.apps@, insts[n - 1].app@, 0);
        let before = to_start(insts, m, checks, now, n - 1);
        let list = to_start(insts, m, checks, now, n);
        assert forall|k: int| 0 <= k < list.len() implies 0 <= #[trigger] list[k] < n && exists|
            a: int,
        |
            0 <= a < m.apps@.len() && (#[trigger] m.apps@[a]).name@
                == insts[list[k] as int].app@ by {
            if k < before.len() {
                assert(list[k] == before[k]);
            } else {
                let a = m.app_named(insts[n - 1].app@)->0;
                assert(m.apps@[a].name@ == insts[list[k] as int].app@);
            }
        }
    }
}

// Teardown.

/// Having a process, whatever the phase.
pub open spec fn with_process(insts: Seq<Instance>) -> spec_fn(int) -> bool {
    |i: int| insts[i].handle is Some
}

proof fn lemma_running_groups(insts: Seq<Instance>, n: int)
    requires
        0 <= n <= insts.len(),
    ensures
        ({
            let p = with_process(insts);
            &&& running_groups(insts, n).len() == picked(p, n).len()
            &&& forall|k: int|
                0 <= k < running_groups(insts, n).len() ==> #[trigger] running_groups(insts, n)[k]
                    == insts[picked(p, n)[k]].handle->0.pgid
        }),
    decreases n,
{
    if n > 0 {
        lemma_running_groups(insts, n - 1);
    }
}

/// When everything is stopped, every process group is asked to terminate, whatever the phase of
/// its instance, in the order of the instances and no other group; and what has not exited at the
/// deadline is killed in the same way.
pub proof fn law_teardown_reaches_every_process(insts: Seq<Instance>)
    ensures
        are_groups_of(
            running_groups(insts, insts.len() as int),
            insts,
            with_process(insts),
        ),
{
    let p = with_process(insts);
    lemma_running_groups(insts, insts.len() as int);
    lemma_groups_from(running_groups(insts, insts.len() as int), insts, p);
}

/// In a teardown every instance that has a process is terminating, with the process that it had,
/// and the others are as they were.
pub proof fn law_teardown_marks_every_instance(insts: Seq<Instance>, order: Seq<usize>, k: int)
    requires
        0 <= k < order.len(),
        forall|i: int| 0 <= i < order.len() ==> 0 <= #[trigger] order[i] < insts.len(),
    ensures
        ({
            let was = insts[order[k] as int];
            let is = all_going(insts, order)[k];
            if was.handle is Some {
                is == (Instance { phase: Phase::Terminating, ..was })
            } else {
                is == was
            }
        }),
{
}

/// In a teardown an instance loses its process exactly when that has exited, and nothing else
/// changes.
pub proof fn law_teardown_waits_for_every_process(insts: Seq<Instance>, exits: Seq<Exit>, i: int)
    requires
        exits.len() == insts.len(),
        0 <= i < insts.len(),
    ensures
        all_settled(insts, exits).len() == insts.len(),
        all_settled(insts, exits)[i] == (Instance {
            handle: if exits[i] == Exit::Exited {
                None
            } else {
                insts[i].handle
            },
            ..insts[i]
        }),
        any_running(all_settled(insts, exits)) <==> exists|k: int|
            0 <= k < insts.len() && (#[trigger] insts[k]).handle is Some && exits[k]
                != Exit::Exited,
{
    let after = all_settled(insts, exits);
    if any_running(after) {
        let k = choose|k: int| 0 <= k < after.len() && (#[trigger] after[k]).running();
        assert(insts[k].handle is Some && exits[k] != Exit::Exited);
    }
    if exists|k: int|
        0 <= k < insts.len() && (#[trigger] insts[k]).handle is Some && exits[k] != Exit::Exited {
        let k = choose|k: int|
            0 <= k < insts.len() && (#[trigger] insts[k]).handle is Some && exits[k]
                != Exit::Exited;
        assert(after[k].running());
    }
}

/// A teardown is done exactly when no instance has a process. Until the deadline it waits for the
/// others; from then on it kills every one of them.
pub proof fn law_teardown_ends_with_the_last_process(
    step: TeardownStep,
    insts: Seq<Instance>,
    now: u64,
    deadline: u64,
)
    requires
        is_next_step(step, insts, now, deadline),
    ensures
        step is Done <==> forall|i: int|
            0 <= i < insts.len() ==> (#[trigger] insts[i]).handle is None,
        step is Wait ==> now < deadline,
        step is Kill ==> now >= deadline,
        step matches TeardownStep::Kill(groups) ==> are_groups_of(
            groups@,
            insts,
            with_process(insts),
        ),
{
    law_teardown_reaches_every_process(insts);
    if any_running(insts) {
        let i = choose|i: int| 0 <= i < insts.len() && (#[trigger] insts[i]).running();
        assert(insts[i].handle is Some);
    } else {
        assert forall|i: int| 0 <= i < insts.len() implies (#[trigger] insts[i]).handle is None by {
            assert(!insts[i].running());
        }
    }
}

// Checks over time.

/// Two rounds of checks are ten seconds apart: after one, the next is due exactly from ten seconds
/// on, and looking earlier does not put it off.
pub proof fn law_checks_are_made_every_ten_seconds(next: u64, first: u64, between: u64, now: u64)
    requires
        next <= first <= between < first + 10_000 <= now,
    ensures
        check_round(next, first).0,
        ({
            let after = check_round(next, first).1;
            &&& !check_round(after, between).0
            &&& check_round(after, between).1 == after
            &&& check_round(check_round(after, between).1, now).0
        }),
{
}

/// The answer of a check is news exactly when it is another one than the last, or the first one
/// and bad; the same answer again is none.
pub proof fn law_only_changes_are_news(
    checks: Map<Seq<char>, bool>,
    name: Seq<char>,
    ok: bool,
    again: bool,
)
    ensures
        checks.dom().contains(name) ==> (check_news(checks, name, ok) is Some <==> checks[name]
            != ok),
        !checks.dom().contains(name) ==> (check_news(checks, name, ok) is Some <==> !ok),
        check_news(checks, name, ok) is Some ==> check_news(checks, name, ok)->0 == ok,
        check_news(checks.insert(name, ok), name, again) is Some <==> again != ok,
{
}

// The loop.

/// A loop that is not given what it waits for makes as many ticks as it may and then stops without
/// it; one that is given it stops at once.
pub proof fn law_loop_ends_in_time(step: usize, max_steps: usize)
    requires
        step < max_steps,
    ensures
        loop_choice(step, max_steps, true) == LoopStep::Stop(true),
        step < max_steps - 1 ==> loop_choice(step, max_steps, false) == LoopStep::Sleep,
        step == max_steps - 1 ==> loop_choice(step, max_steps, false) == LoopStep::Stop(false),
{
}

/// Once an instance of an app was started, or could not be, it is as the start left it; one of an
/// app that the manifest no longer has is left as it is.
pub proof fn law_attempt_to_start(
    inst: Instance,
    m: Manifest,
    handle: Option<Handle>,
    now: u64,
    a: int,
)
    requires
        m.names_distinct(),
    ensures
        ({
            let r = after_launch(inst, m, handle, now);
            &&& 0 <= a < m.apps@.len() && m.apps@[a].name@ == inst.app@ && handle is Some
                ==> r.handle == handle && r.backoff_until is None && r.started_at == Some(now)
                && (r.phase == Phase::Ready <==> m.apps@[a].ready_path@.len() == 0) && r.spec_hash
                == fingerprint(m, m.apps@[a], inst.replica as nat, inst.port)
            &&& 0 <= a < m.apps@.len() && m.apps@[a].name@ == inst.app@ && handle is None
                ==> r.handle == inst.handle && r.phase == Phase::CrashLoopBackOff
                && r.backoff_until is Some && r.backoff_until->0 >= now && r.restarts
                >= inst.restarts && (inst.restarts < u32::MAX ==> r.restarts == inst.restarts + 1)
            &&& (forall|b: int|
                0 <= b < m.apps@.len() ==> (#[trigger] m.apps@[b]).name@ != inst.app@) ==> r == inst
            &&& r.app == inst.app && r.replica == inst.replica && r.port == inst.port
        }),
{
    lemma_first_named(m.apps@, inst.app@, 0);
    if 0 <= a < m.apps@.len() && m.apps@[a].name@ == inst.app@ {
        lemma_app_is(m, inst.app@, a);
    }
}

} // verus!
