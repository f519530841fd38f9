//! Processes that a previous owner left behind: which groups they are, and when to stop waiting
//! for them.

use crate::fleet::{after_ms, later};
use crate::lock::refused;
use crate::state::{AppStatus, ClusterState, InstanceStatus};
use vstd::prelude::*;

verus! {

/// Milliseconds between asking such a group to terminate and killing it.
pub const ORPHAN_RECLAIM_GRACE: u64 = 2_000;

/// The process groups that the first `n` rows name.
pub open spec fn row_groups(list: Seq<InstanceStatus>, n: int) -> Seq<i32>
    decreases n,
{
    if n <= 0 {
        seq![]
    } else {
        match list[n - 1].pgid {
            Some(g) => row_groups(list, n - 1).push(g),
            None => row_groups(list, n - 1),
        }
    }
}

/// The process groups that the first `n` apps name.
pub open spec fn app_groups(apps: Seq<AppStatus>, n: int) -> Seq<i32>
    decreases n,
{
    if n <= 0 {
        seq![]
    } else {
        app_groups(apps, n - 1) + row_groups(
            apps[n - 1].instances@,
            apps[n - 1].instances@.len() as int,
        )
    }
}

/// The process groups that a written state names.
pub fn recorded_groups(state: &ClusterState) -> (groups: Vec<i32>)
    ensures
        groups@ == app_groups(state.apps@, state.apps@.len() as int),
{
    let mut groups: Vec<i32> = Vec::new();
    let mut a: usize = 0;
    while a < state.apps.len()
        invariant
            a <= state.apps@.len(),
            groups@ == app_groups(state.apps@, a as int),
        decreases state.apps@.len() - a,
    {
        let list = &state.apps[a].instances;
        let ghost before = groups@;
        let mut i: usize = 0;
        assert(before + seq![] =~= before);
        while i < list.len()
            invariant
                i <= list@.len(),
                groups@ == before + row_groups(list@, i as int),
            decreases list@.len() - i,
        {
            match list[i].pgid {
                Some(g) => {
                    groups.push(g);
                },
                None => {},
            }
            i += 1;
            assert(groups@ =~= before + row_groups(list@, i as int));
        }
        a += 1;
    }
    groups
}

/// Those of the first `n` groups that live.
pub open spec fn living(groups: Seq<i32>, alive: Seq<bool>, n: int) -> Seq<i32>
    decreases n,
{
    if n <= 0 {
        seq![]
    } else if alive[n - 1] {
        living(groups, alive, n - 1).push(groups[n - 1])
    } else {
        living(groups, alive, n - 1)
    }
}

/// What to do next about the groups.
pub enum ReclaimStep {
    /// None lives any more.
    Done,
    /// Wait, and look again.
    Wait,
    /// Kill these, and be done.
    Kill(Vec<i32>),
}

/// The time at which groups that were asked to terminate at `now` are killed.
pub fn reclaim_deadline(now: u64) -> (r: u64)
    ensures
        r == later(now, ORPHAN_RECLAIM_GRACE),
{
    after_ms(now, ORPHAN_RECLAIM_GRACE)
}

/// Whether a step is the next one: done when none of the groups lives, waiting before the deadline,
/// and killing those that live from then on.
pub open spec fn is_reclaim_step(
    step: ReclaimStep,
    groups: Seq<i32>,
    alive: Seq<bool>,
    now: u64,
    deadline: u64,
) -> bool {
    if forall|i: int| 0 <= i < alive.len() ==> !#[trigger] alive[i] {
        step is Done
    } else if now < deadline {
        step is Wait
    } else {
        step matches ReclaimStep::Kill(list) && list@ == living(groups, alive, groups.len() as int)
    }
}

/// What to do next, `alive` holding for each group whether it lives.
pub fn reclaim_step(groups: &Vec<i32>, alive: &Vec<bool>, now: u64, deadline: u64) -> (step:
    ReclaimStep)
    requires
        alive@.len() == groups@.len(),
    ensures
        match step {
            ReclaimStep::Done => forall|i: int| 0 <= i < alive@.len() ==> !#[trigger] alive@[i],
            ReclaimStep::Wait => now < deadline && exists|i: int|
                0 <= i < alive@.len() && #[trigger] alive@[i],
            ReclaimStep::Kill(list) => now >= deadline && (exists|i: int|
                0 <= i < alive@.len() && #[trigger] alive@[i]) && list@ == living(
                groups@,
                alive@,
                groups@.len() as int,
            ),
        },
        is_reclaim_step(step, groups@, alive@, now, deadline),
{
    let mut list: Vec<i32> = Vec::new();
    let mut any = false;
    let mut i: usize = 0;
    while i < groups.len()
        invariant
            i <= groups@.len(),
            alive@.len() == groups@.len(),
            list@ == living(groups@, alive@, i as int),
            any ==> exists|j: int| 0 <= j < i && #[trigger] alive@[j],
            !any ==> forall|j: int| 0 <= j < i ==> !#[trigger] alive@[j],
        decreases groups@.len() - i,
    {
        if alive[i] {
            list.push(groups[i]);
            any = true;
            assert(alive@[i as int]);
        }
        i += 1;
    }
    if !any {
        ReclaimStep::Done
    } else if now >= deadline {
        ReclaimStep::Kill(list)
    } else {
        ReclaimStep::Wait
    }
}

/// Whether the lock file is one that a previous owner left behind: it names a process other than
/// this one, and that process, of which `alive` says whether it lives, does not.
pub open spec fn left_behind(written: Option<u32>, own_pid: u32, alive: bool) -> bool {
    written matches Some(pid) && pid != own_pid && !alive
}

/// Whether the lock file was left behind by a previous owner.
pub fn lock_left_behind(written: Option<u32>, own_pid: u32, alive: bool) -> (r: bool)
    ensures
        r == left_behind(written, own_pid, alive),
{
    match written {
        Some(pid) => pid != own_pid && !alive,
        None => false,
    }
}

/// Reclaiming removes no lock that a process holds: not one of a process that lives, and not the
/// caller's own. What it removes is free for any process to take.
pub proof fn law_only_stale_locks_are_removed(written: u32, own_pid: u32, other: u32, alive: bool)
    ensures
        !left_behind(Some(written), own_pid, true),
        !left_behind(Some(own_pid), own_pid, alive),
        left_behind(Some(written), own_pid, alive) ==> !refused(Some(written), other, alive),
{
}

/// What is found where a previous owner wrote its state.
#[derive(Debug, Clone, Copy, PartialEq, Eq, Structural)]
pub enum StateFile {
    /// There is no file.
    Absent,
    /// There is a file, and it cannot be read.
    Unreadable,
    /// What the file holds is no state.
    Garbled,
    /// A state, whose owner lives.
    OwnerLives,
    /// A state, whose owner is gone.
    OwnerGone,
}

/// What to do about it.
#[derive(Debug, Clone, Copy, PartialEq, Eq, Structural)]
pub enum StateAction {
    /// Nothing.
    Leave,
    /// Give up.
    Fail,
    /// Remove the file.
    Discard,
    /// Stop the processes that it names, and remove the file and a lock that was left behind.
    Reclaim,
}

/// What to do about the state that a previous owner may have written.
pub fn on_state_file(found: StateFile) -> (r: StateAction)
    ensures
        r == match found {
            StateFile::Absent | StateFile::OwnerLives => StateAction::Leave,
            StateFile::Unreadable => StateAction::Fail,
            StateFile::Garbled => StateAction::Discard,
            StateFile::OwnerGone => StateAction::Reclaim,
        },
{
    match found {
        StateFile::Absent => StateAction::Leave,
        StateFile::OwnerLives => StateAction::Leave,
        StateFile::Unreadable => StateAction::Fail,
        StateFile::Garbled => StateAction::Discard,
        StateFile::OwnerGone => StateAction::Reclaim,
    }
}

} // verus!
