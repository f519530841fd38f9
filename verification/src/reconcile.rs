//! The control loop's state and its steps. Each step takes what was found out about the outside
//! (which processes exited, which checks answered, what time it is), changes the state, and
//! returns what is to be done about it. One step follows another in one sequence; nothing is
//! shared.

use crate::fleet::{after_ms, all_wf, kept, later, overdue, reap_exited, reaping, Exit, Instance};
use crate::graph::{first_unknown, select_apps, selection, unknown_app_message};
use crate::manifest::Manifest;
use crate::order::{NameMap, NameSet};
use crate::paths::{control_path, state_path};
use crate::slots::{are_desired, desired_slots, Slot, SlotPorts};
use crate::text::texts;
use vstd::prelude::*;

verus! {

/// Milliseconds between two ticks of the loop.
pub const TICK: u64 = 500;

/// Milliseconds between two rounds of checks.
pub const CHECK_VERIFY_PERIOD: u64 = 10_000;

/// What a user may ask of the loop.
#[derive(Debug, Default, Clone)]
pub struct UpOptions {
    /// The apps to run, with all they depend on; all apps where there is no list.
    pub only: Option<Vec<String>>,
    /// Whether a change of the manifest's file is followed.
    pub watch: bool,
}

/// Everything that the loop knows.
pub struct Reconciler {
    pub manifest: Manifest,
    pub manifest_path: String,
    /// The file's time of change that the manifest was read at.
    pub manifest_mtime: Option<i128>,
    /// A later time of change that was seen once and not acted on yet.
    pub pending_mtime: Option<i128>,
    pub selected: NameSet,
    pub instances: Vec<Instance>,
    pub state_path: String,
    pub slot_ports: SlotPorts,
    /// Which checks answer.
    pub checks_ok: NameMap<bool>,
    pub next_check_verify: u64,
}

/// What becomes of the time of change that was read, of the one that was seen since, and whether
/// the file is to be read again, when its time of change is `current`.
pub open spec fn watched(read: Option<i128>, seen: Option<i128>, current: Option<i128>) -> (
    Option<i128>,
    Option<i128>,
    bool,
) {
    if current == read {
        (read, None, false)
    } else if current != seen {
        (read, current, false)
    } else {
        (current, None, true)
    }
}

/// A change is acted on only once it has held for a tick: a time of change that was not seen
/// before leads to no reading, the same one seen again does, and after that it leads to none.
pub proof fn law_change_must_hold(read: Option<i128>, seen: Option<i128>, current: Option<i128>)
    requires
        current != read,
        current != seen,
    ensures
        !watched(read, seen, current).2,
        ({
            let first = watched(read, seen, current);
            let second = watched(first.0, first.1, current);
            let third = watched(second.0, second.1, current);
            second.2 && !third.2
        }),
{
}

/// Which apps to select in a manifest that replaces another: all, where all of the other were
/// selected, else the same ones.
pub open spec fn selection_to_keep(m: Manifest, selected: NameSet) -> Option<Seq<Seq<char>>> {
    if selected.listed().len() == m.apps@.len() {
        None
    } else {
        Some(selected.listed())
    }
}

/// What keeps a manifest from replacing the current one.
pub open spec fn reload_fault(r: Reconciler, m: Manifest) -> Option<Seq<char>> {
    let keep = selection_to_keep(r.manifest, r.selected);
    if m.apps@.len() == 0 {
        Some("no apps (empty or partial file?)"@)
    } else {
        match keep {
            None => None,
            Some(list) => match first_unknown(m.apps@, list, 0) {
                Some(k) => Some(unknown_app_message(list[k])),
                None => if list.len() == 0 {
                    Some("selection is empty"@)
                } else {
                    None
                },
            },
        }
    }
}

impl Reconciler {
    /// What holds of the state between any two steps.
    pub open spec fn wf(&self) -> bool {
        &&& self.manifest.valid()
        &&& self.selected.wf()
        &&& self.slot_ports.wf()
        &&& self.checks_ok.wf()
        &&& all_wf(self.instances@)
    }

    /// The state before the first tick. `mtime` is the time of change of the manifest's file.
    pub fn new(
        manifest: Manifest,
        manifest_path: String,
        selected: NameSet,
        checks_ok: NameMap<bool>,
        mtime: Option<i128>,
        now: u64,
    ) -> (r: Reconciler)
        requires
            manifest.valid(),
            selected.wf(),
            checks_ok.wf(),
        ensures
            r.wf(),
            r.manifest == manifest,
            r.manifest_path == manifest_path,
            r.manifest_mtime == mtime,
            r.pending_mtime is None,
            r.selected == selected,
            r.instances@.len() == 0,
            r.state_path@ == control_path(manifest.base_dir@, "state.json"@),
            r.slot_ports@ == Map::<(Seq<char>, u32), u16>::empty(),
            r.checks_ok == checks_ok,
            r.next_check_verify == later(now, CHECK_VERIFY_PERIOD),
    {
        let path = state_path(manifest.base_dir.as_str());
        Reconciler {
            manifest,
            manifest_path,
            manifest_mtime: mtime,
            pending_mtime: None,
            selected,
            instances: Vec::new(),
            state_path: path,
            slot_ports: SlotPorts::new(),
            checks_ok,
            next_check_verify: after_ms(now, CHECK_VERIFY_PERIOD),
        }
    }

    /// Whether the manifest is to be read again, `current` being the time of change of its file.
    /// A new time must hold for one tick before it is acted on, so that a file that is being
    /// written is not read half-way.
    pub fn maybe_reload(&mut self, current: Option<i128>) -> (load: bool)
        ensures
            (final(self).manifest_mtime, final(self).pending_mtime, load) == watched(
                old(self).manifest_mtime,
                old(self).pending_mtime,
                current,
            ),
            *final(self) == (Reconciler {
                manifest_mtime: final(self).manifest_mtime,
                pending_mtime: final(self).pending_mtime,
                ..*old(self)
            }),
    {
        if same_time(current, self.manifest_mtime) {
            self.pending_mtime = None;
            return false;
        }
        if !same_time(self.pending_mtime, current) {
            self.pending_mtime = current;
            return false;
        }
        self.pending_mtime = None;
        self.manifest_mtime = current;
        true
    }

    /// The selection to keep when the manifest is replaced: nothing in particular where every app
    /// is selected, so that new apps are picked up.
    pub fn only_names(&self) -> (r: Option<Vec<String>>)
        ensures
            match r {
                None => selection_to_keep(self.manifest, self.selected) is None,
                Some(list) => selection_to_keep(self.manifest, self.selected) == Some(
                    texts(list@),
                ),
            },
    {
        if self.selected.len() == self.manifest.apps.len() {
            None
        } else {
            Some(self.selected.to_list())
        }
    }

    /// Takes on a manifest that was read again. One that could not be read, has no app, or cannot
    /// be selected from as before is refused, and everything stays as it is.
    pub fn reload(&mut self, loaded: Result<Manifest, String>) -> (r: Result<(), String>)
        requires
            loaded matches Ok(m) ==> m.valid(),
        ensures
            match loaded {
                Err(e) => r matches Err(f) && f@ == e@,
                Ok(m) => match reload_fault(*old(self), m) {
                    Some(fault) => r matches Err(f) && f@ == fault,
                    None => r is Ok,
                },
            },
            r is Err ==> *final(self) == *old(self),
            r is Ok ==> *final(self) == (Reconciler {
                manifest: loaded->Ok_0,
                selected: final(self).selected,
                ..*old(self)
            }) && final(self).selected.wf() && final(self).selected@ == selection(
                loaded->Ok_0.apps@,
                selection_to_keep(old(self).manifest, old(self).selected),
            ),
            old(self).wf() ==> final(self).wf(),
    {
        let m = match loaded {
            Err(e) => {
                return Err(e);
            },
            Ok(m) => m,
        };
        if m.apps.len() == 0 {
            return Err("no apps (empty or partial file?)".to_owned());
        }
        let only = self.only_names();
        let chosen = match &only {
            None => select_apps(&m, None),
            Some(list) => select_apps(&m, Some(list.as_slice())),
        };
        let selected = match chosen {
            Err(e) => {
                return Err(e);
            },
            Ok(s) => s,
        };
        if selected.len() == 0 {
            proof {
                lemma_empty_selection(m, selected, selection_to_keep(self.manifest, self.selected));
            }
            return Err("selection is empty".to_owned());
        }
        proof {
            lemma_empty_selection(m, selected, selection_to_keep(self.manifest, self.selected));
        }
        self.manifest = m;
        self.selected = selected;
        Ok(())
    }

    /// Whether the checks are to be made again.
    pub fn checks_due(&mut self, now: u64) -> (due: bool)
        ensures
            due == (now >= old(self).next_check_verify),
            *final(self) == (Reconciler {
                next_check_verify: if due {
                    later(now, CHECK_VERIFY_PERIOD)
                } else {
                    old(self).next_check_verify
                },
                ..*old(self)
            }),
            (due, final(self).next_check_verify) == check_round(
                old(self).next_check_verify,
                now,
            ),
    {
        if now < self.next_check_verify {
            return false;
        }
        self.next_check_verify = after_ms(now, CHECK_VERIFY_PERIOD);
        true
    }

    /// Takes note of whether a check answered. Returns whether that is news: `Some(true)` where it
    /// recovered, `Some(false)` where it failed. A check that was never made counts as answering.
    pub fn record_check(&mut self, name: &str, ok: bool) -> (news: Option<bool>)
        requires
            old(self).wf(),
        ensures
            final(self).wf(),
            *final(self) == (Reconciler { checks_ok: final(self).checks_ok, ..*old(self) }),
            final(self).checks_ok@ == old(self).checks_ok@.insert(name@, ok),
            news == if ok == answers(old(self).checks_ok@, name@) {
                None
            } else {
                Some(ok)
            },
            news == check_news(old(self).checks_ok@, name@, ok),
    {
        let was = match self.checks_ok.get(name) {
            Some(b) => *b,
            None => true,
        };
        self.checks_ok.insert(name.to_owned(), ok);
        if ok == was {
            None
        } else {
            Some(ok)
        }
    }

    /// Harvests the processes that have exited, `exits` holding one word for each instance.
    /// Returns the process groups to kill.
    pub fn reap(&mut self, exits: &Vec<Exit>, now: u64) -> (kill: Vec<i32>)
        requires
            old(self).wf(),
            exits@.len() == old(self).instances@.len(),
        ensures
            final(self).wf(),
            *final(self) == (Reconciler { instances: final(self).instances, ..*old(self) }),
            final(self).instances@ == kept(
                reaping(old(self).instances@, exits@, now, old(self).manifest.defaults),
                exits@.len() as int,
            ),
            kill@ == overdue(old(self).instances@, exits@, now, exits@.len() as int),
    {
        reap_exited(&mut self.instances, exits, now, &self.manifest.defaults)
    }

    /// The places that are to be filled.
    pub fn desired_slots(&self) -> (slots: Vec<Slot>)
        requires
            self.wf(),
        ensures
            are_desired(slots@, self.manifest, self.selected@, self.slot_ports@),
    {
        desired_slots(&self.manifest, &self.selected, &self.slot_ports)
    }
}

/// Whether a round of checks is due, and when the next one is.
pub open spec fn check_round(next: u64, now: u64) -> (bool, u64) {
    if now >= next {
        (true, later(now, CHECK_VERIFY_PERIOD))
    } else {
        (false, next)
    }
}

/// What is new in the answer of a check.
pub open spec fn check_news(checks: Map<Seq<char>, bool>, name: Seq<char>, ok: bool) -> Option<
    bool,
> {
    if ok == answers(checks, name) {
        None
    } else {
        Some(ok)
    }
}

/// Whether a check counts as answering.
pub open spec fn answers(checks: Map<Seq<char>, bool>, name: Seq<char>) -> bool {
    !checks.dom().contains(name) || checks[name]
}

/// A selection is empty only where nothing was asked for.
proof fn lemma_empty_selection(m: Manifest, selected: NameSet, only: Option<Seq<Seq<char>>>)
    requires
        m.apps@.len() > 0,
        selected.wf(),
        selected@ == selection(m.apps@, only),
        only matches Some(list) ==> first_unknown(m.apps@, list, 0) is None,
    ensures
        selected.listed().len() == 0 <==> (only matches Some(list) && list.len() == 0),
{
    match only {
        None => {
            let name = m.apps@[0].name@;
            crate::graph::lemma_last_named(m.apps@, name, m.apps@.len() as int);
            assert(selected@.contains(name));
        },
        Some(list) => {
            if list.len() > 0 {
                crate::graph::lemma_asked_is_selected(m.apps@, list, 0);
                assert(selected@.contains(list[0]));
            } else {
                if selected.listed().len() > 0 {
                    assert(selected@.contains(selected.listed()[0]));
                }
            }
        },
    }
}

/// Whether two times of change are the same.
fn same_time(a: Option<i128>, b: Option<i128>) -> (r: bool)
    ensures
        r == (a == b),
{
    match (a, b) {
        (Some(x), Some(y)) => x == y,
        (None, None) => true,
        _ => false,
    }
}

} // verus!
