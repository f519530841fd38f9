use artzain::env::instance_env;
use artzain::fleet::{Exit, Handle, Instance, STOP_GRACE};
use artzain::manifest::{App, Check, Defaults, Manifest};
use artzain::order::{NameMap, NameSet};
use artzain::select_apps;
use artzain::state::{ClusterState, Phase};
use artzain::teardown::{teardown_deadline, TeardownStep};
use artzain::tick::{after_tick, LoopStep};
use artzain::validate::Account;
use artzain::Reconciler;

/// A process that exists only here.
#[derive(Clone)]
struct Fake {
    app: String,
    pgid: i32,
    alive: bool,
    ready: bool,
    healthy: bool,
    ignores_terminate: bool,
}

/// A cluster whose processes exist only here.
struct Sim {
    r: Reconciler,
    procs: Vec<Fake>,
    now: u64,
    ready: bool,
    fail_starts: bool,
    ignore_terminate: bool,
    terminated: Vec<i32>,
    killed: Vec<i32>,
}

fn adopt(defaults: Defaults, checks: Vec<Check>, apps: Vec<App>) -> Manifest {
    let found = apps.iter().map(|_| Account { user: None, group: None }).collect();
    Manifest { project: Some("test".to_string()), vars: vec![], defaults, checks, apps, base_dir: String::new() }
        .adopt("/srv/artzain.toml", &found, true)
        .unwrap()
}

fn quick() -> Defaults {
    let mut d = Defaults::default();
    d.restart_backoff_ms = 50;
    d.restart_backoff_max_ms = 500;
    d.stable_after_secs = 1;
    d
}

fn web(replicas: u32, mark: &str) -> App {
    let mut a = App::declared("web", "./web", 8080);
    a.replicas = replicas;
    a.ready_timeout = 5;
    a.live_period = 1;
    a.live_failures = 2;
    if !mark.is_empty() {
        a.env = vec![("MARK".to_string(), mark.to_string())];
    }
    a
}

fn start(m: Manifest, checks: NameMap<bool>) -> Sim {
    let selected = select_apps(&m, None).unwrap();
    start_with(m, selected, checks)
}

fn start_with(m: Manifest, selected: NameSet, checks: NameMap<bool>) -> Sim {
    let r = Reconciler::new(m, "/srv/artzain.toml".to_string(), selected, checks, Some(1), 0);
    Sim {
        r,
        procs: vec![],
        now: 0,
        ready: true,
        fail_starts: false,
        ignore_terminate: false,
        terminated: vec![],
        killed: vec![],
    }
}

impl Sim {
    fn fake(&mut self, id: u64) -> &mut Fake {
        &mut self.procs[id as usize]
    }

    fn exits(&self) -> Vec<Exit> {
        self.r
            .instances
            .iter()
            .map(|i| match i.handle {
                Some(h) if !self.procs[h.id as usize].alive => Exit::Exited,
                _ => Exit::Running,
            })
            .collect()
    }

    fn terminate(&mut self, groups: &Vec<i32>) {
        for g in groups {
            self.terminated.push(*g);
            for p in &mut self.procs {
                if p.pgid == *g && !p.ignores_terminate {
                    p.alive = false;
                }
            }
        }
    }

    fn kill(&mut self, groups: &Vec<i32>) {
        for g in groups {
            self.killed.push(*g);
            for p in &mut self.procs {
                if p.pgid == *g {
                    p.alive = false;
                }
            }
        }
    }

    fn tick(&mut self) {
        let exits = self.exits();
        let plan = self.r.tick(&exits, self.now);
        self.kill(&plan.kill);
        self.terminate(&plan.terminate);
        for idx in plan.start.clone() {
            let spawn = self.r.launch(idx, &vec![]).unwrap();
            if self.fail_starts {
                self.r.launched(idx, None, self.now);
                continue;
            }
            let id = self.procs.len() as u64;
            let pgid = 1000 + id as i32;
            self.procs.push(Fake {
                app: spawn.app.clone(),
                pgid,
                alive: true,
                ready: self.ready,
                healthy: true,
                ignores_terminate: self.ignore_terminate,
            });
            let handle = Handle { id, pid: Some(pgid as u32), pgid };
            self.r.launched(idx, Some(handle), self.now);
        }
        let groups = self.r.retire_stale_surplus(&plan.slots, self.now);
        self.terminate(&groups);
        for idx in 0..self.r.instances.len() {
            if self.r.readiness_target(idx, self.now).is_some() {
                let id = self.r.instances[idx].handle.unwrap().id;
                let ok = self.procs[id as usize].alive && self.procs[id as usize].ready;
                if let Some(g) = self.r.record_readiness(idx, ok, self.now) {
                    self.terminate(&vec![g]);
                }
            }
            if self.r.liveness_target(idx, self.now).is_some() {
                let id = self.r.instances[idx].handle.unwrap().id;
                let ok = self.procs[id as usize].alive && self.procs[id as usize].healthy;
                if let Some(g) = self.r.record_liveness(idx, ok, self.now) {
                    self.terminate(&vec![g]);
                }
            }
        }
        self.now += 500;
    }

    fn state(&self) -> ClusterState {
        self.r.snapshot(self.now, 7, 99)
    }

    fn ready_count(&self, app: &str) -> u32 {
        let s = self.state();
        let found = s.apps.iter().find(|a| a.name == app).map(|a| a.ready);
        found.unwrap_or(0)
    }
}

fn of<'a>(r: &'a Reconciler, app: &str) -> Vec<&'a Instance> {
    r.instances.iter().filter(|i| i.app == app).collect()
}

#[test]
fn an_instance_is_ready_once_its_probe_answers() {
    let mut s = start(adopt(quick(), vec![], vec![web(1, "")]), NameMap::new());
    s.ready = false;
    s.tick();
    assert_eq!(s.ready_count("web"), 0);
    assert_eq!(s.r.instances[0].phase, Phase::Starting);
    s.fake(0).ready = true;
    s.tick();
    // The next readiness probe is due a second after the last.
    assert_eq!(s.r.instances[0].phase, Phase::Starting);
    s.tick();
    assert_eq!(s.ready_count("web"), 1);
    let st = s.state();
    assert_eq!(st.apps[0].desired, 1);
    assert_eq!(st.apps[0].instances[0].restarts, 0);
    assert_eq!(st.apps[0].instances[0].port, 8080);
    // A probe that fails later makes it unready, and does not restart it.
    s.fake(0).ready = false;
    s.tick();
    s.tick();
    assert_eq!(s.r.instances[0].phase, Phase::Unready);
    assert!(s.terminated.is_empty());
}

#[test]
fn an_instance_that_never_becomes_ready_is_restarted() {
    let mut s = start(adopt(quick(), vec![], vec![web(1, "")]), NameMap::new());
    s.ready = false;
    for _ in 0..10 {
        s.tick();
    }
    assert!(s.terminated.is_empty());
    s.tick();
    assert_eq!(s.terminated, vec![1000]);
    s.tick();
    assert_eq!(s.r.instances[0].phase, Phase::CrashLoopBackOff);
    // It was up for longer than it takes to be stable.
    assert_eq!(s.r.instances[0].restarts, 1);
}

#[test]
fn crashes_back_off_and_count_until_stable() {
    let mut app = web(1, "");
    app.ready_path = String::new();
    app.live_path = String::new();
    let mut s = start(adopt(quick(), vec![], vec![app]), NameMap::new());
    s.tick();
    // No readiness endpoint: ready as soon as it runs.
    assert_eq!(s.ready_count("web"), 1);
    for n in 1..4 {
        let last = s.procs.len() as u64 - 1;
        s.fake(last).alive = false;
        s.tick();
        assert_eq!(s.r.instances[0].restarts, n);
        assert_eq!(s.r.instances[0].phase, Phase::CrashLoopBackOff);
        let delay = s.r.instances[0].backoff_until.unwrap() - (s.now - 500);
        assert_eq!(delay, 50 << (n - 1));
        s.tick();
        assert_eq!(s.r.instances[0].phase, Phase::Ready);
    }
    s.tick();
    s.tick();
    let last = s.procs.len() as u64 - 1;
    s.fake(last).alive = false;
    s.tick();
    assert_eq!(s.r.instances[0].restarts, 1);
}

#[test]
fn a_start_that_fails_backs_off() {
    let mut s = start(adopt(quick(), vec![], vec![web(1, "")]), NameMap::new());
    s.fail_starts = true;
    s.tick();
    assert_eq!(s.r.instances[0].phase, Phase::CrashLoopBackOff);
    assert_eq!(s.r.instances[0].restarts, 1);
    assert_eq!(s.r.instances[0].backoff_until, Some(50));
    s.tick();
    assert_eq!(s.r.instances[0].restarts, 2);
    s.fail_starts = false;
    s.tick();
    assert_eq!(s.ready_count("web"), 1);
}

#[test]
fn liveness_restarts_after_enough_failures() {
    let mut s = start(adopt(quick(), vec![], vec![web(1, "")]), NameMap::new());
    s.tick();
    assert_eq!(s.ready_count("web"), 1);
    s.fake(0).healthy = false;
    s.tick();
    assert_eq!(s.r.instances[0].consecutive_live_fail, 0);
    s.tick();
    assert_eq!(s.r.instances[0].consecutive_live_fail, 1);
    assert!(s.terminated.is_empty());
    s.tick();
    s.tick();
    assert_eq!(s.terminated, vec![1000]);
    s.tick();
    assert_eq!(s.r.instances[0].restarts, 1);
}

#[test]
fn an_answer_clears_liveness_failures() {
    let mut s = start(adopt(quick(), vec![], vec![web(1, "")]), NameMap::new());
    s.tick();
    s.fake(0).healthy = false;
    s.tick();
    s.tick();
    assert_eq!(s.r.instances[0].consecutive_live_fail, 1);
    s.fake(0).healthy = true;
    s.tick();
    s.tick();
    assert_eq!(s.r.instances[0].consecutive_live_fail, 0);
}

#[test]
fn scaling_down_retires_the_highest_replicas_first() {
    let mut s = start(adopt(quick(), vec![], vec![web(1, "")]), NameMap::new());
    s.tick();
    s.r.reload(Ok(adopt(quick(), vec![], vec![web(3, "")]))).unwrap();
    s.tick();
    assert_eq!(s.ready_count("web"), 3);
    // The first instance was left alone.
    assert_eq!(s.r.instances[0].handle.unwrap().id, 0);
    s.r.reload(Ok(adopt(quick(), vec![], vec![web(1, "")]))).unwrap();
    s.tick();
    assert_eq!(s.terminated, vec![1002, 1001]);
    s.tick();
    assert_eq!(s.r.instances.len(), 1);
    assert_eq!(s.r.instances[0].replica, 0);
    assert_eq!(s.ready_count("web"), 1);
}

#[test]
fn apps_wait_for_the_apps_they_depend_on() {
    let mut dependent = App::declared("api", "./api", 9000);
    dependent.depends_on = vec!["web".to_string()];
    let mut s = start(adopt(quick(), vec![], vec![dependent, web(1, "")]), NameMap::new());
    s.ready = false;
    s.tick();
    assert_eq!(of(&s.r, "api")[0].phase, Phase::Pending);
    s.fake(0).ready = true;
    s.ready = true;
    s.tick();
    s.tick();
    assert_eq!(s.ready_count("web"), 1);
    assert_eq!(of(&s.r, "api")[0].phase, Phase::Pending);
    s.tick();
    assert_eq!(s.ready_count("api"), 1);
}

#[test]
fn failing_checks_stop_and_hold_dependents() {
    let check = Check {
        name: "pg".to_string(),
        tcp: Some("127.0.0.1:5432".to_string()),
        http: None,
        hint: None,
    };
    let mut app = web(1, "");
    app.depends_on = vec!["pg".to_string()];
    let mut ok = NameMap::new();
    ok.insert("pg".to_string(), true);
    let mut s = start(adopt(quick(), vec![check], vec![app]), ok);
    s.tick();
    assert_eq!(s.ready_count("web"), 1);
    assert!(!s.r.checks_due(9_999));
    assert!(s.r.checks_due(10_000));
    assert!(!s.r.checks_due(19_999));
    assert_eq!(s.r.record_check("pg", true), None);
    assert_eq!(s.r.record_check("pg", false), Some(false));
    s.tick();
    assert_eq!(s.terminated, vec![1000]);
    for _ in 0..5 {
        s.tick();
    }
    assert_eq!(s.r.instances[0].phase, Phase::CrashLoopBackOff);
    assert_eq!(s.procs.len(), 1);
    assert_eq!(s.r.record_check("pg", true), Some(true));
    s.tick();
    assert_eq!(s.ready_count("web"), 1);
    // A check that was never made counts as answering.
    assert_eq!(s.r.record_check("new", true), None);
    assert_eq!(s.r.record_check("newer", false), Some(false));
}

#[test]
fn rolling_one_at_a_time_without_surge() {
    let mut s = start(adopt(quick(), vec![], vec![web(3, "")]), NameMap::new());
    s.tick();
    assert_eq!(s.ready_count("web"), 3);
    s.r.reload(Ok(adopt(quick(), vec![], vec![web(3, "v2")]))).unwrap();
    for _ in 0..12 {
        s.tick();
        assert!(s.ready_count("web") >= 2, "more than one is unavailable");
        assert!(s.r.instances.len() <= 3);
    }
    assert_eq!(s.ready_count("web"), 3);
    assert_eq!(s.procs.len(), 6);
    let ports: Vec<u16> = s.state().apps[0].instances.iter().map(|i| i.port).collect();
    assert_eq!(ports, vec![8080, 8081, 8082]);
    // Nothing more happens to a cluster that is as it should be.
    let before = s.procs.len();
    let gone = s.terminated.len();
    s.tick();
    s.tick();
    assert_eq!((s.procs.len(), s.terminated.len()), (before, gone));
}

#[test]
fn rolling_with_surge_never_drops_below_the_replicas() {
    let mut d = quick();
    d.max_surge = 1;
    let mut s = start(adopt(d.clone(), vec![], vec![web(3, "")]), NameMap::new());
    s.tick();
    assert_eq!(s.ready_count("web"), 3);
    s.r.reload(Ok(adopt(d.clone(), vec![], vec![web(3, "v2")]))).unwrap();
    for _ in 0..12 {
        s.tick();
        assert!(s.ready_count("web") >= 3, "fewer are ready than should be");
        assert!(s.r.instances.len() <= 4);
        let mut ports: Vec<u16> = s.r.instances.iter().map(|i| i.port).collect();
        ports.sort();
        let all = ports.len();
        ports.dedup();
        assert_eq!(ports.len(), all, "two instances have one port");
    }
    assert_eq!(s.r.instances.len(), 3);
    assert_eq!(s.procs.len(), 6);
    // Again, from the ports that the first roll left them on.
    s.r.reload(Ok(adopt(d, vec![], vec![web(3, "v3")]))).unwrap();
    for _ in 0..12 {
        s.tick();
        assert!(s.ready_count("web") >= 3);
    }
    assert_eq!(s.r.instances.len(), 3);
    assert_eq!(s.procs.len(), 9);
}

#[test]
fn a_stale_instance_that_is_not_ready_is_replaced_at_once() {
    let mut s = start(adopt(quick(), vec![], vec![web(1, "")]), NameMap::new());
    s.fail_starts = true;
    s.tick();
    s.tick();
    assert_eq!(s.r.instances[0].restarts, 2);
    s.fail_starts = false;
    s.r.reload(Ok(adopt(quick(), vec![], vec![web(1, "v2")]))).unwrap();
    s.tick();
    assert_eq!(s.r.instances.len(), 1);
    assert_eq!(s.r.instances[0].restarts, 0);
    assert_eq!(s.ready_count("web"), 1);
}

#[test]
fn an_ignored_request_to_stop_ends_in_a_kill() {
    let mut s = start(adopt(quick(), vec![], vec![web(2, "")]), NameMap::new());
    s.ignore_terminate = true;
    s.tick();
    s.r.reload(Ok(adopt(quick(), vec![], vec![web(1, "")]))).unwrap();
    let asked = s.now;
    s.tick();
    assert_eq!(s.terminated, vec![1001]);
    while s.now < asked + STOP_GRACE {
        s.tick();
        assert!(s.killed.is_empty());
    }
    s.tick();
    assert_eq!(s.killed, vec![1001]);
    s.tick();
    assert_eq!(s.r.instances.len(), 1);
}

#[test]
fn a_change_must_hold_for_a_tick_before_it_is_read() {
    let mut s = start(adopt(quick(), vec![], vec![web(1, "")]), NameMap::new());
    assert!(!s.r.maybe_reload(Some(1)));
    assert!(!s.r.maybe_reload(Some(2)));
    assert!(!s.r.maybe_reload(Some(3)));
    assert!(s.r.maybe_reload(Some(3)));
    assert!(!s.r.maybe_reload(Some(3)));
    assert!(!s.r.maybe_reload(Some(4)));
    assert!(!s.r.maybe_reload(Some(3)));
    assert!(!s.r.maybe_reload(Some(4)));
    // A file that is gone has no time of change to wait for.
    assert!(!s.r.maybe_reload(Some(3)));
    assert!(s.r.maybe_reload(None));
}

#[test]
fn a_bad_manifest_is_refused_and_nothing_changes() {
    let mut s = start(adopt(quick(), vec![], vec![web(1, "")]), NameMap::new());
    s.tick();
    assert_eq!(s.r.reload(Err("no parse".to_string())).unwrap_err(), "no parse");
    assert_eq!(
        s.r.reload(Ok(adopt(quick(), vec![], vec![]))).unwrap_err(),
        "no apps (empty or partial file?)"
    );
    s.tick();
    assert_eq!(s.ready_count("web"), 1);
    assert_eq!(s.procs.len(), 1);
}

#[test]
fn a_partial_selection_is_kept_over_a_reload() {
    let m = adopt(quick(), vec![], vec![web(1, ""), App::declared("b", "./b", 1)]);
    let selected = select_apps(&m, Some(&["web".to_string()])).unwrap();
    let mut s = start_with(m, selected, NameMap::new());
    assert_eq!(s.r.only_names(), Some(vec!["web".to_string()]));
    let next = adopt(quick(), vec![], vec![web(1, ""), App::declared("c", "./c", 1)]);
    s.r.reload(Ok(next)).unwrap();
    assert!(s.r.selected.contains("web"));
    assert!(!s.r.selected.contains("c"));
    let without = adopt(quick(), vec![], vec![App::declared("c", "./c", 1)]);
    assert_eq!(s.r.reload(Ok(without)).unwrap_err(), "--only: unknown app `web`");

    // Where every app was selected, new ones are picked up.
    let mut all = start(adopt(quick(), vec![], vec![web(1, "")]), NameMap::new());
    assert_eq!(all.r.only_names(), None);
    let next = adopt(quick(), vec![], vec![web(1, ""), App::declared("c", "./c", 1)]);
    all.r.reload(Ok(next)).unwrap();
    assert!(all.r.selected.contains("c"));
}

#[test]
fn teardown_stops_dependents_first() {
    let mut api = App::declared("api", "./api", 9000);
    api.depends_on = vec!["web".to_string()];
    let mut s = start(adopt(quick(), vec![], vec![web(2, ""), api]), NameMap::new());
    s.ignore_terminate = true;
    for _ in 0..4 {
        s.tick();
    }
    assert_eq!(s.ready_count("api"), 1);
    let api_group = of(&s.r, "api")[0].handle.unwrap().pgid;
    let groups = s.r.begin_teardown();
    assert_eq!(groups.len(), 3);
    assert_eq!(groups[0], api_group);
    assert!(s.r.instances.iter().all(|i| i.phase == Phase::Terminating));
    let deadline = teardown_deadline(s.now);
    assert_eq!(deadline, s.now + 10_000);
    let id = s.r.instances[0].handle.unwrap().id;
    assert_eq!(s.fake(id).app, "api");
    s.fake(id).alive = false;
    let exits = s.exits();
    assert!(matches!(s.r.teardown_step(&exits, s.now, deadline), TeardownStep::Wait));
    let exits = s.exits();
    match s.r.teardown_step(&exits, deadline, deadline) {
        TeardownStep::Kill(g) => {
            assert_eq!(g, groups[1..].to_vec());
            s.kill(&g);
        }
        other => panic!("{:?}", other),
    }
    let exits = s.exits();
    assert!(matches!(s.r.teardown_step(&exits, deadline, deadline), TeardownStep::Done));
}

#[test]
fn a_snapshot_shows_what_is_there() {
    let mut s = start(adopt(quick(), vec![], vec![web(2, "secret")]), NameMap::new());
    s.tick();
    s.now = 3_700;
    let st = s.state();
    assert_eq!(st.state_version, 1);
    assert_eq!(st.project, "test");
    assert_eq!(st.owner_pid, 7);
    assert_eq!(st.updated_at, 99);
    assert_eq!(st.apps.len(), 1);
    assert_eq!(st.apps[0].ready, 2);
    let i = st.apps[0].instances[1];
    assert_eq!((i.replica, i.port, i.pid, i.pgid), (1, 8081, Some(1001), Some(1001)));
    assert_eq!(i.uptime_secs, 3);
    assert!(!format!("{:?}", st).contains("secret"));
    assert_eq!(s.r.state_path, "/srv/.artzain/state.json");
}

#[test]
fn what_starts_an_instance() {
    let mut app = web(1, "v1");
    app.args = vec!["--x".to_string()];
    app.dir = Some("/work".to_string());
    let mut d = quick();
    d.env = vec![("MARK".to_string(), "default".to_string()), ("A".to_string(), "1".to_string())];
    d.inherit_env = vec!["EXTRA".to_string(), "MISSING".to_string()];
    let mut s = start(adopt(d, vec![], vec![app]), NameMap::new());
    let plan = s.r.tick(&vec![], 0);
    assert_eq!(plan.start, vec![0]);
    let pair = |k: &str, v: &str| (k.to_string(), v.to_string());
    let parent = vec![
        pair("HOME", "/home/me"),
        pair("SECRET", "do not pass on"),
        pair("EXTRA", "yes"),
        pair("PORT", "1"),
    ];
    let spawn = s.r.launch(0, &parent).unwrap();
    assert_eq!(spawn.bin, "/srv/./web");
    assert_eq!(spawn.cwd, "/work");
    assert_eq!(spawn.args, vec!["--x"]);
    assert_eq!(spawn.log_path.as_deref(), Some("/srv/.artzain/logs/web-0.log"));
    let env = |k: &str| spawn.env.get(k).cloned();
    assert_eq!(env("PATH"), Some("/usr/local/bin:/usr/bin:/bin".to_string()));
    assert_eq!(env("HOME"), Some("/home/me".to_string()));
    assert_eq!(env("EXTRA"), Some("yes".to_string()));
    assert_eq!(env("MISSING"), None);
    assert_eq!(env("SECRET"), None);
    assert_eq!(env("MARK"), Some("v1".to_string()));
    assert_eq!(env("A"), Some("1".to_string()));
    assert_eq!(env("PORT"), Some("8080".to_string()));
    assert_eq!(env("ARTZAIN_APP"), Some("web".to_string()));
    assert_eq!(env("ARTZAIN_REPLICA"), Some("0".to_string()));

    let with_path = instance_env(&vec![pair("PATH", "/p")], &s.r.manifest, &s.r.manifest.apps[0], 3, 9);
    assert_eq!(with_path.get("PATH"), Some(&"/p".to_string()));
    assert_eq!(with_path.get("ARTZAIN_REPLICA"), Some(&"3".to_string()));
}

#[test]
fn places_are_asked_for_in_order() {
    let apps = vec![web(2, ""), App::declared("api", "./api", 9000), App::declared("z", "./z", 1)];
    let m = adopt(quick(), vec![], apps);
    let only = ["web".to_string(), "api".to_string()];
    let selected = select_apps(&m, Some(&only)).unwrap();
    let mut s = start_with(m, selected, NameMap::new());
    let show = |r: &Reconciler| -> Vec<(String, u32, u16)> {
        r.desired_slots().iter().map(|x| (x.app.clone(), x.replica, x.port)).collect()
    };
    let name = |n: &str| n.to_string();
    assert_eq!(
        show(&s.r),
        vec![(name("api"), 0, 9000), (name("web"), 0, 8080), (name("web"), 1, 8081)]
    );
    let before = s.r.desired_slots()[1].hash;
    s.r.slot_ports.insert(name("web"), 0, 9500);
    s.r.slot_ports.insert(name("web"), 0, 9600);
    assert_eq!(show(&s.r)[1], (name("web"), 0, 9600));
    assert_ne!(s.r.desired_slots()[1].hash, before);
}

#[test]
fn the_loop_ends_when_it_should() {
    assert_eq!(after_tick(0, 5, true), LoopStep::Stop(true));
    assert_eq!(after_tick(3, 5, false), LoopStep::Sleep);
    assert_eq!(after_tick(4, 5, false), LoopStep::Stop(false));
    assert_eq!(after_tick(usize::MAX, usize::MAX, false), LoopStep::Stop(false));
    assert_eq!(after_tick(0, usize::MAX, false), LoopStep::Sleep);
}

#[test]
fn a_roll_goes_on_where_no_port_is_free() {
    let mut d = quick();
    d.max_surge = 1;
    let app = |mark: &str| {
        let mut a = web(1, mark);
        a.port = 65534;
        a
    };
    let apps = |mark: &str| vec![app(mark), App::declared("b", "./b", 65535)];
    let mut s = start(adopt(d.clone(), vec![], apps("")), NameMap::new());
    s.tick();
    for (mark, started) in [("v2", 3), ("v3", 4), ("v4", 5)] {
        s.r.reload(Ok(adopt(d.clone(), vec![], apps(mark)))).unwrap();
        for _ in 0..6 {
            s.tick();
        }
        // The port right above the app's own is tried, again and again, whoever has it.
        assert_eq!(s.procs.len(), started);
        assert_eq!(of(&s.r, "web").len(), 1);
        assert_eq!(of(&s.r, "web")[0].port, 65535);
    }
}

#[test]
fn processes_stay_within_the_budget() {
    for surge in 0..3u32 {
        let mut d = quick();
        d.max_surge = surge;
        let mut s = start(adopt(d.clone(), vec![], vec![web(2, "")]), NameMap::new());
        s.ignore_terminate = true;
        s.tick();
        for mark in ["v2", "v3"] {
            s.r.reload(Ok(adopt(d.clone(), vec![], vec![web(2, mark)]))).unwrap();
            for _ in 0..60 {
                s.tick();
                let live = s.procs.iter().filter(|p| p.alive).count() as u32;
                assert!(live <= 2 + surge, "{} processes", live);
            }
            assert_eq!(s.ready_count("web"), 2);
        }
    }
}

#[test]
fn environments_do_not_show_in_the_state() {
    let mut one = start(adopt(quick(), vec![], vec![web(2, "hunter2")]), NameMap::new());
    let mut two = start(adopt(quick(), vec![], vec![web(2, "x")]), NameMap::new());
    one.tick();
    two.tick();
    assert_ne!(one.r.instances[0].spec_hash, two.r.instances[0].spec_hash);
    assert_eq!(format!("{:?}", one.state()), format!("{:?}", two.state()));
}
