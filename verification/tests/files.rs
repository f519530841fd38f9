use artzain::fixture::{
    id_text, json_object, limits_text, parse_ms, path_in, read_proc_limit, request_path, response,
    route, Content,
};
use artzain::lock::Lock;
use artzain::logs::{follow_from, log_files, tail};
use artzain::manifest::{App, Check, Defaults, Manifest};
use artzain::order::{stable_order, NameSet};
use artzain::paths::{base_dir, join, last_component, log_path, parent, temp_sibling};
use artzain::reclaim::{
    lock_left_behind, on_state_file, reclaim_deadline, reclaim_step, recorded_groups, ReclaimStep,
    StateAction, StateFile,
};
use artzain::report::{fully_ready, may_signal, missing_state, plan_apps, plan_head, status_lines};
use artzain::select_apps;
use artzain::state::{AppStatus, ClusterState, InstanceStatus, Phase};
use artzain::validate::Account;

fn row(replica: u32, pgid: Option<i32>, phase: Phase) -> InstanceStatus {
    InstanceStatus { replica, port: 8080 + replica as u16, phase, pid: None, pgid, restarts: 2, uptime_secs: 12 }
}

fn state(apps: Vec<AppStatus>) -> ClusterState {
    ClusterState { state_version: 1, project: "demo".to_string(), owner_pid: 41233, updated_at: 100, apps }
}

#[test]
fn tail_keeps_last_n_lines() {
    let mut text = String::new();
    for i in 0..10 {
        text.push_str(&format!("line {}\n", i));
    }
    assert_eq!(tail(&text, 3), vec!["line 7", "line 8", "line 9"]);
    assert_eq!(tail(&text, 100).len(), 10);
    assert_eq!(tail(&text, 0).len(), 0);
    assert_eq!(tail("a\r\n\nb", 2), vec!["", "b"]);
}

#[test]
fn tail_empty_file() {
    assert_eq!(tail("", 5).len(), 0);
}

#[test]
fn following_starts_over_after_a_rotation() {
    assert_eq!(follow_from(0, 0, 0), None);
    assert_eq!(follow_from(0, 0, 10), Some(0));
    assert_eq!(follow_from(10, 10, 15), Some(10));
    assert_eq!(follow_from(10, 10, 10), None);
    assert_eq!(follow_from(10, 10, 4), Some(0));
    assert_eq!(follow_from(5, 9, 7), Some(0));
}

#[test]
fn log_files_of_an_app_in_order() {
    let names: Vec<String> =
        ["web-1.log", "web-0.log.1", "api-0.log", "web-0.log"].iter().map(|s| s.to_string()).collect();
    assert_eq!(log_files(&names, Some("web")).to_list(), vec!["web-0.log", "web-0.log.1", "web-1.log"]);
    assert_eq!(log_files(&names, None).len(), 4);
    assert_eq!(log_files(&names, Some("web-0.log")).to_list(), vec!["web-0.log.1"]);
    assert_eq!(log_files(&names, Some("zzz")).len(), 0);
}

#[test]
fn lock_is_refused_only_to_others_while_its_owner_lives() {
    assert_eq!(Lock::path("/srv"), "/srv/.artzain/lock");
    let lock = Lock::acquire("/srv", 7, 50, None, false).unwrap();
    assert_eq!((lock.pid, lock.started_at), (7, 50));
    assert_eq!(lock.path, "/srv/.artzain/lock");
    assert!(Lock::acquire("/srv", 7, 50, Some(7), true).is_ok());
    assert!(Lock::acquire("/srv", 7, 50, Some(8), false).is_ok());
    assert_eq!(
        Lock::acquire("/srv", 7, 50, Some(8), true).unwrap_err(),
        "another artzain process is already running for this manifest (pid 8)"
    );
}

#[test]
fn lock_file_is_removed_only_by_its_owner() {
    let lock = Lock::acquire("/srv", 7, 50, None, false).unwrap();
    assert!(lock.released(Some(7)));
    assert!(!lock.released(Some(8)));
    assert!(!lock.released(None));
    assert!(!Lock::current(7, 50).released(Some(7)));
}

#[test]
fn orphans_are_awaited_and_then_killed() {
    let s = state(vec![
        AppStatus {
            name: "a".to_string(),
            desired: 2,
            ready: 0,
            instances: vec![row(0, Some(11), Phase::Ready), row(1, None, Phase::Pending)],
        },
        AppStatus {
            name: "b".to_string(),
            desired: 1,
            ready: 0,
            instances: vec![row(0, Some(22), Phase::Ready)],
        },
    ]);
    let groups = recorded_groups(&s);
    assert_eq!(groups, vec![11, 22]);
    let deadline = reclaim_deadline(1000);
    assert_eq!(deadline, 3000);
    assert!(matches!(reclaim_step(&groups, &vec![false, false], 1000, deadline), ReclaimStep::Done));
    assert!(matches!(reclaim_step(&groups, &vec![false, true], 2999, deadline), ReclaimStep::Wait));
    match reclaim_step(&groups, &vec![false, true], 3000, deadline) {
        ReclaimStep::Kill(list) => assert_eq!(list, vec![22]),
        _ => panic!("not killed at the deadline"),
    }
    assert!(lock_left_behind(Some(999_999), 7, false));
    assert!(!lock_left_behind(Some(8), 7, true));
    assert!(!lock_left_behind(Some(7), 7, true));
    assert!(!lock_left_behind(None, 7, false));
    assert_eq!(on_state_file(StateFile::Absent), StateAction::Leave);
    assert_eq!(on_state_file(StateFile::Unreadable), StateAction::Fail);
    assert_eq!(on_state_file(StateFile::Garbled), StateAction::Discard);
    assert_eq!(on_state_file(StateFile::OwnerLives), StateAction::Leave);
    assert_eq!(on_state_file(StateFile::OwnerGone), StateAction::Reclaim);
}

#[test]
fn status_is_laid_out_in_columns() {
    let s = state(vec![
        AppStatus {
            name: "web".to_string(),
            desired: 3,
            ready: 1,
            instances: vec![row(0, None, Phase::Ready), row(1, None, Phase::CrashLoopBackOff)],
        },
        AppStatus { name: "api".to_string(), desired: 1, ready: 0, instances: vec![] },
    ]);
    assert_eq!(
        status_lines(&s, 103),
        vec![
            "cluster demo  (pid 41233, updated 3s ago)",
            "",
            "APP              READY    REPLICA PORT   PHASE    RESTARTS",
            "web              1/3      0       8080   Ready    2 (12s up)",
            "web              1/3      1       8081   CrashLoopBackOff 2 (12s up)",
            "api              0/1      (no instances)",
        ]
    );
    assert_eq!(status_lines(&s, 50)[0], "cluster demo  (pid 41233, updated 0s ago)");
    assert!(!fully_ready(&s));
    let full = state(vec![AppStatus { name: "x".to_string(), desired: 1, ready: 1, instances: vec![] }]);
    assert!(fully_ready(&full));
    assert!(fully_ready(&state(vec![])));
}

#[test]
fn a_cluster_is_signalled_only_through_its_lock() {
    assert!(may_signal(7, Some(7), true).is_ok());
    assert_eq!(
        may_signal(7, Some(7), false).unwrap_err(),
        "cluster owner pid 7 is not running; the cluster may already be down (use --force to override)"
    );
    assert!(may_signal(u32::MAX, Some(u32::MAX), false).unwrap_err().contains("owner pid -1 is not"));
    assert!(may_signal(7, Some(8), true).unwrap_err().starts_with("lock file does not match"));
    assert!(may_signal(7, None, true).unwrap_err().starts_with("no lock file found"));
    assert_eq!(
        missing_state("/srv/.artzain/state.json"),
        "no running cluster (state file /srv/.artzain/state.json not found) — start one with `artzain up`"
    );
}

#[test]
fn plans_show_checks_and_apps_in_start_order() {
    let mut web = App::declared("web", "./web", 8080);
    web.replicas = 3;
    web.depends_on = vec!["db".to_string(), "pg".to_string()];
    let apps = vec![web, App::declared("db", "/bin/db", 5000)];
    let check = Check {
        name: "pg".to_string(),
        tcp: None,
        http: Some("h:1/x".to_string()),
        hint: None,
    };
    let none = || Account { user: None, group: None };
    let m = Manifest {
        project: Some("demo".to_string()),
        vars: vec![],
        defaults: Defaults::default(),
        checks: vec![check],
        apps,
        base_dir: String::new(),
    }
    .adopt("/srv/a.toml", &vec![none(), none()], true)
    .unwrap();
    assert_eq!(plan_head(&m), vec!["project: demo", "check:   pg (h:1/x)"]);
    let all = select_apps(&m, None).unwrap();
    assert_eq!(
        plan_apps(&m, &all).unwrap(),
        vec![
            "app:     db x1 — /bin/db (ports 5000)",
            "app:     web x3 — /srv/./web (ports 8080-8082)",
        ]
    );
    let one = select_apps(&m, Some(&["db".to_string()])).unwrap();
    assert_eq!(plan_apps(&m, &one).unwrap().len(), 1);
}

#[test]
fn paths_of_the_control_directory() {
    assert_eq!(base_dir("artzain.toml"), ".");
    assert_eq!(base_dir("dir/artzain.toml"), "dir");
    assert_eq!(base_dir("/artzain.toml"), "/");
    assert_eq!(parent("/"), None);
    assert_eq!(last_component("a/b/"), Some("b".to_string()));
    assert_eq!(join("a/", "b"), "a/b");
    assert_eq!(join("a", "/b"), "/b");
    assert_eq!(temp_sibling("/srv/.artzain/state.json", 42), "/srv/.artzain/state.json.42.tmp");
    assert_eq!(log_path(".", "web", 3), "./.artzain/logs/web-3.log");
}

#[test]
fn names_stay_in_order_once_each() {
    let mut s = NameSet::new();
    assert!(s.insert("b"));
    assert!(s.insert("a"));
    assert!(!s.insert("b"));
    assert_eq!(s.to_list(), vec!["a", "b"]);
    assert_eq!(stable_order(&vec![3, 1, 3, 0]), vec![3, 1, 0, 2]);
}

#[test]
fn the_fixture_answers_as_it_is_told() {
    assert_eq!(route("/__ready", 100, Some(200), None), Content::NotReady);
    assert_eq!(route("/__ready", 200, Some(200), None), Content::Ready);
    assert_eq!(route("/__ready", 0, None, None), Content::Ready);
    assert_eq!(route("/__health", 299, None, Some(300)), Content::Healthy);
    assert_eq!(route("/__health", 300, None, Some(300)), Content::Unhealthy);
    assert_eq!(route("/__metrics", 0, None, None), Content::Metrics);
    assert_eq!(route("/__env", 0, None, None), Content::Environment);
    assert_eq!(route("/__id", 0, None, None), Content::Identity);
    assert_eq!(route("/__limits", 0, None, None), Content::Limits);
    assert_eq!(route("/other", 0, None, None), Content::NotFound);
    assert_eq!(Content::NotReady.status(), "503 Not Ready");
    assert_eq!(Content::NotFound.fixed(), Some("not found"));
    assert_eq!(Content::Environment.fixed(), None);
    assert_eq!(request_path(b"GET /__ready HTTP/1.1\r\nHost: x\r\n\r\n"), "/__ready");
    assert_eq!(request_path(b"\xff /\xff x"), "/\u{fffd}");
    assert_eq!(path_in("GET"), "/");
    assert_eq!(path_in(""), "/");
    assert_eq!(
        response("200 OK", "réady"),
        "HTTP/1.1 200 OK\r\nContent-Length: 6\r\nConnection: close\r\n\r\nréady"
    );
    assert_eq!(parse_ms(Some("250")), Some(250));
    assert_eq!(parse_ms(Some("2s")), None);
    assert_eq!(parse_ms(None), None);
    let items = vec![("A".to_string(), "1".to_string()), ("B".to_string(), "x y".to_string())];
    assert_eq!(json_object(&items), "{\"A\": \"1\", \"B\": \"x y\"}");
    assert_eq!(json_object(&vec![]), "{}");
    let limits = "Limit  Soft  Hard  Units\nMax open files            1024                 4096                 files\n";
    assert_eq!(read_proc_limit(limits, "Max open files"), "1024");
    assert_eq!(read_proc_limit(limits, "Max address space"), "");
    assert_eq!(limits_text("1024", ""), "open_files=1024\naddress_space=");
    assert_eq!(id_text(0, 1000), "uid=0\ngid=1000");
}
