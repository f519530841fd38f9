use artzain::checks::{check_target, checks_to_verify, verify_checks, CheckTarget};
use artzain::fingerprint::spec_hash;
use artzain::fleet::backoff_delay;
use artzain::manifest::{App, Check, Defaults, Limits, Manifest};
use artzain::probe::{request_text, split_host_path, status_line_ok, status_ok};
use artzain::process::{
    child_steps, color_for, group_target, is_alive, listed_pids, log_file, memory_bytes,
    port_listeners, process_target, rotate_log, rotation_due, size_after, tag, ChildStep, LogMove,
};
use artzain::select_apps;
use artzain::slots::surge_port_for;
use artzain::state::Phase;
use artzain::systemd::{default_binary, generate_unit, unit_for, UnitOptions};
use artzain::validate::Account;
use std::time::Duration;

fn manifest(apps: Vec<App>) -> Manifest {
    let found = apps.iter().map(|_| Account { user: None, group: None }).collect();
    Manifest {
        project: None,
        vars: vec![],
        defaults: Defaults::default(),
        checks: vec![],
        apps,
        base_dir: String::new(),
    }
    .adopt("artzain.toml", &found, true)
    .unwrap()
}

#[test]
fn accepts_2xx_3xx_rejects_others() {
    assert!(status_ok(b"HTTP/1.1 200 OK\r\n"));
    assert!(status_ok(b"HTTP/1.1 204 No Content\r\n"));
    assert!(status_ok(b"HTTP/1.1 301 Moved\r\n"));
    assert!(!status_ok(b"HTTP/1.1 404 Not Found\r\n"));
    assert!(!status_ok(b"HTTP/1.1 500 Boom\r\n"));
    assert!(!status_ok(b"garbage"));
    assert!(!status_ok(b""));
}

#[test]
fn status_lines_at_the_edges() {
    assert!(status_line_ok("HTTP/2 399"));
    assert!(!status_line_ok("HTTP/2 400"));
    assert!(!status_line_ok("HTTP/2 199"));
    assert!(!status_line_ok("HTTP/2 70000"));
    assert!(!status_line_ok("HTTP/2"));
    assert!(!status_line_ok("http/1.1 200 OK"));
    // The line ends at the first carriage return or line feed.
    assert!(!status_ok(b"HTTP/1.1\n200 OK"));
    // What is no UTF-8 does not matter where it does not stand in the way.
    assert!(status_ok(b"HTTP/1.1 200 \xff\xfe\r\n"));
    assert!(!status_ok(b"\xffHTTP/1.1 200 OK\r\n"));
}

#[test]
fn split_host_path_splits_on_first_slash() {
    let (host, path) = split_host_path("127.0.0.1:8080/health");
    assert_eq!((host.as_str(), path.as_str()), ("127.0.0.1:8080", "/health"));
    let (host, path) = split_host_path("127.0.0.1:8080");
    assert_eq!((host.as_str(), path.as_str()), ("127.0.0.1:8080", "/"));
}

#[test]
fn requests_name_the_host_without_the_port() {
    assert_eq!(
        request_text("127.0.0.1:8080", "/__ready"),
        "GET /__ready HTTP/1.1\r\nHost: 127.0.0.1\r\nUser-Agent: artzain\r\nConnection: close\r\n\r\n"
    );
    assert!(request_text("::1:80", "/").contains("Host: ::1\r\n"));
    assert!(request_text("host", "/").contains("Host: host\r\n"));
}

#[test]
fn backoff_grows_and_caps() {
    let backoff_delay = |b, c, r| Duration::from_millis(backoff_delay(b, c, r));
    assert_eq!(backoff_delay(500, 30_000, 1), Duration::from_millis(500));
    assert_eq!(backoff_delay(500, 30_000, 2), Duration::from_millis(1000));
    assert_eq!(backoff_delay(500, 30_000, 3), Duration::from_millis(2000));
    // Caps out.
    assert_eq!(
        backoff_delay(500, 30_000, 20),
        Duration::from_millis(30_000)
    );
}

#[test]
fn backoff_at_the_edges() {
    assert_eq!(backoff_delay(500, 30_000, 0), 500);
    assert_eq!(backoff_delay(1, u64::MAX, 21), 1 << 20);
    assert_eq!(backoff_delay(1, u64::MAX, 22), 1 << 20);
    assert_eq!(backoff_delay(1, u64::MAX, u32::MAX), 1 << 20);
    assert_eq!(backoff_delay(u64::MAX, u64::MAX, 5), u64::MAX);
    assert_eq!(backoff_delay(u64::MAX, 7, 1), 7);
    assert_eq!(backoff_delay(0, 7, 9), 0);
}

#[test]
fn spec_hash_changes_with_relevant_fields() {
    let m = manifest(vec![App::declared("x", "./x", 8080)]);
    let a = &m.apps[0];
    let h1 = spec_hash(&m, a, 0, 8080);
    let h2 = spec_hash(&m, a, 0, 8081); // different port
    assert_ne!(h1, h2);

    let mut changed = App::declared("x", "./x", 8080);
    changed.args = vec!["--flag".to_string()];
    let m2 = manifest(vec![changed]);
    // args changed -> stale
    assert_ne!(
        spec_hash(&m, a, 0, 8080),
        spec_hash(&m2, &m2.apps[0], 0, 8080)
    );
}

#[test]
fn spec_hash_ignores_the_number_of_replicas() {
    let m = manifest(vec![App::declared("x", "./x", 8080)]);
    let mut scaled = App::declared("x", "./x", 8080);
    scaled.replicas = 4;
    scaled.depends_on = vec![];
    let m2 = manifest(vec![scaled]);
    assert_eq!(spec_hash(&m, &m.apps[0], 0, 8080), spec_hash(&m2, &m2.apps[0], 0, 8080));

    let mut own = App::declared("x", "./x", 8080);
    own.env = vec![("A".to_string(), "1".to_string())];
    let m3 = manifest(vec![own]);
    assert_ne!(spec_hash(&m, &m.apps[0], 0, 8080), spec_hash(&m3, &m3.apps[0], 0, 8080));
    let mut m4 = manifest(vec![App::declared("x", "./x", 8080)]);
    m4.defaults.env = vec![("A".to_string(), "1".to_string())];
    assert_eq!(spec_hash(&m3, &m3.apps[0], 0, 8080), spec_hash(&m4, &m4.apps[0], 0, 8080));
}

#[test]
fn spec_hash_goes_by_the_parts_of_a_path() {
    let hash = |bin: &str, dir: Option<&str>| {
        let mut a = App::declared("x", bin, 8080);
        a.dir = dir.map(|d| d.to_string());
        let m = manifest(vec![a]);
        spec_hash(&m, &m.apps[0], 0, 8080)
    };
    assert_eq!(hash("a/b", None), hash("a//b", None));
    assert_eq!(hash("a/b", None), hash("a/./b/", None));
    assert_eq!(hash("/a", Some("d/e")), hash("//a", Some("d/./e/.")));
    assert_ne!(hash("a/b", None), hash("./a/b", None));
    assert_ne!(hash("a/b", None), hash("/a/b", None));
    assert_ne!(hash("a/b", None), hash("a/../b", None));
    assert_ne!(hash("a", None), hash("a", Some("")));
    assert_ne!(hash("a", Some(".")), hash("a", Some("")));
}

#[test]
fn surge_port_is_outside_declared_ranges() {
    let mut first = App::declared("a", "./a", 8080);
    first.replicas = 2;
    let m = manifest(vec![first, App::declared("b", "./b", 8082)]);
    let a = m.app("a").unwrap();
    let surge = surge_port_for(&m, a, &vec![]);
    // 8080 and 8081 are claimed by `a`; 8082 by `b`. Surge must be 8083 or higher.
    assert!(surge >= 8083);
    assert_eq!(surge, 8083);
    assert_eq!(surge_port_for(&m, a, &vec![8083, 8085]), 8084);
}

#[test]
fn surge_port_falls_back_where_none_is_free() {
    let m = manifest(vec![App::declared("a", "./a", 65534), App::declared("b", "./b", 65535)]);
    assert_eq!(surge_port_for(&m, m.app("a").unwrap(), &vec![]), 65535);
    assert_eq!(surge_port_for(&m, m.app("b").unwrap(), &vec![]), 0);
}

#[test]
fn generated_unit_contains_required_directives() {
    let opts = UnitOptions {
        user: "artzain",
        group: "artzain",
        manifest: "/srv/app/artzain.toml",
        binary: "/usr/local/bin/artzain",
        memory_max: Some("512M"),
        stop_grace_secs: 10,
    };
    let unit = generate_unit(opts);
    assert!(unit.contains("User=artzain"));
    assert!(unit.contains("Group=artzain"));
    assert!(unit.contains("ExecStart=/usr/local/bin/artzain -f /srv/app/artzain.toml up"));
    assert!(unit.contains("Restart=on-failure"));
    assert!(unit.contains("KillSignal=SIGTERM"));
    assert!(unit.contains("TimeoutStopSec=10"));
    assert!(unit.contains("NoNewPrivileges=true"));
    assert!(unit.contains("ProtectSystem=strict"));
    assert!(unit.contains("ProtectHome=true"));
    assert!(unit.contains("PrivateTmp=true"));
    assert!(unit.contains("MemoryMax=512M"));
}

#[test]
fn generated_unit_omits_memory_max_when_none() {
    let opts = UnitOptions {
        user: "artzain",
        group: "artzain",
        manifest: "/srv/app/artzain.toml",
        binary: "/usr/local/bin/artzain",
        memory_max: None,
        stop_grace_secs: 10,
    };
    let unit = generate_unit(opts);
    assert!(!unit.contains("MemoryMax"));
}

#[test]
fn unit_is_filled_in_where_nothing_was_asked_for() {
    assert_eq!(default_binary(), "/usr/local/bin/artzain");
    let unit = unit_for("a.toml", None, None, None, None, None);
    assert_eq!(
        unit,
        "[Unit]\nDescription=artzain fleet for a.toml\nAfter=network.target\n\n[Service]\n\
         Type=simple\nUser=artzain\nGroup=artzain\nExecStart=/usr/local/bin/artzain -f a.toml up\n\
         Restart=on-failure\nRestartSec=5\nKillSignal=SIGTERM\nTimeoutStopSec=15\n\
         NoNewPrivileges=true\nProtectSystem=strict\nProtectHome=true\nPrivateTmp=true\n\
         \n[Install]\nWantedBy=multi-user.target\n"
    );
    let unit = unit_for("a.toml", Some("svc"), None, Some("/b.toml"), Some("/bin/az"), Some("2G"));
    assert!(unit.contains("User=svc\nGroup=svc\nExecStart=/bin/az -f /b.toml up\n"));
    assert!(unit.contains("PrivateTmp=true\nMemoryMax=2G\n\n[Install]"));
    let unit = unit_for("a.toml", Some("svc"), Some("grp"), None, None, None);
    assert!(unit.contains("User=svc\nGroup=grp\n"));
}

#[test]
fn colours_go_by_the_bytes_of_the_name() {
    assert_eq!(color_for(""), "36");
    assert_eq!(color_for("a"), "93"); // 97
    assert_eq!(color_for("ab"), "96"); // 97 + 98
    assert_eq!(color_for("web"), color_for("web"));
    assert_eq!(color_for("é"), "34"); // 0xc3 + 0xa9
}

#[test]
fn labels_are_padded() {
    assert_eq!(tag("web", 0, "36"), "\u{1b}[36m[web/0         ]\u{1b}[0m");
    assert_eq!(
        tag("a-rather-long-name", 12, "94"),
        "\u{1b}[94m[a-rather-long-name/12]\u{1b}[0m"
    );
}

#[test]
fn signals_go_to_groups_that_can_exist() {
    assert_eq!(group_target(42), Some(-42));
    assert_eq!(group_target(0), None);
    assert_eq!(group_target(-7), None);
    assert_eq!(process_target(42), Some(42));
    assert_eq!(process_target(0), None);
    assert_eq!(process_target(u32::MAX), None);
    assert!(is_alive(0, 0));
    assert!(is_alive(-1, 1)); // not permitted: it exists
    assert!(!is_alive(-1, 3)); // no such process
}

#[test]
fn listings_of_processes_are_read() {
    assert_eq!(port_listeners(b"12\n 345 \r\nnot a pid\n\n-1\n"), vec![12, 345, -1]);
    assert_eq!(port_listeners(b""), Vec::<i32>::new());
    assert_eq!(port_listeners(b"\xff\n7\n"), vec![7]);
    assert_eq!(listed_pids("99999999999\n+3"), vec![3]);
}

#[test]
fn memory_limits_in_bytes() {
    assert_eq!(memory_bytes(512), Some(536_870_912));
    assert_eq!(memory_bytes(0), Some(0));
    assert_eq!(memory_bytes(u64::MAX), None);
    assert_eq!(memory_bytes(1 << 44), None);
    assert_eq!(memory_bytes((1 << 44) - 1), Some(((1u64 << 44) - 1) << 20));
}

#[test]
fn a_new_process_changes_its_groups_before_its_user() {
    let limits = |files: Option<u64>, mib: Option<u64>| Some(Limits { open_files: files, memory_mb: mib });
    assert_eq!(child_steps(None, None, &None), Some(vec![]));
    assert_eq!(
        child_steps(Some(10), Some(20), &limits(Some(64), Some(1))),
        Some(vec![
            ChildStep::SetGroup(20),
            ChildStep::ClearGroups,
            ChildStep::SetUser(10),
            ChildStep::LimitFiles(64),
            ChildStep::LimitMemory(1_048_576),
        ])
    );
    assert_eq!(child_steps(Some(10), None, &None), Some(vec![ChildStep::SetUser(10)]));
    assert_eq!(child_steps(None, None, &limits(None, Some(u64::MAX))), None);
}

#[test]
fn logs_rotate_at_their_limit() {
    assert!(!rotation_due(0, 99, 100));
    assert!(rotation_due(1, 99, 100));
    assert!(!rotation_due(u64::MAX, u64::MAX, 0));
    assert!(rotation_due(u64::MAX, u64::MAX, u64::MAX));
    assert_eq!(size_after(10, 5, false), 16);
    assert_eq!(size_after(10, 5, true), 6);
    assert_eq!(size_after(u64::MAX, 5, false), u64::MAX);
}

#[test]
fn rotation_moves_every_backup_up() {
    assert_eq!(rotate_log(0), vec![LogMove::Remove(0)]);
    assert_eq!(rotate_log(1), vec![LogMove::Remove(0)]);
    assert_eq!(rotate_log(2), vec![LogMove::Remove(1), LogMove::Shift(0)]);
    assert_eq!(
        rotate_log(4),
        vec![LogMove::Remove(3), LogMove::Shift(2), LogMove::Shift(1), LogMove::Shift(0)]
    );
    assert_eq!(log_file("logs/web-0.log", 0), "logs/web-0.log");
    assert_eq!(log_file("logs/web-0.log", 2), "logs/web-0.log.2");
}

#[test]
fn log_files_together_stay_bounded() {
    let (max, keep) = (100u64, 3u32);
    // The sizes of the files that are there, the current one first.
    let mut sizes: Vec<Option<u64>> = vec![Some(0), None, None, None];
    for n in 0..200u64 {
        let len = (n * 37) % 99;
        let due = rotation_due(sizes[0].unwrap_or(0), len, max);
        if due {
            for m in rotate_log(keep) {
                match m {
                    LogMove::Remove(i) => sizes[i as usize] = None,
                    LogMove::Shift(i) => {
                        let size = sizes[i as usize].take();
                        sizes[i as usize + 1] = size;
                    }
                }
            }
        }
        sizes[0] = Some(size_after(sizes[0].unwrap_or(0), len, due));
        assert!(sizes.iter().flatten().all(|s| *s <= max));
        assert!(sizes.iter().flatten().sum::<u64>() <= max * keep as u64);
        assert_eq!(sizes[3], None);
    }
    assert!(sizes[2].is_some());
}

#[test]
fn checks_are_made_over_tcp_before_http() {
    let check = |tcp: Option<&str>, http: Option<&str>| Check {
        name: "c".to_string(),
        tcp: tcp.map(|s| s.to_string()),
        http: http.map(|s| s.to_string()),
        hint: None,
    };
    match check_target(&check(Some("h:1"), Some("h:2/x"))) {
        Some(CheckTarget::Tcp(a)) => assert_eq!(a, "h:1"),
        _ => panic!("not over TCP"),
    }
    match check_target(&check(None, Some("h:2/x/y"))) {
        Some(CheckTarget::Http(a, p)) => assert_eq!((a.as_str(), p.as_str()), ("h:2", "/x/y")),
        _ => panic!("not over HTTP"),
    }
    assert!(check_target(&check(None, None)).is_none());
}

#[test]
fn failed_checks_are_all_named() {
    let check = |name: &str, hint: Option<&str>| Check {
        name: name.to_string(),
        tcp: Some("h:1".to_string()),
        http: None,
        hint: hint.map(|s| s.to_string()),
    };
    let checks = vec![check("pg", Some("start it")), check("redis", None), check("ok", None)];
    match verify_checks(&checks, &vec![0, 1, 2], &vec![true, true, true]) {
        Ok(map) => {
            assert_eq!(map.get("pg"), Some(&true));
            assert_eq!(map.get("other"), None);
        }
        Err(e) => panic!("{}", e),
    }
    match verify_checks(&checks, &vec![0, 1, 2], &vec![false, false, true]) {
        Ok(_) => panic!("failed checks passed"),
        Err(e) => assert_eq!(
            e,
            "dependency checks failed:\n  - `pg` is not reachable — try: start it\n  - `redis` is not reachable"
        ),
    }
}

#[test]
fn only_checks_that_matter_to_the_selection_are_made() {
    let check = |name: &str| Check {
        name: name.to_string(),
        tcp: Some("h:1".to_string()),
        http: None,
        hint: None,
    };
    let mut web = App::declared("web", "./web", 1);
    web.depends_on = vec!["db".to_string(), "pg".to_string()];
    let mut db = App::declared("db", "./db", 2);
    db.depends_on = vec!["disk".to_string()];
    let mut other = App::declared("other", "./o", 3);
    other.depends_on = vec!["redis".to_string(), "pg".to_string()];
    let mut m = manifest(vec![]);
    m.apps = vec![web, db, other];
    m.checks = vec![check("redis"), check("pg"), check("bare"), check("disk")];
    let web = select_apps(&m, Some(&["web".to_string()])).unwrap();
    let made = checks_to_verify(&m, &web);
    // `redis` is for `other` alone; `bare` is nobody's; `disk` comes with `db`.
    assert_eq!(made, vec![1, 2, 3]);
    match verify_checks(&m.checks, &made, &vec![true, true, true]) {
        Ok(map) => {
            assert_eq!(map.get("pg"), Some(&true));
            assert_eq!(map.get("redis"), None);
        }
        Err(e) => panic!("{}", e),
    }
    match verify_checks(&m.checks, &made, &vec![true, false, true]) {
        Ok(_) => panic!("a failed check passed"),
        Err(e) => assert_eq!(e, "dependency checks failed:\n  - `bare` is not reachable"),
    }
    let db = select_apps(&m, Some(&["db".to_string()])).unwrap();
    assert_eq!(checks_to_verify(&m, &db), vec![2, 3]);
    let all = select_apps(&m, None).unwrap();
    assert_eq!(checks_to_verify(&m, &all), vec![0, 1, 2, 3]);
}

#[test]
fn phases_have_names() {
    assert_eq!(Phase::Pending.as_str(), "Pending");
    assert_eq!(Phase::Starting.as_str(), "Starting");
    assert_eq!(Phase::Ready.as_str(), "Ready");
    assert_eq!(Phase::Unready.as_str(), "Unready");
    assert_eq!(Phase::CrashLoopBackOff.as_str(), "CrashLoopBackOff");
    assert_eq!(Phase::Terminating.as_str(), "Terminating");
}
