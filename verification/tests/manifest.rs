use artzain::manifest::{App, Check, Defaults, Limits, Manifest};
use artzain::select_apps;
use artzain::validate::Account;
use artzain::vars::{interpolate_vars, interpolate_with, only_strings};

/// Reads a manifest's text, as the program does.
fn parse(src: &str) -> Result<Manifest, String> {
    parse_with(src, &vec![])
}

fn parse_with(src: &str, env: &Vec<(String, String)>) -> Result<Manifest, String> {
    let text = interpolate_vars(src, "artzain.toml", env)?;
    let table = toml::from_str::<toml::Table>(&text).map_err(|e| e.to_string())?;
    let mut m = Manifest {
        project: text_in(&table, "project"),
        vars: vec![],
        defaults: Defaults::default(),
        checks: vec![],
        apps: vec![],
        base_dir: String::new(),
    };
    if let Some(d) = table.get("defaults").and_then(|v| v.as_table()) {
        m.defaults.env = pairs_in(d, "env");
        m.defaults.inherit_env = list_in(d, "inherit_env");
        if let Some(n) = number_in(d, "restart_backoff_ms") {
            m.defaults.restart_backoff_ms = n;
        }
        if let Some(n) = number_in(d, "restart_backoff_max_ms") {
            m.defaults.restart_backoff_max_ms = n;
        }
        if let Some(n) = number_in(d, "stable_after_secs") {
            m.defaults.stable_after_secs = n;
        }
        if let Some(n) = number_in(d, "max_surge") {
            m.defaults.max_surge = n as u32;
        }
    }
    for c in tables_in(&table, "check") {
        m.checks.push(Check {
            name: text_in(c, "name").unwrap(),
            tcp: text_in(c, "tcp"),
            http: text_in(c, "http"),
            hint: text_in(c, "hint"),
        });
    }
    for a in tables_in(&table, "app") {
        let name = text_in(a, "name").unwrap();
        let bin = text_in(a, "bin").unwrap();
        let mut app = App::declared(&name, &bin, number_in(a, "port").unwrap() as u16);
        if let Some(n) = number_in(a, "replicas") {
            app.replicas = n as u32;
        }
        if let Some(n) = number_in(a, "ready_timeout") {
            app.ready_timeout = n;
        }
        if let Some(n) = number_in(a, "live_period") {
            app.live_period = n;
        }
        if let Some(n) = number_in(a, "live_failures") {
            app.live_failures = n as u32;
        }
        if let Some(p) = text_in(a, "ready_path") {
            app.ready_path = p;
        }
        if let Some(p) = text_in(a, "live_path") {
            app.live_path = p;
        }
        app.args = list_in(a, "args");
        app.depends_on = list_in(a, "depends_on");
        app.env = pairs_in(a, "env");
        app.dir = text_in(a, "dir");
        app.user = text_in(a, "user");
        app.group = text_in(a, "group");
        m.apps.push(app);
    }
    let found = m.apps.iter().map(|_| Account { user: None, group: None }).collect();
    m.adopt("artzain.toml", &found, true)
}

fn text_in(t: &toml::Table, key: &str) -> Option<String> {
    t.get(key).and_then(|v| v.as_str()).map(|s| s.to_string())
}

fn number_in(t: &toml::Table, key: &str) -> Option<u64> {
    t.get(key).and_then(|v| v.as_integer()).map(|n| n as u64)
}

fn list_in(t: &toml::Table, key: &str) -> Vec<String> {
    match t.get(key).and_then(|v| v.as_array()) {
        Some(a) => a.iter().map(|v| v.as_str().unwrap().to_string()).collect(),
        None => vec![],
    }
}

fn pairs_in(t: &toml::Table, key: &str) -> Vec<(String, String)> {
    match t.get(key).and_then(|v| v.as_table()) {
        Some(m) => {
            m.iter().map(|(k, v)| (k.to_string(), v.as_str().unwrap().to_string())).collect()
        }
        None => vec![],
    }
}

fn tables_in<'a>(t: &'a toml::Table, key: &str) -> Vec<&'a toml::Table> {
    match t.get(key).and_then(|v| v.as_array()) {
        Some(a) => a.iter().map(|v| v.as_table().unwrap()).collect(),
        None => vec![],
    }
}

fn pair(k: &str, v: &str) -> (String, String) {
    (k.to_string(), v.to_string())
}

#[test]
fn minimal_app_defaults() {
    let m = parse(
        r#"
[[app]]
name = "todo"
bin = "./todo"
port = 8080
"#,
    )
    .unwrap();
    let a = &m.apps[0];
    assert_eq!(a.replicas, 1);
    assert_eq!(a.ready_path, "/__ready");
    assert_eq!(a.live_path, "/__health");
    assert_eq!(m.project(), "local");
    assert_eq!(m.base_dir, ".");
    assert_eq!(a.ready_timeout, 60);
    assert_eq!(a.live_period, 5);
    assert_eq!(a.live_failures, 3);
}

#[test]
fn defaults_without_a_word() {
    let d = Defaults::default();
    assert_eq!(d.restart_backoff_ms, 500);
    assert_eq!(d.restart_backoff_max_ms, 30_000);
    assert_eq!(d.stable_after_secs, 10);
    assert_eq!(d.max_surge, 0);
    assert_eq!(d.log_max_bytes, 10 * 1024 * 1024);
    assert_eq!(d.log_keep, 3);
    assert!(d.env.is_empty());
    assert!(d.inherit_env.is_empty());
}

#[test]
fn rejects_zero_replicas() {
    let err = parse(
        r#"
[[app]]
name = "x"
bin = "./x"
port = 8080
replicas = 0
"#,
    )
    .unwrap_err();
    assert!(err.to_string().contains("replicas = 0"));
}

#[test]
fn detects_port_collision_across_replicas() {
    // app `a` owns 8080..=8081, app `b` claims 8081 too.
    let err = parse(
        r#"
[[app]]
name = "a"
bin = "./a"
port = 8080
replicas = 2

[[app]]
name = "b"
bin = "./b"
port = 8081
"#,
    )
    .unwrap_err();
    assert!(err.to_string().contains("port 8081 claimed by both"));
    assert_eq!(err, "invalid manifest:\n  - port 8081 claimed by both `a` and `b`");
}

#[test]
fn orders_apps_by_dependency() {
    let m = parse(
        r#"
[[app]]
name = "gateway"
bin = "./gw"
port = 9000
depends_on = ["data"]

[[app]]
name = "data"
bin = "./data"
port = 8080
"#,
    )
    .unwrap();
    let order: Vec<_> = m
        .apps_ordered()
        .unwrap()
        .iter()
        .map(|a| a.name.clone())
        .collect();
    assert_eq!(order, vec!["data", "gateway"]);
}

#[test]
fn detects_cycles() {
    let m = parse(
        r#"
[[app]]
name = "a"
bin = "./a"
port = 8080
depends_on = ["b"]

[[app]]
name = "b"
bin = "./b"
port = 9000
depends_on = ["a"]
"#,
    )
    .unwrap();
    assert!(m.apps_ordered().is_err());
    assert_eq!(m.apps_ordered().unwrap_err(), "dependency cycle through app `a`");
}

#[test]
fn depends_on_a_check_is_valid() {
    let m = parse(
        r#"
[[check]]
name = "postgres"
tcp = "127.0.0.1:5432"

[[app]]
name = "data"
bin = "./data"
port = 8080
depends_on = ["postgres"]
"#,
    )
    .unwrap();
    // The check is not an app, so it's not in the start order, but the
    // dependency validates.
    assert_eq!(m.apps_ordered().unwrap().len(), 1);
}

#[test]
fn var_interpolation_escapes_dollar_dollar() {
    let m = parse(
        r#"
[vars]
root = "/srv/app"

[[app]]
name = "data"
bin = "$${root}/data"
port = 8080
"#,
    )
    .unwrap();
    // $$ becomes a literal $, so the bin is "${root}/data", not "/srv/app/data".
    assert_eq!(m.apps[0].bin, "${root}/data");

    // Mixed interpolation and escaping.
    let m2 = parse(
        r#"
[vars]
root = "/srv/app"

[[app]]
name = "data"
bin = "${root}/data-$$HOME"
port = 8080
"#,
    )
    .unwrap();
    assert_eq!(m2.apps[0].bin, "/srv/app/data-$HOME");
}

#[test]
fn bare_dollar_is_preserved() {
    let m = parse(
        r#"
[[app]]
name = "x"
bin = "./$x"
port = 8080
"#,
    )
    .unwrap();
    assert_eq!(m.apps[0].bin, "./$x");
}

#[test]
fn environment_overrides_a_variable_by_its_upper_case_name() {
    let src = "[vars]\nroot = \"/srv\"\n\n[[app]]\nname = \"x\"\nbin = \"${root}/x\"\nport = 1\n";
    let plain = parse(src).unwrap();
    assert_eq!(plain.apps[0].bin, "/srv/x");
    let env = vec![pair("ARTZAIN_VAR_root", "/lower"), pair("ARTZAIN_VAR_ROOT", "/opt")];
    let over = parse_with(src, &env).unwrap();
    assert_eq!(over.apps[0].bin, "/opt/x");
}

#[test]
fn unknown_and_unterminated_references_are_errors() {
    let e = interpolate_vars("bin = \"${nope}\"", "dir/a.toml", &vec![]).unwrap_err();
    assert_eq!(
        e,
        "dir/a.toml: unknown variable ${nope} — define it under [vars] or set ARTZAIN_VAR_NOPE"
    );
    let e = interpolate_vars("bin = \"${nope\"", "a.toml", &vec![]).unwrap_err();
    assert_eq!(e, "a.toml: unterminated ${...} reference");
}

#[test]
fn vars_of_other_kinds_are_not_read() {
    // A table with a value that is no string gives no variables at all.
    let src = "x = \"${root}\"\n[vars]\nroot = \"/srv\"\nn = 1\n";
    let e = interpolate_vars(src, "a.toml", &vec![]).unwrap_err();
    assert!(e.contains("unknown variable ${root}"));
    // A date is no string either.
    let src = "x = \"${root}\"\n[vars]\nroot = \"/srv\"\nday = 2024-05-01\n";
    let e = interpolate_vars(src, "a.toml", &vec![]).unwrap_err();
    assert!(e.contains("unknown variable ${root}"));
    let some = |s: &str| Some(s.to_string());
    let table = vec![("a".to_string(), some("1")), ("b".to_string(), None)];
    assert_eq!(only_strings(Some(table)), vec![]);
    assert_eq!(only_strings(Some(vec![("a".to_string(), some("1"))])), vec![pair("a", "1")]);
    assert_eq!(only_strings(None), vec![]);
}

#[test]
fn interpolation_by_given_values() {
    let vars = vec![pair("a", "1"), pair("b", "${a}")];
    let out = interpolate_with("$a ${a}${b} $$ $", "p", &vec![], &vars).unwrap();
    assert_eq!(out, "$a 1${a} $ $");
    let escaped = "$${x} costs $$5";
    assert_eq!(interpolate_with(escaped, "p", &vec![], &vec![]).unwrap(), "${x} costs $5");
    assert_eq!(interpolate_with("no dollars", "p", &vec![], &vec![]).unwrap(), "no dollars");
}

#[test]
fn every_problem_is_reported_in_order() {
    let mut m = Manifest {
        project: None,
        vars: vec![],
        defaults: Defaults::default(),
        checks: vec![
            Check { name: "a".to_string(), tcp: None, http: None, hint: None },
            Check { name: "c".to_string(), tcp: Some("x:1".to_string()), http: None, hint: None },
        ],
        apps: vec![
            App::declared("a", "./a", 8080),
            App::declared("a", "./a", 8081),
            App::declared("b", "./b", 65535),
        ],
        base_dir: ".".to_string(),
    };
    m.apps[2].replicas = 2;
    m.apps[2].depends_on = vec!["c".to_string(), "zzz".to_string()];
    m.apps[0].user = Some("nobody-here".to_string());
    m.apps[1].group = Some("no-group".to_string());
    let none = || Account { user: None, group: None };
    let e = m.validate(&vec![none(), none(), none()], true).unwrap_err();
    assert_eq!(
        e,
        "invalid manifest:\n  - duplicate app name `a`\
         \n  - app `b`: port 65535 + 2 replicas overflows the port range\
         \n  - check `a` collides with another name\
         \n  - check `a` needs `tcp` or `http`\
         \n  - app `b` depends on unknown `zzz` (not an app or check)\
         \n  - app `a`: unknown user `nobody-here`\
         \n  - app `a`: unknown group `no-group`"
    );
}

#[test]
fn accounts_are_resolved() {
    let mut m = Manifest {
        project: Some("demo".to_string()),
        vars: vec![],
        defaults: Defaults::default(),
        checks: vec![],
        apps: vec![
            App::declared("a", "./a", 1),
            App::declared("b", "./b", 2),
            App::declared("c", "./c", 3),
        ],
        base_dir: ".".to_string(),
    };
    m.apps[0].user = Some("u".to_string());
    m.apps[1].user = Some("u".to_string());
    m.apps[1].group = Some("g".to_string());
    let found = vec![
        Account { user: Some((10, 20)), group: None },
        Account { user: Some((10, 20)), group: Some(30) },
        Account { user: None, group: None },
    ];
    m.validate(&found, true).unwrap();
    assert_eq!((m.apps[0].uid, m.apps[0].gid), (Some(10), Some(20)));
    assert_eq!((m.apps[1].uid, m.apps[1].gid), (Some(10), Some(30)));
    assert_eq!((m.apps[2].uid, m.apps[2].gid), (None, None));
    assert_eq!(m.project(), "demo");
}

#[test]
fn what_only_unix_knows_is_refused_elsewhere() {
    let mut m = Manifest {
        project: None,
        vars: vec![],
        defaults: Defaults::default(),
        checks: vec![],
        apps: vec![App::declared("a", "./a", 1), App::declared("b", "./b", 2)],
        base_dir: ".".to_string(),
    };
    let found = vec![
        Account { user: Some((10, 20)), group: Some(30) },
        Account { user: None, group: None },
    ];
    assert!(m.validate(&found, false).is_ok());
    m.apps[0].user = Some("u".to_string());
    m.apps[0].group = Some("g".to_string());
    m.apps[1].limits = Some(Limits { open_files: None, memory_mb: None });
    assert_eq!(
        m.validate(&found, false).unwrap_err(),
        "invalid manifest:\n  - app `a`: user is only supported on Unix\
         \n  - app `a`: group is only supported on Unix\
         \n  - app `b`: limits are only supported on Unix"
    );
    assert_eq!((m.apps[0].uid, m.apps[0].gid), (None, None));
    assert!(m.validate(&found, true).is_ok());
    assert_eq!((m.apps[0].uid, m.apps[0].gid), (Some(10), Some(30)));
}

#[test]
fn paths_resolve_against_the_manifest() {
    let m = Manifest {
        project: None,
        vars: vec![],
        defaults: Defaults::default(),
        checks: vec![],
        apps: vec![App::declared("a", "./a", 1)],
        base_dir: String::new(),
    };
    let m = m.adopt("/srv/app/artzain.toml", &vec![Account { user: None, group: None }], true).unwrap();
    assert_eq!(m.base_dir, "/srv/app");
    assert_eq!(m.resolve("./a"), "/srv/app/./a");
    assert_eq!(m.resolve("/bin/a"), "/bin/a");
    assert!(m.app("a").is_some());
    assert!(m.app("b").is_none());
}

#[test]
fn select_apps_pulls_in_dependencies() {
    let m = parse(
        r#"
[[app]]
name = "gateway"
bin = "./gw"
port = 9000
depends_on = ["data"]

[[app]]
name = "data"
bin = "./data"
port = 8080

[[app]]
name = "unrelated"
bin = "./u"
port = 7000
"#,
    )
    .unwrap();
    let sel = select_apps(&m, Some(&["gateway".to_string()])).unwrap();
    assert!(sel.contains("gateway"));
    assert!(sel.contains("data"));
    assert!(!sel.contains("unrelated"));
    let all = select_apps(&m, None).unwrap();
    assert_eq!(all.len(), 3);
    let e = match select_apps(&m, Some(&["data".to_string(), "nope".to_string()])) {
        Ok(_) => panic!("an unknown app was selected"),
        Err(e) => e,
    };
    assert_eq!(e, "--only: unknown app `nope`");
}

#[test]
fn dependencies_are_followed_through_others_and_cycles() {
    let m = parse(
        r#"
[[app]]
name = "a"
bin = "./a"
port = 1
depends_on = ["b"]

[[app]]
name = "b"
bin = "./b"
port = 2
depends_on = ["c"]

[[app]]
name = "c"
bin = "./c"
port = 3
depends_on = ["a"]

[[app]]
name = "d"
bin = "./d"
port = 4
"#,
    )
    .unwrap();
    let sel = select_apps(&m, Some(&["c".to_string()])).unwrap();
    assert_eq!(sel.to_list(), vec!["a", "b", "c"]);
}
