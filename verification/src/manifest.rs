//! The manifest: the declared state of the cluster. A set of apps, each a prebuilt binary run at
//! some replica count, the external checks they depend on, and the defaults merged into every
//! app.

use crate::paths::{is_absolute_path, join, joined_path};
use crate::text::str_eq;
use vstd::prelude::*;

verus! {

/// Where a child looks for programs when the parent has no `PATH` of its own.
pub const DEFAULT_PATH: &'static str = "/usr/local/bin:/usr/bin:/bin";

/// The names that every child inherits from its parent's environment, where the parent has them.
pub const BASE_ENV_KEYS: [&'static str; 8] = [
    "PATH",
    "HOME",
    "TMPDIR",
    "USER",
    "LOGNAME",
    "SHELL",
    "LANG",
    "LC_ALL",
];

/// The file that a command reads when it is given no other.
pub const DEFAULT_MANIFEST: &'static str = "artzain.toml";

/// The declared state of the cluster.
#[derive(Debug, Clone)]
pub struct Manifest {
    /// Cluster label, shown in the status. `local` where there is none.
    pub project: Option<String>,
    /// Values for `${name}` in the rest of the file.
    pub vars: Vec<(String, String)>,
    pub defaults: Defaults,
    pub checks: Vec<Check>,
    pub apps: Vec<App>,
    /// The directory that relative paths are seen from.
    pub base_dir: String,
}

/// What holds for every app.
#[derive(Debug, Clone)]
pub struct Defaults {
    /// Environment merged into every app; an app's own entries win.
    pub env: Vec<(String, String)>,
    /// Names that a child inherits from the parent's environment besides the base names.
    pub inherit_env: Vec<String>,
    /// Delay before a crashed instance is started again; it doubles with each further crash.
    pub restart_backoff_ms: u64,
    /// The longest such delay.
    pub restart_backoff_max_ms: u64,
    /// An instance that was up this long starts again with a fresh crash count.
    pub stable_after_secs: u64,
    /// How many instances an app may have above its replicas while it is rolled.
    pub max_surge: u32,
    /// The size at which a log file is rotated.
    pub log_max_bytes: u64,
    /// How many log files are kept, the current one among them.
    pub log_keep: u32,
}

/// External infrastructure that is verified but not managed.
#[derive(Debug, Clone)]
pub struct Check {
    pub name: String,
    /// `host:port`, probed with a TCP connect.
    pub tcp: Option<String>,
    /// `host:port/path`, probed with a GET.
    pub http: Option<String>,
    /// Shown when the check fails.
    pub hint: Option<String>,
}

/// Resource limits of a child.
#[derive(Debug, Clone)]
pub struct Limits {
    /// The most file descriptors it may have open.
    pub open_files: Option<u64>,
    /// The most address space it may have, in MiB.
    pub memory_mb: Option<u64>,
}

/// One managed workload: a prebuilt binary run at `replicas` count. Replica `i` binds
/// `port + i`.
#[derive(Debug, Clone)]
pub struct App {
    pub name: String,
    pub bin: String,
    pub args: Vec<String>,
    pub dir: Option<String>,
    pub replicas: u32,
    pub port: u16,
    pub env: Vec<(String, String)>,
    /// Checks or other apps that must be ready before this app starts.
    pub depends_on: Vec<String>,
    /// HTTP readiness path; an app without one is ready once it runs.
    pub ready_path: String,
    /// HTTP liveness path; an app without one is never probed for it.
    pub live_path: String,
    /// Seconds to become ready for the first time.
    pub ready_timeout: u64,
    /// Seconds between liveness probes.
    pub live_period: u64,
    /// Liveness failures in a row that restart an instance.
    pub live_failures: u32,
    pub user: Option<String>,
    pub group: Option<String>,
    pub limits: Option<Limits>,
    /// The id of `user`.
    pub uid: Option<u32>,
    /// The id of `group`, or of the user's primary group.
    pub gid: Option<u32>,
}

pub fn default_backoff_ms() -> (r: u64)
    ensures
        r == 500,
{
    500
}

pub fn default_backoff_max_ms() -> (r: u64)
    ensures
        r == 30_000,
{
    30_000
}

pub fn default_stable_secs() -> (r: u64)
    ensures
        r == 10,
{
    10
}

pub fn default_log_max_bytes() -> (r: u64)
    ensures
        r == 10 * 1024 * 1024,
{
    10 * 1024 * 1024
}

pub fn default_log_keep() -> (r: u32)
    ensures
        r == 3,
{
    3
}

pub fn default_replicas() -> (r: u32)
    ensures
        r == 1,
{
    1
}

pub fn default_ready_path() -> (r: String)
    ensures
        r@ == "/__ready"@,
{
    "/__ready".to_owned()
}

pub fn default_live_path() -> (r: String)
    ensures
        r@ == "/__health"@,
{
    "/__health".to_owned()
}

pub fn default_ready_timeout() -> (r: u64)
    ensures
        r == 60,
{
    60
}

pub fn default_live_period() -> (r: u64)
    ensures
        r == 5,
{
    5
}

pub fn default_live_failures() -> (r: u32)
    ensures
        r == 3,
{
    3
}

impl Default for Defaults {
    fn default() -> (r: Defaults)
        ensures
            r.env@.len() == 0,
            r.inherit_env@.len() == 0,
            r.restart_backoff_ms == 500,
            r.restart_backoff_max_ms == 30_000,
            r.stable_after_secs == 10,
            r.max_surge == 0,
            r.log_max_bytes == 10 * 1024 * 1024,
            r.log_keep == 3,
    {
        Defaults {
            env: Vec::new(),
            inherit_env: Vec::new(),
            restart_backoff_ms: default_backoff_ms(),
            restart_backoff_max_ms: default_backoff_max_ms(),
            stable_after_secs: default_stable_secs(),
            max_surge: 0,
            log_max_bytes: default_log_max_bytes(),
            log_keep: default_log_keep(),
        }
    }
}

impl App {
    /// An app that declares its name, its binary and its port, and nothing else.
    pub fn declared(name: &str, bin: &str, port: u16) -> (r: App)
        ensures
            r.name@ == name@,
            r.bin@ == bin@,
            r.port == port,
            r.args@.len() == 0,
            r.dir is None,
            r.replicas == 1,
            r.env@.len() == 0,
            r.depends_on@.len() == 0,
            r.ready_path@ == "/__ready"@,
            r.live_path@ == "/__health"@,
            r.ready_timeout == 60,
            r.live_period == 5,
            r.live_failures == 3,
            r.user is None,
            r.group is None,
            r.limits is None,
            r.uid is None,
            r.gid is None,
    {
        App {
            name: name.to_owned(),
            bin: bin.to_owned(),
            args: Vec::new(),
            dir: None,
            replicas: default_replicas(),
            port,
            env: Vec::new(),
            depends_on: Vec::new(),
            ready_path: default_ready_path(),
            live_path: default_live_path(),
            ready_timeout: default_ready_timeout(),
            live_period: default_live_period(),
            live_failures: default_live_failures(),
            user: None,
            group: None,
            limits: None,
            uid: None,
            gid: None,
        }
    }

    /// One past the last port of the app's window.
    pub open spec fn port_end(&self) -> int {
        self.port + self.replicas
    }

    /// Whether one of the app's replicas binds port `p`.
    pub open spec fn claims(&self, p: int) -> bool {
        self.port <= p < self.port_end()
    }
}

impl Manifest {
    /// The first app of that name.
    pub open spec fn app_named(&self, name: Seq<char>) -> Option<int> {
        first_named(self.apps@, name, 0)
    }

    /// The cluster's label.
    pub open spec fn label(&self) -> Seq<char> {
        match self.project {
            Some(p) => p@,
            None => "local"@,
        }
    }

    pub fn project(&self) -> (r: &str)
        ensures
            r@ == self.label(),
    {
        match &self.project {
            Some(p) => p.as_str(),
            None => "local",
        }
    }

    /// A path of the manifest: seen from the manifest's directory, unless it is absolute.
    pub open spec fn resolved(&self, p: Seq<char>) -> Seq<char> {
        if is_absolute_path(p) {
            p
        } else {
            joined_path(self.base_dir@, p)
        }
    }

    pub fn resolve(&self, p: &str) -> (r: String)
        ensures
            r@ == self.resolved(p@),
    {
        join(self.base_dir.as_str(), p)
    }

    /// Where the first app of that name stands in the list.
    pub fn app_index(&self, name: &str) -> (r: Option<usize>)
        ensures
            match r {
                Some(i) => self.app_named(name@) == Some(i as int) && i < self.apps@.len()
                    && self.apps@[i as int].name@ == name@,
                None => self.app_named(name@) is None,
            },
    {
        let mut i: usize = 0;
        while i < self.apps.len()
            invariant
                i <= self.apps@.len(),
                self.app_named(name@) == first_named(self.apps@, name@, i as int),
            decreases self.apps@.len() - i,
        {
            if str_eq(self.apps[i].name.as_str(), name) {
                return Some(i);
            }
            i += 1;
        }
        None
    }

    /// The first app of that name.
    pub fn app(&self, name: &str) -> (r: Option<&App>)
        ensures
            match r {
                Some(a) => self.app_named(name@) matches Some(i) && 0 <= i < self.apps@.len()
                    && *a == self.apps@[i] && a.name@ == name@,
                None => self.app_named(name@) is None,
            },
    {
        match self.app_index(name) {
            Some(i) => Some(&self.apps[i]),
            None => None,
        }
    }
}

/// The place of the first app of that name, at or after `from`.
pub open spec fn first_named(apps: Seq<App>, name: Seq<char>, from: int) -> Option<int>
    decreases apps.len() - from,
{
    if from < 0 || from >= apps.len() {
        None
    } else if apps[from].name@ == name {
        Some(from)
    } else {
        first_named(apps, name, from + 1)
    }
}

/// What `first_named` finds is the first, and it finds one wherever there is one.
pub proof fn lemma_first_named(apps: Seq<App>, name: Seq<char>, from: int)
    requires
        0 <= from,
    ensures
        match first_named(apps, name, from) {
            Some(i) => from <= i < apps.len() && apps[i].name@ == name && forall|j: int|
                from <= j < i ==> (#[trigger] apps[j]).name@ != name,
            None => forall|j: int| from <= j < apps.len() ==> (#[trigger] apps[j]).name@ != name,
        },
    decreases apps.len() - from,
{
    if from < apps.len() && apps[from].name@ != name {
        lemma_first_named(apps, name, from + 1);
    }
}

} // verus!
