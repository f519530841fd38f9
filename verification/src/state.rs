//! The observable state of the cluster: what the control loop writes down on every tick and the
//! status command reads.

use vstd::prelude::*;

verus! {

/// How far an instance is.
#[derive(Debug, Clone, Copy, PartialEq, Eq, Structural)]
pub enum Phase {
    /// Wanted, but not started yet.
    Pending,
    /// Started, and not ready yet.
    Starting,
    /// Ready: it counts toward the replicas.
    Ready,
    /// Running, but its readiness probe fails.
    Unready,
    /// Crashed, and waiting to be started again.
    CrashLoopBackOff,
    /// Being shut down.
    Terminating,
}

impl Phase {
    /// The name of the phase.
    pub open spec fn text(&self) -> Seq<char> {
        match self {
            Phase::Pending => "Pending"@,
            Phase::Starting => "Starting"@,
            Phase::Ready => "Ready"@,
            Phase::Unready => "Unready"@,
            Phase::CrashLoopBackOff => "CrashLoopBackOff"@,
            Phase::Terminating => "Terminating"@,
        }
    }

    pub fn as_str(&self) -> (r: &'static str)
        ensures
            r@ == self.text(),
    {
        match self {
            Phase::Pending => "Pending",
            Phase::Starting => "Starting",
            Phase::Ready => "Ready",
            Phase::Unready => "Unready",
            Phase::CrashLoopBackOff => "CrashLoopBackOff",
            Phase::Terminating => "Terminating",
        }
    }
}

/// One instance, as the status shows it.
#[derive(Debug, Clone, Copy)]
pub struct InstanceStatus {
    pub replica: u32,
    pub port: u16,
    pub phase: Phase,
    /// The process id while it runs.
    pub pid: Option<u32>,
    /// The process group while it runs.
    pub pgid: Option<i32>,
    /// How often it was started again since it was last stable.
    pub restarts: u32,
    /// Seconds that the current process has been up; 0 when none runs.
    pub uptime_secs: u64,
}

/// One app, as the status shows it.
#[derive(Debug, Clone)]
pub struct AppStatus {
    pub name: String,
    pub desired: u32,
    pub ready: u32,
    pub instances: Vec<InstanceStatus>,
}

/// The whole cluster, as the status shows it.
#[derive(Debug, Clone)]
pub struct ClusterState {
    /// The version of this form.
    pub state_version: u32,
    pub project: String,
    /// The process that owns the cluster.
    pub owner_pid: u32,
    /// Unix seconds of the last tick.
    pub updated_at: u64,
    pub apps: Vec<AppStatus>,
}

} // verus!
