//! artzain: the decisions of a small orchestrator for prebuilt binaries.
//!
//! A manifest names a set of apps and how many replicas of each to keep running. A single loop
//! keeps the processes as the manifest asks: it starts them, restarts them with growing delays
//! when they crash, probes them, rolls them when the manifest changes, and stops them in order.
//! This library decides; the program around it starts processes, opens sockets and reads files,
//! and hands in what it found.

pub mod checks;
pub mod env;
pub mod fingerprint;
pub mod fixture;
pub mod fleet;
pub mod graph;
pub mod health;
pub mod lock;
pub mod logs;
pub mod manifest;
pub mod meaning;
pub mod order;
pub mod paths;
pub mod places;
pub mod probe;
pub mod process;
pub mod promises;
pub mod reading;
pub mod reclaim;
pub mod reconcile;
pub mod records;
pub mod report;
pub mod roll;
pub mod rounds;
pub mod scale;
pub mod slots;
pub mod snapshot;
pub mod spawn;
pub mod state;
pub mod systemd;
pub mod teardown;
pub mod text;
pub mod tick;
pub mod validate;
pub mod vars;

pub use fleet::STOP_GRACE;
pub use graph::select_apps;
pub use manifest::{Manifest, DEFAULT_MANIFEST};
pub use reconcile::{Reconciler, UpOptions};
pub use state::{AppStatus, ClusterState, InstanceStatus, Phase};
