//! The systemd unit that runs a cluster as a service.

use crate::fleet::STOP_GRACE;
use crate::text::{decimal, decimal_text};
use vstd::prelude::*;

verus! {

/// Seconds that systemd waits beyond the time in which a cluster stops its instances.
pub const STOP_MARGIN_SECS: u64 = 5;

/// What a unit says.
pub struct UnitOptions<'a> {
    pub user: &'a str,
    pub group: &'a str,
    pub manifest: &'a str,
    pub binary: &'a str,
    pub memory_max: Option<&'a str>,
    pub stop_grace_secs: u64,
}

/// The lines of a unit from its head to the command that it runs.
pub open spec fn unit_head(o: UnitOptions) -> Seq<char> {
    "[Unit]\nDescription=artzain fleet for "@ + o.manifest@
        + "\nAfter=network.target\n\n[Service]\nType=simple\nUser="@ + o.user@ + "\nGroup="@
        + o.group@ + "\nExecStart="@ + o.binary@ + " -f "@ + o.manifest@ + " up\n"@
}

/// The lines of a unit on how the service is stopped and confined.
pub open spec fn unit_service(o: UnitOptions) -> Seq<char> {
    "Restart=on-failure\nRestartSec=5\nKillSignal=SIGTERM\nTimeoutStopSec="@ + decimal_text(
        o.stop_grace_secs as nat,
    ) + "\nNoNewPrivileges=true\nProtectSystem=strict\nProtectHome=true\nPrivateTmp=true\n"@
}

/// The line on the memory that the service may have, where that is limited.
pub open spec fn unit_memory(o: UnitOptions) -> Seq<char> {
    match o.memory_max {
        Some(m) => "MemoryMax="@ + m@ + "\n"@,
        None => seq![],
    }
}

/// The text of a unit.
pub open spec fn unit_text(o: UnitOptions) -> Seq<char> {
    unit_head(o) + unit_service(o) + unit_memory(o)
        + "\n[Install]\nWantedBy=multi-user.target\n"@
}

/// The text of a unit.
pub fn generate_unit(options: UnitOptions) -> (r: String)
    ensures
        r@ == unit_text(options),
{
    let mut u = "[Unit]\nDescription=artzain fleet for ".to_owned();
    u.append(options.manifest);
    u.append("\nAfter=network.target\n\n[Service]\nType=simple\nUser=");
    u.append(options.user);
    u.append("\nGroup=");
    u.append(options.group);
    u.append("\nExecStart=");
    u.append(options.binary);
    u.append(" -f ");
    u.append(options.manifest);
    u.append(" up\n");
    let ghost head = u@;
    u.append("Restart=on-failure\nRestartSec=5\nKillSignal=SIGTERM\nTimeoutStopSec=");
    let secs = decimal(options.stop_grace_secs);
    u.append(secs.as_str());
    u.append("\nNoNewPrivileges=true\nProtectSystem=strict\nProtectHome=true\nPrivateTmp=true\n");
    assert(u@ =~= head + unit_service(options));
    let ghost service = u@;
    match options.memory_max {
        Some(m) => {
            u.append("MemoryMax=");
            u.append(m);
            u.append("\n");
        },
        None => {},
    }
    assert(u@ =~= service + unit_memory(options));
    u.append("\n[Install]\nWantedBy=multi-user.target\n");
    u
}

/// Where a unit expects the program, unless it is told otherwise.
pub open spec fn usual_binary() -> Seq<char> {
    "/usr/local/bin/artzain"@
}

pub fn default_binary() -> (r: String)
    ensures
        r@ == usual_binary(),
{
    "/usr/local/bin/artzain".to_owned()
}

/// The text that is there, or another.
pub open spec fn text_or(s: Option<&str>, other: Seq<char>) -> Seq<char> {
    match s {
        Some(t) => t@,
        None => other,
    }
}

/// The unit for the manifest in `file`, with what was not asked for filled in: the user is
/// `artzain`, the group is that of the user's name, the manifest is `file`, the program is in its
/// usual place, and systemd gives the cluster a little longer to stop than it takes itself.
pub fn unit_for(
    file: &str,
    user: Option<&str>,
    group: Option<&str>,
    manifest: Option<&str>,
    binary: Option<&str>,
    memory_max: Option<&str>,
) -> (r: String)
    ensures
        exists|o: UnitOptions| #[trigger]
            unit_text(o) == r@ && o.user@ == text_or(user, "artzain"@) && o.group@ == text_or(
                group,
                text_or(user, "artzain"@),
            ) && o.manifest@ == text_or(manifest, file@) && o.binary@ == text_or(
                binary,
                usual_binary(),
            ) && o.memory_max == memory_max && o.stop_grace_secs == STOP_GRACE / 1000
                + STOP_MARGIN_SECS,
{
    let user = match user {
        Some(u) => u,
        None => "artzain",
    };
    let group = match group {
        Some(g) => g,
        None => user,
    };
    let manifest = match manifest {
        Some(m) => m,
        None => file,
    };
    let usual = default_binary();
    let binary = match binary {
        Some(b) => b,
        None => usual.as_str(),
    };
    let options = UnitOptions {
        user,
        group,
        manifest,
        binary,
        memory_max,
        stop_grace_secs: STOP_GRACE / 1000 + STOP_MARGIN_SECS,
    };
    let ghost o = options;
    let r = generate_unit(options);
    assert(unit_text(o) == r@);
    r
}

} // verus!
