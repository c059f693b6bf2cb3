//! The user's configuration (allowed apps, paths and domains) and the audit
//! log, with the rules that turn them into what the proxy and the sandbox use.
use vstd::prelude::*;
use vstd::string::*;

use crate::proxy::string_views;
use crate::sandbox::AllowedPathRule;

verus! {

/// A program that the sandboxed agent may start as a child process.
pub struct AllowedApp {
    pub id: String,
    pub name: String,
    pub path: String,
    pub added_at: String,
}

/// A file or directory that the sandboxed agent may access; `permissions`
/// holds `read` and/or `write`.
pub struct AllowedPath {
    pub id: String,
    pub path: String,
    pub permissions: Vec<String>,
    pub added_at: String,
}

/// A domain that the proxy lets through, with all its subdomains.
pub struct AllowedDomain {
    pub id: String,
    pub domain: String,
    pub added_at: String,
}

/// The saved configuration.
pub struct CrabCageConfig {
    pub allowed_apps: Vec<AllowedApp>,
    pub allowed_paths: Vec<AllowedPath>,
    pub allowed_domains: Vec<AllowedDomain>,
    pub onboarding_complete: bool,
    pub openclaw_path: Option<String>,
}

impl Default for CrabCageConfig {
    /// Nothing allowed, onboarding not done, no agent path.
    fn default() -> (res: Self)
        ensures
            res.allowed_apps@.len() == 0,
            res.allowed_paths@.len() == 0,
            res.allowed_domains@.len() == 0,
            !res.onboarding_complete,
            res.openclaw_path is None,
    {
        CrabCageConfig {
            allowed_apps: Vec::new(),
            allowed_paths: Vec::new(),
            allowed_domains: Vec::new(),
            onboarding_complete: false,
            openclaw_path: None,
        }
    }
}

/// `%APPDATA%` when set, else `$HOME`, else the current folder.
pub open spec fn data_base_spec(appdata: Option<Seq<char>>, home: Option<Seq<char>>) -> Seq<char> {
    match appdata {
        Some(a) => a,
        None => match home {
            Some(h) => h,
            None => "."@,
        },
    }
}

/// The folder under which the app keeps its data (before `CrabCage` is
/// appended): `%APPDATA%` when set, else `$HOME`, else the current folder.
pub fn data_dir_base(appdata: Option<String>, home: Option<String>) -> (res: String)
    ensures
        res@ == data_base_spec(crate::proxy::opt_view(appdata), crate::proxy::opt_view(home)),
{
    match appdata {
        Some(a) => a,
        None => match home {
            Some(h) => h,
            None => ".".to_owned(),
        },
    }
}

/// One entry of the audit log.
pub struct AuditEvent {
    pub id: String,
    pub timestamp: String,
    pub action: String,
    pub resource: String,
    pub result: String,
    pub details: Option<String>,
}

/// The most entries the audit log keeps.
pub const AUDIT_LOG_LIMIT: usize = 500;

/// The log after recording `event`: newest first, at most `AUDIT_LOG_LIMIT` entries.
pub open spec fn recorded(log: Seq<AuditEvent>, event: AuditEvent) -> Seq<AuditEvent> {
    let all = seq![event] + log;
    if all.len() <= AUDIT_LOG_LIMIT {
        all
    } else {
        all.take(AUDIT_LOG_LIMIT as int)
    }
}

/// Puts `event` at the front of the log and drops what lies beyond the limit.
pub fn record_audit_event(log: Vec<AuditEvent>, event: AuditEvent) -> (res: Vec<AuditEvent>)
    ensures
        res@ == recorded(log@, event),
{
    let mut events = log;
    events.insert(0, event);
    events.truncate(AUDIT_LOG_LIMIT);
    proof {
        assert(events@ =~= recorded(log@, event));
    }
    events
}

/// The audit log never holds more than `AUDIT_LOG_LIMIT` entries, the newest
/// entry comes first, and the older ones follow in their order.
pub proof fn law_audit_log_bounded(log: Seq<AuditEvent>, event: AuditEvent)
    ensures
        recorded(log, event).len() <= AUDIT_LOG_LIMIT,
        recorded(log, event)[0] == event,
        forall|i: int|
            0 <= i < recorded(log, event).len() - 1 ==> #[trigger] recorded(log, event)[i + 1]
                == log[i],
{
}

/// Two events recorded one after the other stand at the front, the later first.
pub proof fn law_audit_log_newest_first(log: Seq<AuditEvent>, a: AuditEvent, b: AuditEvent)
    ensures
        recorded(recorded(log, a), b)[0] == b,
        recorded(recorded(log, a), b)[1] == a,
{
    assert(recorded(log, a)[0] == a);
}

/// The domain names of the configured whitelist, in order; the proxy gets
/// this list whenever the configuration is saved or a session starts.
pub fn allowed_domain_names(config: &CrabCageConfig) -> (res: Vec<String>)
    ensures
        string_views(res@) == config.allowed_domains@.map_values(|d: AllowedDomain| d.domain@),
{
    let mut out: Vec<String> = Vec::new();
    for i in 0..config.allowed_domains.len()
        invariant
            out@.len() == i,
            forall|j: int| 0 <= j < i ==> (#[trigger] out@[j])@ == config.allowed_domains@[j].domain@,
    {
        out.push(config.allowed_domains[i].domain.clone());
    }
    assert(string_views(out@) =~= config.allowed_domains@.map_values(|d: AllowedDomain| d.domain@));
    out
}

/// The paths of the configured apps, in order: the executables that the
/// sandboxed agent may start.
pub fn allowed_app_paths(config: &CrabCageConfig) -> (res: Vec<String>)
    ensures
        string_views(res@) == config.allowed_apps@.map_values(|a: AllowedApp| a.path@),
{
    let mut out: Vec<String> = Vec::new();
    for i in 0..config.allowed_apps.len()
        invariant
            out@.len() == i,
            forall|j: int| 0 <= j < i ==> (#[trigger] out@[j])@ == config.allowed_apps@[j].path@,
    {
        out.push(config.allowed_apps[i].path.clone());
    }
    assert(string_views(out@) =~= config.allowed_apps@.map_values(|a: AllowedApp| a.path@));
    out
}

/// Whether a configured path grants writing: its permissions hold `write`.
pub open spec fn grants_write(p: AllowedPath) -> bool {
    exists|j: int| 0 <= j < p.permissions@.len() && (#[trigger] p.permissions@[j])@ == "write"@
}

/// A path listed with the `write` permission is writable; one listed only
/// with `read` permissions is not.
pub proof fn law_write_permission(p: AllowedPath)
    ensures
        (exists|j: int| 0 <= j < p.permissions@.len() && p.permissions@[j]@ == "write"@) ==> grants_write(p),
        (forall|j: int| 0 <= j < p.permissions@.len() ==> p.permissions@[j]@ == "read"@) ==> !grants_write(p),
{
    reveal_strlit("write");
    reveal_strlit("read");
    assert("read"@ != "write"@) by {
        assert("read"@.len() != "write"@.len());
    }
}

fn has_write_permission(p: &AllowedPath) -> (res: bool)
    ensures
        res == grants_write(*p),
{
    let mut j: usize = 0;
    while j < p.permissions.len()
        invariant
            j <= p.permissions@.len(),
            forall|k: int| 0 <= k < j ==> (#[trigger] p.permissions@[k])@ != "write"@,
        decreases p.permissions.len() - j,
    {
        if crate::text::string_eq(&p.permissions[j], "write") {
            return true;
        }
        j += 1;
    }
    false
}

/// The access rules for the configured paths: `read` grants read and
/// execute, `write` grants modify.
pub fn allowed_path_rules(config: &CrabCageConfig) -> (res: Vec<AllowedPathRule>)
    ensures
        res@.len() == config.allowed_paths@.len(),
        forall|i: int|
            0 <= i < res@.len() ==> (#[trigger] res@[i]).path@ == config.allowed_paths@[i].path@
                && res@[i].writable == grants_write(config.allowed_paths@[i]),
{
    let mut out: Vec<AllowedPathRule> = Vec::new();
    let mut i: usize = 0;
    while i < config.allowed_paths.len()
        invariant
            i <= config.allowed_paths@.len(),
            out@.len() == i,
            forall|k: int|
                0 <= k < i ==> (#[trigger] out@[k]).path@ == config.allowed_paths@[k].path@
                    && out@[k].writable == grants_write(config.allowed_paths@[k]),
        decreases config.allowed_paths.len() - i,
    {
        let p = &config.allowed_paths[i];
        let rule = AllowedPathRule { path: p.path.clone(), writable: has_write_permission(p) };
        out.push(rule);
        i += 1;
    }
    out
}

} // verus!
