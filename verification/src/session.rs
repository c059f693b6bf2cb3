//! Sessions: the status shown to the user, and how the agent is launched
//! behind the proxy.
use vstd::prelude::*;
use vstd::string::*;

use crate::proxy::{opt_view, pair_views, PROXY_PORT};
use crate::text::{chars_of, decimal, decimal_exec, ends_with, ends_with_chars, string_of};
use crate::unicode::{spec_to_lowercase, to_lowercase};

verus! {

/// What the user interface shows about the current session. The three
/// protection levels are reported apart: the network (the proxy), the
/// processes (the sandbox), and the file system, which counts as hardened
/// only when the agent was started in its container with its access rules
/// prepared.
pub struct SessionStatus {
    pub running: bool,
    pub pid: Option<u32>,
    pub proxy_active: bool,
    pub openclaw_path: Option<String>,
    pub sandbox_active: bool,
    pub filesystem_hardening_active: bool,
}

/// The status after a session was stopped: nothing runs and no protection
/// level is active.
pub fn stopped_session_status() -> (res: SessionStatus)
    ensures
        !res.running,
        res.pid is None,
        !res.proxy_active,
        res.openclaw_path is None,
        !res.sandbox_active,
        !res.filesystem_hardening_active,
{
    SessionStatus {
        running: false,
        pid: None,
        proxy_active: false,
        openclaw_path: None,
        sandbox_active: false,
        filesystem_hardening_active: false,
    }
}

/// The status of the current session, if there is one (whether it still
/// runs, its process id, whether it runs in the sandbox, whether its file
/// system access is hardened), and of the proxy.
pub fn current_session_status(session: Option<(bool, u32, bool, bool)>, proxy_active: bool) -> (res:
    SessionStatus)
    ensures
        res.running == (session matches Some(s) && s.0),
        res.pid == (match session {
            Some(s) => Some(s.1),
            None => None,
        }),
        res.sandbox_active == (session matches Some(s) && s.2),
        res.filesystem_hardening_active == (session matches Some(s) && s.3),
        res.proxy_active == proxy_active,
        res.openclaw_path is None,
{
    let (running, pid, sandbox_active, filesystem_hardening_active) = match session {
        Some(s) => (s.0, Some(s.1), s.2, s.3),
        None => (false, None, false, false),
    };
    SessionStatus {
        running,
        pid,
        proxy_active,
        openclaw_path: None,
        sandbox_active,
        filesystem_hardening_active,
    }
}

/// The status after a session was started: the proxy runs; the agent runs
/// when it was launched (or already ran), with its process id, its sandbox
/// state and whether its file system access is hardened.
pub fn started_session_status(
    openclaw_path: Option<String>,
    launched: Option<(u32, bool, bool)>,
) -> (res: SessionStatus)
    ensures
        res.running == launched is Some,
        res.pid == (match launched {
            Some(l) => Some(l.0),
            None => None,
        }),
        res.sandbox_active == (launched matches Some(l) && l.1),
        res.filesystem_hardening_active == (launched matches Some(l) && l.2),
        res.proxy_active,
        opt_view(res.openclaw_path) == opt_view(openclaw_path),
{
    let (running, pid, sandbox_active, filesystem_hardening_active) = match launched {
        Some(l) => (true, Some(l.0), l.1, l.2),
        None => (false, None, false, false),
    };
    SessionStatus {
        running,
        pid,
        proxy_active: true,
        openclaw_path,
        sandbox_active,
        filesystem_hardening_active,
    }
}

/// The agent configured by the user, or else the one found on this machine.
pub fn openclaw_path_choice(configured: Option<String>, detected: Option<String>) -> (res: Option<
    String,
>)
    ensures
        opt_view(res) == (if configured is Some {
            opt_view(configured)
        } else {
            opt_view(detected)
        }),
{
    match configured {
        Some(p) => Some(p),
        None => detected,
    }
}

// ── Launch ──────────────────────────────────────────────────────────────────

/// The proxy's address as an `http` URL.
pub open spec fn proxy_url_spec(port: u16) -> Seq<char> {
    "http://127.0.0.1:"@ + decimal(port as nat)
}

/// The proxy's address as an `http` URL.
pub fn proxy_url(port: u16) -> (res: String)
    ensures
        res@ == proxy_url_spec(port),
{
    let mut u = "http://127.0.0.1:".to_owned();
    u.append(string_of(&decimal_exec(port as usize)).as_str());
    u
}

/// The variables that send the agent's web traffic through the proxy.
pub open spec fn proxy_env(port: u16) -> Seq<(Seq<char>, Seq<char>)> {
    let url = proxy_url_spec(port);
    seq![
        ("HTTP_PROXY"@, url),
        ("HTTPS_PROXY"@, url),
        ("http_proxy"@, url),
        ("https_proxy"@, url),
        ("NO_PROXY"@, "localhost,127.0.0.1,::1"@),
        ("CRABCAGE_ACTIVE"@, "1"@),
        ("CRABCAGE_PROXY_PORT"@, decimal(port as nat)),
    ]
}

/// The variables that send the agent's web traffic through the proxy on `port`.
pub fn proxy_env_pairs(port: u16) -> (res: Vec<(String, String)>)
    ensures
        pair_views(res@) == proxy_env(port),
{
    let url = proxy_url(port);
    let v = vec![
        ("HTTP_PROXY".to_owned(), url.clone()),
        ("HTTPS_PROXY".to_owned(), url.clone()),
        ("http_proxy".to_owned(), url.clone()),
        ("https_proxy".to_owned(), url.clone()),
        ("NO_PROXY".to_owned(), "localhost,127.0.0.1,::1".to_owned()),
        ("CRABCAGE_ACTIVE".to_owned(), "1".to_owned()),
        ("CRABCAGE_PROXY_PORT".to_owned(), string_of(&decimal_exec(port as usize))),
    ];
    assert(pair_views(v@) =~= proxy_env(port));
    v
}

/// The agent's web traffic goes to the local proxy: both spellings of the
/// HTTP and HTTPS proxy variables name `http://127.0.0.1:<port>`, local
/// addresses bypass it, and the port and the active session are announced.
pub proof fn law_traffic_goes_through_proxy(port: u16)
    ensures
        proxy_env(port).contains(("HTTP_PROXY"@, "http://127.0.0.1:"@ + decimal(port as nat))),
        proxy_env(port).contains(("HTTPS_PROXY"@, "http://127.0.0.1:"@ + decimal(port as nat))),
        proxy_env(port).contains(("http_proxy"@, "http://127.0.0.1:"@ + decimal(port as nat))),
        proxy_env(port).contains(("https_proxy"@, "http://127.0.0.1:"@ + decimal(port as nat))),
        proxy_env(port).contains(("NO_PROXY"@, "localhost,127.0.0.1,::1"@)),
        proxy_env(port).contains(("CRABCAGE_ACTIVE"@, "1"@)),
        proxy_env(port).contains(("CRABCAGE_PROXY_PORT"@, decimal(port as nat))),
{
    let e = proxy_env(port);
    assert(e[0] == ("HTTP_PROXY"@, "http://127.0.0.1:"@ + decimal(port as nat)));
    assert(e[1] == ("HTTPS_PROXY"@, "http://127.0.0.1:"@ + decimal(port as nat)));
    assert(e[2] == ("http_proxy"@, "http://127.0.0.1:"@ + decimal(port as nat)));
    assert(e[3] == ("https_proxy"@, "http://127.0.0.1:"@ + decimal(port as nat)));
    assert(e[4] == ("NO_PROXY"@, "localhost,127.0.0.1,::1"@));
    assert(e[5] == ("CRABCAGE_ACTIVE"@, "1"@));
    assert(e[6] == ("CRABCAGE_PROXY_PORT"@, decimal(port as nat)));
}

/// The variables for the proxy at its fixed port.
pub fn default_proxy_env_pairs() -> (res: Vec<(String, String)>)
    ensures
        pair_views(res@) == proxy_env(PROXY_PORT),
{
    proxy_env_pairs(PROXY_PORT)
}

/// A `.cmd` or `.bat` script, by its lower-case path.
pub open spec fn is_script(path_lc: Seq<char>) -> bool {
    ends_with(path_lc, ".cmd"@) || ends_with(path_lc, ".bat"@)
}

/// Whether to look for a `.cmd` beside the path (an npm shim without an
/// extension): only when the path names neither a script nor an `.exe`.
pub open spec fn sibling_check_needed(path: Seq<char>) -> bool {
    let l = spec_to_lowercase(path);
    !is_script(l) && !ends_with(l, ".exe"@)
}

/// The command that starts the agent: scripts (and extensionless shims
/// whose `.cmd` sibling exists, which is then run) go through `cmd.exe /c`
/// from the system folder; everything else starts directly.
pub open spec fn launch_command_spec(path: Seq<char>, sibling_exists: bool, system_root: Seq<char>) -> Seq<
    char,
> {
    launch_command_lowered_spec(path, spec_to_lowercase(path), sibling_exists, system_root)
}

/// Whether the launch needs to know if `path.cmd` exists, given the path in lower case.
pub fn sibling_check_needed_lowered(path_lc: &str) -> (res: bool)
    ensures
        res == (!is_script(path_lc@) && !ends_with(path_lc@, ".exe"@)),
{
    let l = chars_of(path_lc);
    !ends_with_chars(&l, &chars_of(".cmd")) && !ends_with_chars(&l, &chars_of(".bat"))
        && !ends_with_chars(&l, &chars_of(".exe"))
}

/// Whether the launch needs to know if `path.cmd` exists.
pub fn needs_sibling_check(path: &str) -> (res: bool)
    ensures
        res == sibling_check_needed(path@),
{
    sibling_check_needed_lowered(to_lowercase(path).as_str())
}

/// The `.cmd` sibling of a path.
pub fn cmd_sibling(path: &str) -> (res: String)
    ensures
        res@ == path@ + ".cmd"@,
{
    let mut s = path.to_owned();
    s.append(".cmd");
    s
}

/// The command that starts the agent, given its path and the same path in lower case.
pub open spec fn launch_command_lowered_spec(
    path: Seq<char>,
    path_lc: Seq<char>,
    sibling_exists: bool,
    system_root: Seq<char>,
) -> Seq<char> {
    let shell = is_script(path_lc) || (!ends_with(path_lc, ".exe"@) && sibling_exists);
    if shell {
        let target = if !is_script(path_lc) {
            path + ".cmd"@
        } else {
            path
        };
        "\""@ + system_root + "\\System32\\cmd.exe\" /c \""@ + target + "\""@
    } else {
        path
    }
}

/// A `.cmd` or `.bat` script runs through the system's `cmd.exe /c` with
/// the script in quotes; an extensionless shim whose `.cmd` sibling exists
/// runs that sibling the same way; an `.exe`, or a shim without sibling,
/// starts as it is.
pub proof fn law_scripts_run_through_cmd(path: Seq<char>, path_lc: Seq<char>, sibling_exists: bool, system_root: Seq<char>)
    ensures
        (ends_with(path_lc, ".cmd"@) || ends_with(path_lc, ".bat"@)) ==> launch_command_lowered_spec(
            path,
            path_lc,
            sibling_exists,
            system_root,
        ) == "\""@ + system_root + "\\System32\\cmd.exe\" /c \""@ + path + "\""@,
        (!ends_with(path_lc, ".cmd"@) && !ends_with(path_lc, ".bat"@) && !ends_with(path_lc, ".exe"@)
            && sibling_exists) ==> launch_command_lowered_spec(path, path_lc, sibling_exists, system_root)
            == "\""@ + system_root + "\\System32\\cmd.exe\" /c \""@ + path + ".cmd"@ + "\""@,
        (!ends_with(path_lc, ".cmd"@) && !ends_with(path_lc, ".bat"@) && (ends_with(path_lc, ".exe"@)
            || !sibling_exists)) ==> launch_command_lowered_spec(path, path_lc, sibling_exists, system_root)
            == path,
{
}

/// Builds the command that starts the agent from its path and the path in lower case.
pub fn launch_command_lowered(path: &str, path_lc: &str, sibling_exists: bool, system_root: &str) -> (res:
    String)
    ensures
        res@ == launch_command_lowered_spec(path@, path_lc@, sibling_exists, system_root@),
{
    let l = chars_of(path_lc);
    let script = ends_with_chars(&l, &chars_of(".cmd")) || ends_with_chars(&l, &chars_of(".bat"));
    let exe = ends_with_chars(&l, &chars_of(".exe"));
    if script || (!exe && sibling_exists) {
        let target = if !script {
            cmd_sibling(path)
        } else {
            path.to_owned()
        };
        let mut c = "\"".to_owned();
        c.append(system_root);
        c.append("\\System32\\cmd.exe\" /c \"");
        c.append(target.as_str());
        c.append("\"");
        c
    } else {
        path.to_owned()
    }
}

/// Builds the command that starts the agent (see `launch_command_spec`).
pub fn launch_command(path: &str, sibling_exists: bool, system_root: &str) -> (res: String)
    ensures
        res@ == launch_command_spec(path@, sibling_exists, system_root@),
{
    launch_command_lowered(path, to_lowercase(path).as_str(), sibling_exists, system_root)
}

/// The Windows folder: the given `SystemRoot`, or `C:\Windows`.
pub fn system_root_or_default(system_root: Option<String>) -> (res: String)
    ensures
        res@ == (match system_root {
            Some(s) => s@,
            None => "C:\\Windows"@,
        }),
{
    match system_root {
        Some(s) => s,
        None => "C:\\Windows".to_owned(),
    }
}

} // verus!
