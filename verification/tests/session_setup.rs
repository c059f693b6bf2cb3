use crabcage::session::{launch_command_lowered, sibling_check_needed_lowered};
use crabcage::setup::{candidate_outcome, detection_candidates_from_text, probe_report_from_text};
use crabcage::config::{
    allowed_app_paths, allowed_domain_names, allowed_path_rules, data_dir_base,
    record_audit_event, AllowedApp, AllowedDomain, AllowedPath, AuditEvent, CrabCageConfig,
    AUDIT_LOG_LIMIT,
};
use crabcage::session::{
    cmd_sibling, current_session_status, default_proxy_env_pairs, launch_command,
    needs_sibling_check, openclaw_path_choice, proxy_env_pairs, proxy_url,
    started_session_status, stopped_session_status, system_root_or_default,
};
use crabcage::setup::{
    check_environment, detection_candidates, find_openclaw, install_command_progress,
    install_failed_message, install_failed_progress, install_output_progress,
    install_success_progress, installed_but_not_found_message, is_script_extension,
    needs_script_variants, normalize_openclaw_path, npm_start_failed_message,
    probe_only_outcome, probe_output, resolve_valid_openclaw_path, select_where_output,
    should_probe_path, trimmed_path, validate_openclaw_path, Candidate, FindStep, Platform,
};

fn event(id: &str) -> AuditEvent {
    AuditEvent {
        id: id.to_string(),
        timestamp: "2024-01-01T00:00:00Z".to_string(),
        action: "start".to_string(),
        resource: "openclaw".to_string(),
        result: "ok".to_string(),
        details: None,
    }
}

#[test]
fn default_config_allows_nothing() {
    let c = CrabCageConfig::default();
    assert!(c.allowed_apps.is_empty());
    assert!(c.allowed_paths.is_empty());
    assert!(c.allowed_domains.is_empty());
    assert!(!c.onboarding_complete);
    assert!(c.openclaw_path.is_none());
}

#[test]
fn audit_log_keeps_newest_first_and_at_most_the_limit() {
    let mut log = Vec::new();
    for i in 0..(AUDIT_LOG_LIMIT + 3) {
        log = record_audit_event(log, event(&i.to_string()));
    }
    assert_eq!(log.len(), 500);
    assert_eq!(log[0].id, (AUDIT_LOG_LIMIT + 2).to_string());
    assert_eq!(log[1].id, (AUDIT_LOG_LIMIT + 1).to_string());
    assert_eq!(log[499].id, "3");
    let short = record_audit_event(vec![event("a")], event("b"));
    let ids: Vec<String> = short.iter().map(|e| e.id.clone()).collect();
    assert_eq!(ids, vec!["b", "a"]);
}

#[test]
fn config_lists_for_proxy_and_sandbox() {
    let config = CrabCageConfig {
        allowed_apps: vec![AllowedApp {
            id: "1".into(),
            name: "Git".into(),
            path: "C:\\Git\\git.exe".into(),
            added_at: "t".into(),
        }],
        allowed_paths: vec![
            AllowedPath { id: "p".into(), path: "C:\\docs".into(), permissions: vec!["read".into()], added_at: "t".into() },
            AllowedPath { id: "q".into(), path: "C:\\out".into(), permissions: vec!["read".into(), "write".into()], added_at: "t".into() },
        ],
        allowed_domains: vec![
            AllowedDomain { id: "d".into(), domain: "wikipedia.org".into(), added_at: "t".into() },
            AllowedDomain { id: "e".into(), domain: "github.com".into(), added_at: "t".into() },
        ],
        onboarding_complete: true,
        openclaw_path: None,
    };
    assert_eq!(allowed_domain_names(&config), vec!["wikipedia.org", "github.com"]);
    assert_eq!(allowed_app_paths(&config), vec!["C:\\Git\\git.exe"]);
    let rules = allowed_path_rules(&config);
    assert_eq!(rules.len(), 2);
    assert_eq!(rules[0].path, "C:\\docs");
    assert!(!rules[0].writable);
    assert_eq!(rules[1].path, "C:\\out");
    assert!(rules[1].writable);
}

#[test]
fn data_folder_base_prefers_appdata() {
    assert_eq!(data_dir_base(Some("A".into()), Some("H".into())), "A");
    assert_eq!(data_dir_base(None, Some("H".into())), "H");
    assert_eq!(data_dir_base(None, None), ".");
}

#[test]
fn session_statuses() {
    let s = stopped_session_status();
    assert!(!s.running && s.pid.is_none() && !s.proxy_active && !s.sandbox_active && s.openclaw_path.is_none());
    assert!(!s.filesystem_hardening_active);
    let c = current_session_status(Some((true, 42, true, false)), true);
    assert!(c.running && c.pid == Some(42) && c.proxy_active && c.sandbox_active);
    assert!(!c.filesystem_hardening_active);
    let h = current_session_status(Some((true, 42, true, true)), true);
    assert!(h.filesystem_hardening_active);
    let n = current_session_status(None, false);
    assert!(!n.running && n.pid.is_none() && !n.proxy_active && !n.sandbox_active);
    assert!(!n.filesystem_hardening_active);
    let st = started_session_status(Some("C:\\oc.cmd".into()), Some((7, true, true)));
    assert!(st.running && st.pid == Some(7) && st.proxy_active && st.sandbox_active);
    assert!(st.filesystem_hardening_active);
    assert_eq!(st.openclaw_path, Some("C:\\oc.cmd".to_string()));
    let soft = started_session_status(None, Some((7, true, false)));
    assert!(soft.sandbox_active && !soft.filesystem_hardening_active);
    let none = started_session_status(None, None);
    assert!(!none.running && none.pid.is_none() && none.proxy_active && !none.sandbox_active);
    assert!(!none.filesystem_hardening_active);
}

#[test]
fn configured_agent_path_wins() {
    assert_eq!(openclaw_path_choice(Some("a".into()), Some("b".into())), Some("a".to_string()));
    assert_eq!(openclaw_path_choice(None, Some("b".into())), Some("b".to_string()));
    assert_eq!(openclaw_path_choice(None, None), None);
}

#[test]
fn proxy_variables() {
    assert_eq!(proxy_url(18080), "http://127.0.0.1:18080");
    let env = proxy_env_pairs(18080);
    let expected: Vec<(String, String)> = vec![
        ("HTTP_PROXY", "http://127.0.0.1:18080"),
        ("HTTPS_PROXY", "http://127.0.0.1:18080"),
        ("http_proxy", "http://127.0.0.1:18080"),
        ("https_proxy", "http://127.0.0.1:18080"),
        ("NO_PROXY", "localhost,127.0.0.1,::1"),
        ("CRABCAGE_ACTIVE", "1"),
        ("CRABCAGE_PROXY_PORT", "18080"),
    ]
    .into_iter()
    .map(|(a, b)| (a.to_string(), b.to_string()))
    .collect();
    assert_eq!(env, expected);
    assert_eq!(default_proxy_env_pairs(), expected);
    assert_eq!(proxy_url(0), "http://127.0.0.1:0");
}

#[test]
fn scripts_are_started_through_cmd() {
    let root = "C:\\Windows";
    assert_eq!(
        launch_command("C:\\npm\\openclaw.CMD", false, root),
        "\"C:\\Windows\\System32\\cmd.exe\" /c \"C:\\npm\\openclaw.CMD\""
    );
    assert_eq!(
        launch_command("C:\\x\\run.bat", false, root),
        "\"C:\\Windows\\System32\\cmd.exe\" /c \"C:\\x\\run.bat\""
    );
    assert_eq!(
        launch_command("C:\\npm\\openclaw", true, root),
        "\"C:\\Windows\\System32\\cmd.exe\" /c \"C:\\npm\\openclaw.cmd\""
    );
    assert_eq!(launch_command("C:\\npm\\openclaw", false, root), "C:\\npm\\openclaw");
    assert_eq!(launch_command("C:\\bin\\OpenClaw.EXE", true, root), "C:\\bin\\OpenClaw.EXE");
    assert!(needs_sibling_check("C:\\npm\\openclaw"));
    assert!(!needs_sibling_check("C:\\npm\\openclaw.Cmd"));
    assert!(!needs_sibling_check("C:\\npm\\openclaw.exe"));
    assert_eq!(cmd_sibling("C:\\npm\\openclaw"), "C:\\npm\\openclaw.cmd");
    assert_eq!(system_root_or_default(None), "C:\\Windows");
    assert_eq!(system_root_or_default(Some("D:\\Win".into())), "D:\\Win");
}

#[test]
fn probes_report_output() {
    assert_eq!(probe_output(true, b"  v20.1.0\n", b""), Some("v20.1.0".to_string()));
    assert_eq!(probe_output(true, b" \n", b"warn\n"), Some("warn".to_string()));
    assert_eq!(probe_output(true, b"", b""), None);
    assert_eq!(probe_output(false, b"v1", b""), None);
}

#[test]
fn agent_paths_are_normalized_on_windows() {
    let none: Option<String> = None;
    let cmd = Some("CMD".to_string());
    assert!(is_script_extension(&cmd));
    assert!(!is_script_extension(&Some("exe".to_string())));
    assert!(!needs_script_variants(Platform::Windows, &cmd));
    assert!(needs_script_variants(Platform::Windows, &none));
    assert!(!needs_script_variants(Platform::Unix, &none));
    assert_eq!(normalize_openclaw_path("C:\\npm\\openclaw", Platform::Windows, &none, true, true), "C:\\npm\\openclaw.cmd");
    assert_eq!(normalize_openclaw_path("C:\\npm\\openclaw", Platform::Windows, &none, false, true), "C:\\npm\\openclaw.bat");
    assert_eq!(normalize_openclaw_path("C:\\npm\\openclaw", Platform::Windows, &none, false, false), "C:\\npm\\openclaw");
    assert_eq!(normalize_openclaw_path("C:\\npm\\openclaw.CMD", Platform::Windows, &cmd, true, true), "C:\\npm\\openclaw.CMD");
    assert_eq!(normalize_openclaw_path("/usr/bin/openclaw", Platform::Unix, &none, true, true), "/usr/bin/openclaw");
}

#[test]
fn valid_paths_exist_and_answer() {
    assert!(should_probe_path("x", true));
    assert!(!should_probe_path("", true));
    assert!(!should_probe_path("x", false));
    assert_eq!(resolve_valid_openclaw_path("x", true, true), Some("x".to_string()));
    assert_eq!(resolve_valid_openclaw_path("x", true, false), None);
    assert_eq!(resolve_valid_openclaw_path("", true, true), None);
    assert_eq!(probe_only_outcome("openclaw", true), Some("openclaw".to_string()));
    assert_eq!(probe_only_outcome("openclaw", false), None);
}

#[test]
fn where_output_prefers_cmd_shims() {
    let out = "C:\\npm\\openclaw\r\nC:\\npm\\openclaw.CMD\r\nC:\\other\\openclaw.cmd\r\n";
    assert_eq!(select_where_output(out), Some("C:\\npm\\openclaw.CMD".to_string()));
    assert_eq!(select_where_output(" C:\\npm\\openclaw \r\n"), Some("C:\\npm\\openclaw".to_string()));
    assert_eq!(select_where_output(""), None);
}

fn views(c: &[Candidate]) -> Vec<(String, bool)> {
    c.iter().map(|c| (c.path.clone(), c.validate)).collect()
}

#[test]
fn detection_order() {
    let npm = vec!["A\\npm\\openclaw.cmd".to_string(), "A\\npm\\openclaw".to_string()];
    let win = detection_candidates(Platform::Windows, Some(b"C:\\x\\openclaw\r\nC:\\x\\openclaw.cmd\r\n"), &npm);
    assert_eq!(
        views(&win),
        vec![
            ("C:\\x\\openclaw.cmd".to_string(), true),
            ("A\\npm\\openclaw.cmd".to_string(), true),
            ("A\\npm\\openclaw".to_string(), true),
            ("openclaw".to_string(), false),
        ]
    );
    let unix = detection_candidates(Platform::Unix, Some(b"/opt/bin/openclaw\n"), &[]);
    assert_eq!(
        views(&unix),
        vec![
            ("/opt/bin/openclaw".to_string(), false),
            ("/usr/local/bin/openclaw".to_string(), false),
            ("/usr/bin/openclaw".to_string(), false),
            ("openclaw".to_string(), false),
        ]
    );
    let unix_blank = detection_candidates(Platform::Unix, Some(b"  \n"), &[]);
    assert_eq!(unix_blank.len(), 3);
    let win_failed = detection_candidates(Platform::Windows, None, &[]);
    assert_eq!(views(&win_failed), vec![("openclaw".to_string(), false)]);
}

#[test]
fn search_stops_at_first_found() {
    let cands = vec![
        Candidate { path: "a".into(), validate: true },
        Candidate { path: "b".into(), validate: false },
        Candidate { path: "c".into(), validate: false },
    ];
    assert!(matches!(find_openclaw(&cands, &[]), FindStep::Check(0)));
    assert!(matches!(find_openclaw(&cands, &[None]), FindStep::Check(1)));
    match find_openclaw(&cands, &[None, Some("b".into())]) {
        FindStep::Found(p) => assert_eq!(p, "b"),
        _ => panic!("expected found"),
    }
    assert!(matches!(find_openclaw(&cands, &[None, None, None]), FindStep::NotFound));
}

#[test]
fn environment_status() {
    let s = check_environment(Some("v20".into()), Some("C:\\oc.cmd".into()), None, Some("1.0".into()));
    assert!(s.node_installed);
    assert_eq!(s.node_version, Some("v20".to_string()));
    assert!(s.openclaw_installed);
    assert_eq!(s.openclaw_version, Some("1.0".to_string()));
    assert_eq!(s.openclaw_path, Some("C:\\oc.cmd".to_string()));
    let t = check_environment(None, None, None, None);
    assert!(!t.node_installed && !t.openclaw_installed);
    let u = check_environment(None, Some("p".into()), Some("2.0".into()), Some("1.0".into()));
    assert_eq!(u.openclaw_version, Some("2.0".to_string()));
}

#[test]
fn user_entered_path_validation() {
    assert_eq!(trimmed_path("  C:\\oc.cmd \n"), "C:\\oc.cmd");
    assert_eq!(validate_openclaw_path("C:\\oc.cmd", Some("1.2.3".into())), Ok("1.2.3".to_string()));
    assert_eq!(
        validate_openclaw_path("C:\\x", None),
        Err("'C:\\x' antwortet nicht als OpenClaw-Binary. Auf Windows ist oft die .cmd-Datei korrekt, z.B. C:\\Users\\<Name>\\AppData\\Roaming\\npm\\openclaw.cmd".to_string())
    );
}

#[test]
fn installation_messages() {
    let c = install_command_progress();
    assert_eq!((c.line.as_str(), c.kind.as_str()), ("npm install -g openclaw", "command"));
    let o = install_output_progress("added 1 package".into(), false);
    assert_eq!((o.line.as_str(), o.kind.as_str()), ("added 1 package", "stdout"));
    let e = install_output_progress("warn".into(), true);
    assert_eq!(e.kind, "stderr");
    let f = install_failed_progress(Some(243));
    assert_eq!((f.line.as_str(), f.kind.as_str()), ("Installation fehlgeschlagen (exit code 243)", "error"));
    assert_eq!(install_failed_progress(None).line, "Installation fehlgeschlagen (exit code -1)");
    assert_eq!(install_failed_progress(Some(i32::MIN)).line, "Installation fehlgeschlagen (exit code -2147483648)");
    assert_eq!(
        install_failed_message(Some(1)),
        "npm install -g openclaw ist fehlgeschlagen (Exit-Code 1). Pruefe Node/npm-Rechte oder installiere OpenClaw manuell und trage danach den Pfad ein."
    );
    assert_eq!(npm_start_failed_message("not found"), "npm konnte nicht gestartet werden: not found");
    assert!(installed_but_not_found_message().starts_with("OpenClaw wurde installiert"));
    let s = install_success_progress("C:\\oc.cmd");
    assert_eq!((s.line.as_str(), s.kind.as_str()), ("openclaw installiert: C:\\oc.cmd", "success"));
}

#[test]
fn pure_forms_of_launch_and_probe_rules() {
    assert_eq!(
        launch_command_lowered("C:\\A\\OC", "c:\\a\\oc", true, "C:\\Windows"),
        "\"C:\\Windows\\System32\\cmd.exe\" /c \"C:\\A\\OC.cmd\""
    );
    assert_eq!(launch_command_lowered("C:\\A\\OC.CMD", "C:\\A\\OC.CMD", false, "C:\\Windows"), "C:\\A\\OC.CMD");
    assert!(sibling_check_needed_lowered("c:\\a\\oc"));
    assert!(!sibling_check_needed_lowered("c:\\a\\oc.bat"));
    assert_eq!(probe_report_from_text(true, " 1.0 ", "x"), Some("1.0".to_string()));
    assert_eq!(probe_report_from_text(true, "", " err "), Some("err".to_string()));
    assert_eq!(probe_report_from_text(false, "1.0", ""), None);
    let c = detection_candidates_from_text(Platform::Unix, Some("  ".to_string()), &[]);
    assert_eq!(c.len(), 3);
    assert_eq!(c[0].path, "/usr/local/bin/openclaw");
}

#[test]
fn normalizing_twice_changes_nothing_more() {
    let none: Option<String> = None;
    let once = normalize_openclaw_path("C:\\npm\\openclaw", Platform::Windows, &none, false, true);
    assert_eq!(once, "C:\\npm\\openclaw.bat");
    let twice = normalize_openclaw_path(&once, Platform::Windows, &Some("bat".to_string()), false, false);
    assert_eq!(twice, once);
    let kept = normalize_openclaw_path("C:\\npm\\openclaw", Platform::Windows, &none, false, false);
    assert_eq!(normalize_openclaw_path(&kept, Platform::Windows, &none, false, false), kept);
}

#[test]
fn candidate_checks_report_the_candidate_or_its_script() {
    let shim = Candidate { path: "C:\\npm\\openclaw".to_string(), validate: true };
    assert_eq!(
        candidate_outcome(&shim, Platform::Windows, &None, true, false, true, true),
        Some("C:\\npm\\openclaw.cmd".to_string())
    );
    assert_eq!(candidate_outcome(&shim, Platform::Windows, &None, true, false, false, true), None);
    let plain = Candidate { path: "openclaw".to_string(), validate: false };
    assert_eq!(
        candidate_outcome(&plain, Platform::Windows, &None, true, true, false, true),
        Some("openclaw".to_string())
    );
    assert_eq!(candidate_outcome(&plain, Platform::Unix, &None, false, false, true, false), None);
}
