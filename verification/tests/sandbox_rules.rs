use crabcage::sandbox::{after_profile_creation, after_second_derivation, profile_needs_creation, ProfileStep};
use crabcage::environment::{build_env_block, merge_environment, to_wide_null};
use crabcage::sandbox::{
    acl_action, always_allowed_processes, build_command_line, build_search_path,
    child_pids_recursive, child_pids, collect_runtime_paths, container_env_pairs, dacl_grant,
    grant_requests, icacls_grant_arguments, monitor_new_pids, needs_traverse_grant,
    pids_to_terminate, process_allowlist, process_name_from_units, quote_arg, remember_acl,
    should_apply_acl, should_terminate, sorted_unique_paths, traverse_grants, AclAction, AclCache,
    AclCacheEntry, DaclAccess, DaclInheritance, RuntimeArg, APP_CONTAINER_NAME,
};

fn pairs(items: &[(&str, &str)]) -> Vec<(String, String)> {
    items.iter().map(|(a, b)| (a.to_string(), b.to_string())).collect()
}

#[test]
fn arguments_are_quoted_only_when_needed() {
    assert_eq!(quote_arg(""), "\"\"");
    assert_eq!(quote_arg("plain"), "plain");
    assert_eq!(quote_arg("two words"), "\"two words\"");
    assert_eq!(quote_arg("tab\there"), "\"tab\there\"");
    assert_eq!(quote_arg("say \"hi\""), "\"say \\\"hi\\\"\"");
    assert_eq!(quote_arg("a\"b"), "\"a\\\"b\"");
}

#[test]
fn command_line_joins_quoted_parts() {
    let args = vec!["-v".to_string(), "".to_string(), "x y".to_string()];
    assert_eq!(
        build_command_line("C:\\Program Files\\nodejs\\node.exe", &args),
        "\"C:\\Program Files\\nodejs\\node.exe\" -v \"\" \"x y\""
    );
    assert_eq!(build_command_line("openclaw", &[]), "openclaw");
}

#[test]
fn environment_overrides_replace_case_insensitively_and_sort() {
    let base = pairs(&[("Path", "a"), ("HOME", "h"), ("=C:", "C:\\"), ("temp", "old")]);
    let over = pairs(&[("PATH", "b"), ("TEMP", "t"), ("X=Y", "z"), ("Alpha", "1")]);
    let merged = merge_environment(&base, &over);
    assert_eq!(
        merged,
        pairs(&[("Alpha", "1"), ("HOME", "h"), ("PATH", "b"), ("TEMP", "t")])
    );
}

#[test]
fn later_override_of_same_name_wins() {
    let merged = merge_environment(&[], &pairs(&[("http_proxy", "one"), ("HTTP_PROXY", "two")]));
    assert_eq!(merged, pairs(&[("HTTP_PROXY", "two")]));
}

#[test]
fn environment_block_is_utf16_with_nul_terminators() {
    let block = build_env_block(&pairs(&[("A", "1"), ("B", "\u{e9}")]));
    let expected: Vec<u16> = "A=1\0B=\u{e9}\0\0".encode_utf16().collect();
    assert_eq!(block, expected);
    assert_eq!(build_env_block(&[]), vec![0u16]);
}

#[test]
fn wide_strings_end_with_nul() {
    assert_eq!(to_wide_null("ab"), vec![97u16, 98, 0]);
    assert_eq!(to_wide_null("\u{1F600}"), vec![0xD83Du16, 0xDE00, 0]);
    assert_eq!(to_wide_null(""), vec![0u16]);
}

#[test]
fn grant_cache_skips_known_grants() {
    let mut cache = AclCache { entries: vec![] };
    assert!(should_apply_acl(&cache, "C:\\data", true, Some(10)));
    remember_acl(&mut cache, "C:\\data", true, Some(10));
    assert!(!should_apply_acl(&cache, "C:\\data", true, Some(10)));
    assert!(should_apply_acl(&cache, "C:\\data", true, Some(11)));
    assert!(should_apply_acl(&cache, "C:\\data", false, Some(10)));
}

#[test]
fn remembering_a_path_replaces_its_old_grant() {
    let mut cache = AclCache {
        entries: vec![
            AclCacheEntry { path: "a".to_string(), writable: false, mtime: None },
            AclCacheEntry { path: "b".to_string(), writable: true, mtime: Some(1) },
        ],
    };
    remember_acl(&mut cache, "a", true, Some(5));
    let seen: Vec<(String, bool, Option<u64>)> =
        cache.entries.iter().map(|e| (e.path.clone(), e.writable, e.mtime)).collect();
    assert_eq!(seen, vec![("b".to_string(), true, Some(1)), ("a".to_string(), true, Some(5))]);
    remember_acl(&mut cache, "a", true, Some(5));
    assert_eq!(cache.entries.len(), 2);
}

#[test]
fn acl_actions() {
    let mut cache = AclCache { entries: vec![] };
    assert_eq!(acl_action(&cache, "C:\\Windows\\x", false, None, true), AclAction::SkipSystem);
    assert_eq!(acl_action(&cache, "C:\\Windows\\x", true, None, true), AclAction::Grant);
    remember_acl(&mut cache, "C:\\tools", false, Some(3));
    assert_eq!(acl_action(&cache, "C:\\tools", false, Some(3), false), AclAction::Cached);
    assert_eq!(acl_action(&cache, "C:\\tools", false, Some(4), false), AclAction::Grant);
}

#[test]
fn traverse_grants_only_inside_user_scope() {
    assert!(needs_traverse_grant(true, true, false));
    assert!(!needs_traverse_grant(true, true, true));
    assert!(!needs_traverse_grant(true, false, false));
    assert!(!needs_traverse_grant(false, true, false));
}

#[test]
fn descendants_are_listed_depth_first() {
    let snap = vec![(2u32, 1u32), (3, 2), (4, 1), (5, 9), (6, 3)];
    assert_eq!(child_pids(&snap, 1), vec![2, 4]);
    assert_eq!(child_pids_recursive(&snap, 1), vec![2, 3, 6, 4]);
    assert_eq!(child_pids_recursive(&snap, 7), Vec::<u32>::new());
}

#[test]
fn parent_cycles_do_not_hang() {
    let snap = vec![(2u32, 3u32), (3, 2)];
    let d = child_pids_recursive(&snap, 2);
    assert_eq!(d, vec![3, 2]);
}

#[test]
fn allowlist_lower_cases_names() {
    let configured = vec![
        ("C:\\Tools\\Git.EXE".to_string(), Some("Git.EXE".to_string())),
        ("Weird".to_string(), None),
    ];
    let list = process_allowlist(&configured, Some("OpenClaw.cmd".to_string()));
    assert_eq!(list[0], "git.exe");
    assert_eq!(list[1], "weird");
    assert_eq!(list.len(), 2 + 14 + 1);
    assert_eq!(list[16], "openclaw.cmd");
    assert_eq!(always_allowed_processes().len(), 14);
    assert!(!should_terminate(&list, Some("node.exe".to_string())));
    assert!(!should_terminate(&list, Some("git.exe".to_string())));
    assert!(should_terminate(&list, Some("calc.exe".to_string())));
    assert!(!should_terminate(&list, None));
}

#[test]
fn process_names_come_from_utf16_units() {
    let units: Vec<u16> = vec![0x4E, 0x6F, 0x44, 0x45, 0x2E, 0x45, 0x58, 0x45, 0, 0x41];
    assert_eq!(process_name_from_units(&units), "node.exe");
    assert_eq!(process_name_from_units(&[0xD800, 0x41]), "?a");
    assert_eq!(process_name_from_units(&[]), "");
}

#[test]
fn icacls_arguments() {
    assert_eq!(
        icacls_grant_arguments("S-1-15-2-1", true, true, true),
        vec!["/grant", "*S-1-15-2-1:(OI)(CI)(M)", "/C", "/L", "/Q", "/T"]
    );
    assert_eq!(
        icacls_grant_arguments("S-1", false, false, true),
        vec!["/grant", "*S-1:(RX)", "/C", "/L", "/Q"]
    );
    assert_eq!(
        icacls_grant_arguments("S-1", true, false, false),
        vec!["/grant", "*S-1:(OI)(CI)(RX)", "/C", "/L", "/Q"]
    );
}

#[test]
fn container_environment() {
    assert_eq!(build_search_path("C:\\app", "C:\\rt\\launch", ""), "C:\\app;C:\\rt\\launch");
    assert_eq!(build_search_path("C:\\app", "C:\\rt\\launch", "C:\\Windows"), "C:\\app;C:\\rt\\launch;C:\\Windows");
    let env = container_env_pairs("h", "ad", "lad", "t", "p");
    assert_eq!(
        env,
        pairs(&[
            ("HOME", "h"),
            ("USERPROFILE", "h"),
            ("APPDATA", "ad"),
            ("LOCALAPPDATA", "lad"),
            ("TEMP", "t"),
            ("TMP", "t"),
            ("CRABCAGE_APP_CONTAINER", "CrabCage.OpenClaw"),
            ("CRABCAGE_FS_HARDENED", "1"),
            ("PATH", "p"),
        ])
    );
    assert_eq!(APP_CONTAINER_NAME, "CrabCage.OpenClaw");
}

#[test]
fn runtime_paths_include_script_folders() {
    let args = vec![
        RuntimeArg {
            path: "C:\\npm\\node_modules\\openclaw\\OpenClaw.MJS".to_string(),
            exists: true,
            file_name: Some("OpenClaw.MJS".to_string()),
            parent: Some("C:\\npm\\node_modules\\openclaw".to_string()),
        },
        RuntimeArg { path: "missing".to_string(), exists: false, file_name: None, parent: None },
        RuntimeArg {
            path: "C:\\data\\x.txt".to_string(),
            exists: true,
            file_name: Some("x.txt".to_string()),
            parent: Some("C:\\data".to_string()),
        },
    ];
    let paths = collect_runtime_paths("C:\\nodejs\\node.exe", true, Some("C:\\nodejs".to_string()), &args);
    let expected: Vec<(String, bool)> = vec![
        ("C:\\data\\x.txt".to_string(), false),
        ("C:\\nodejs".to_string(), false),
        ("C:\\nodejs\\node.exe".to_string(), false),
        ("C:\\npm\\node_modules\\openclaw".to_string(), false),
        ("C:\\npm\\node_modules\\openclaw\\OpenClaw.MJS".to_string(), false),
    ];
    assert_eq!(paths, expected);
    let twice = vec![
        RuntimeArg {
            path: "C:\\nodejs\\node.exe".to_string(),
            exists: true,
            file_name: Some("node.exe".to_string()),
            parent: Some("C:\\nodejs".to_string()),
        },
        RuntimeArg {
            path: "C:\\app\\openclaw.mjs".to_string(),
            exists: true,
            file_name: Some("openclaw.mjs".to_string()),
            parent: Some("C:\\nodejs".to_string()),
        },
    ];
    let paths = collect_runtime_paths("C:\\nodejs\\node.exe", true, Some("C:\\nodejs".to_string()), &twice);
    let expected: Vec<(String, bool)> = vec![
        ("C:\\app\\openclaw.mjs".to_string(), false),
        ("C:\\nodejs".to_string(), false),
        ("C:\\nodejs\\node.exe".to_string(), false),
    ];
    assert_eq!(paths, expected);
    assert_eq!(collect_runtime_paths("gone", false, None, &[]), vec![]);
}

#[test]
fn appcontainer_profile_steps() {
    assert!(profile_needs_creation(-2147024713));
    assert!(!profile_needs_creation(0));
    match after_profile_creation(-2147024891, true) {
        ProfileStep::Failed(e) => assert_eq!(e, format!("AppContainer-Profil konnte nicht erstellt werden (HRESULT 0x{:08X})", -2147024891i32 as u32)),
        _ => panic!("expected failure"),
    }
    assert!(matches!(after_profile_creation(0, true), ProfileStep::UseCreated));
    assert!(matches!(after_profile_creation(1, false), ProfileStep::DeriveAgain));
    assert_eq!(after_second_derivation(0), Ok(()));
    assert_eq!(
        after_second_derivation(-1),
        Err("AppContainer-SID konnte nicht abgeleitet werden (HRESULT 0xFFFFFFFF)".to_string())
    );
    assert_eq!(
        after_second_derivation(i32::MIN),
        Err("AppContainer-SID konnte nicht abgeleitet werden (HRESULT 0x80000000)".to_string())
    );
}

#[test]
fn monitor_reports_each_descendant_once() {
    let mut seen = vec![100];
    let fresh = monitor_new_pids(&mut seen, &[7, 100, 8, 7, 9]);
    assert_eq!(fresh, vec![7, 8, 9]);
    assert_eq!(seen, vec![100, 7, 8, 9]);
    let again = monitor_new_pids(&mut seen, &[9, 8, 10, 7]);
    assert_eq!(again, vec![10]);
    assert_eq!(seen, vec![100, 7, 8, 9, 10]);
    assert_eq!(monitor_new_pids(&mut seen, &[]), Vec::<u32>::new());
}

#[test]
fn only_named_processes_off_the_allowlist_are_stopped() {
    let configured = vec![("C:\\Tools\\Git.EXE".to_string(), Some("Git.EXE".to_string()))];
    let allow = process_allowlist(&configured, Some("node.exe".to_string()));
    let named = vec![
        (1, Some("git.exe".to_string())),
        (2, Some("evil.exe".to_string())),
        (3, None),
        (4, Some("cmd.exe".to_string())),
        (5, Some("curl.exe".to_string())),
    ];
    assert_eq!(pids_to_terminate(&allow, named), vec![2, 5]);
    assert_eq!(pids_to_terminate(&allow, vec![(6, Some("pwsh".to_string()))]), Vec::<u32>::new());
}

#[test]
fn traverse_grants_go_farthest_first() {
    let ancestors = vec![
        ("C:\\Users\\me\\AppData\\Roaming".to_string(), true, true, false),
        ("C:\\Users\\me\\AppData".to_string(), true, true, false),
        ("C:\\Users\\me".to_string(), true, true, true),
        ("C:\\Users".to_string(), true, false, false),
        ("C:\\".to_string(), true, false, false),
    ];
    assert_eq!(
        traverse_grants(&ancestors),
        vec!["C:\\Users\\me\\AppData".to_string(), "C:\\Users\\me\\AppData\\Roaming".to_string()]
    );
    let missing = vec![("C:\\Users\\me\\gone".to_string(), false, true, false)];
    assert_eq!(traverse_grants(&missing), Vec::<String>::new());
}

#[test]
fn dacl_entries_follow_write_and_folder() {
    assert_eq!(dacl_grant(true, true), (DaclAccess::ReadWrite, DaclInheritance::SubContainersAndObjects));
    assert_eq!(dacl_grant(false, true), (DaclAccess::Read, DaclInheritance::SubContainersAndObjects));
    assert_eq!(dacl_grant(true, false), (DaclAccess::ReadWrite, DaclInheritance::ObjectsOnly));
    assert_eq!(dacl_grant(false, false), (DaclAccess::Read, DaclInheritance::ObjectsOnly));
}

#[test]
fn grants_are_planned_in_order() {
    let managed = vec!["C:\\c\\home".to_string(), "C:\\c\\temp".to_string()];
    let runtime = vec![("C:\\Program Files\\nodejs".to_string(), false, true)];
    let rules = vec![
        ("D:\\work".to_string(), true, true),
        ("D:\\gone".to_string(), true, false),
        ("D:\\docs".to_string(), false, true),
    ];
    let plan: Vec<(String, bool, bool)> = grant_requests(&managed, &runtime, &rules)
        .into_iter()
        .map(|r| (r.path, r.writable, r.implicitly_readable))
        .collect();
    assert_eq!(
        plan,
        vec![
            ("C:\\c\\home".to_string(), true, false),
            ("C:\\c\\temp".to_string(), true, false),
            ("C:\\Program Files\\nodejs".to_string(), false, true),
            ("D:\\work".to_string(), true, false),
            ("D:\\docs".to_string(), false, false),
        ]
    );
}

#[test]
fn sorted_paths_keep_the_first_entry_of_each_path() {
    let listed = vec![
        ("b".to_string(), true),
        ("a".to_string(), false),
        ("b".to_string(), false),
        ("ab".to_string(), false),
    ];
    assert_eq!(
        sorted_unique_paths(listed),
        vec![("a".to_string(), false), ("ab".to_string(), false), ("b".to_string(), true)]
    );
}
