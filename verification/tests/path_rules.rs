use crabcage::paths::{
    components_of, join_path, parent_chain, path_less, paths_equal, starts_with_path, within_any,
    CUR_DIR, DISK, NORMAL, PARENT_DIR, ROOT, UNC_PART,
};
use crabcage::sandbox::{
    collect_runtime_paths, container_dir_paths, data_dir_path, fallback_container_root,
    is_implicitly_readable_system_path, RuntimeArg,
};

fn comps(items: &[(u8, &str)]) -> Vec<(u8, Vec<char>)> {
    items.iter().map(|(k, t)| (*k, t.chars().collect())).collect()
}

#[test]
fn components_follow_windows_rules() {
    assert_eq!(
        components_of("c:/Users//me\\.\\x\\"),
        comps(&[(DISK, "C"), (ROOT, ""), (NORMAL, "Users"), (NORMAL, "me"), (NORMAL, "x")])
    );
    assert_eq!(components_of("C:rel"), comps(&[(DISK, "C"), (NORMAL, "rel")]));
    assert_eq!(components_of("./a/../b"), comps(&[(CUR_DIR, "."), (NORMAL, "a"), (PARENT_DIR, ".."), (NORMAL, "b")]));
    assert_eq!(
        components_of("\\\\srv\\share\\d"),
        comps(&[(UNC_PART, "srv"), (UNC_PART, "share"), (ROOT, ""), (NORMAL, "d")])
    );
    assert_eq!(components_of(""), comps(&[]));
}

#[test]
fn paths_are_ordered_by_components() {
    assert!(path_less("/a/b", "/a.b"));
    assert!(!path_less("/a.b", "/a/b"));
    assert!(path_less("/a", "/a/b"));
    assert!(path_less("C:\\x", "C:y"));
    assert!(path_less("\\\\srv\\s\\x", "C:\\x"));
    assert!(!path_less("C:\\a\\", "C:\\a"));
}

#[test]
fn paths_are_equal_by_components() {
    assert!(paths_equal("C:\\a\\", "C:\\a"));
    assert!(paths_equal("c:/a//b", "C:\\a\\b"));
    assert!(!paths_equal("C:\\a", "C:\\A"));
    assert!(!paths_equal("C:\\a", "C:a"));
}

#[test]
fn starts_with_compares_whole_components() {
    assert!(starts_with_path("C:\\Program Files\\node\\node.exe", "C:\\Program Files"));
    assert!(!starts_with_path("C:\\Program Files (x86)\\x", "C:\\Program Files"));
    assert!(starts_with_path("C:\\Windows\\x", "c:\\Windows"));
    assert!(within_any("C:\\Windows\\System32", &["D:\\x".to_string(), "C:\\Windows".to_string()]));
    assert!(!within_any("C:\\Windows", &[]));
}

#[test]
fn parent_chain_walks_up_with_scope_facts() {
    let scopes = vec!["C:\\Users\\me".to_string(), "C:\\Users\\me\\AppData\\Roaming".to_string()];
    let chain = parent_chain("C:/Users/me/AppData/Roaming/x.txt", &scopes, &Some("C:\\Users\\me\\".to_string()));
    assert_eq!(
        chain,
        vec![
            ("C:\\Users\\me\\AppData\\Roaming".to_string(), true, false),
            ("C:\\Users\\me\\AppData".to_string(), true, false),
            ("C:\\Users\\me".to_string(), true, true),
            ("C:\\Users".to_string(), false, false),
            ("C:\\".to_string(), false, false),
        ]
    );
    assert_eq!(parent_chain("C:\\", &scopes, &None), vec![]);
    assert_eq!(parent_chain("a", &[], &None), vec![(String::new(), false, false)]);
    assert_eq!(
        parent_chain("\\\\srv\\share\\d\\f", &[], &None),
        vec![("\\\\srv\\share\\d".to_string(), false, false), ("\\\\srv\\share\\".to_string(), false, false)]
    );
}

#[test]
fn joining_follows_pathbuf() {
    assert_eq!(join_path("C:\\x", "y"), "C:\\x\\y");
    assert_eq!(join_path("C:\\x\\", "y"), "C:\\x\\y");
    assert_eq!(join_path("C:", "y"), "C:y");
    assert_eq!(join_path("", "y"), "y");
    assert_eq!(data_dir_path(Some("C:\\R".into()), Some("/h".into())), "C:\\R\\CrabCage");
    assert_eq!(data_dir_path(None, None), ".\\CrabCage");
}

#[test]
fn container_folders_are_placed_under_the_root() {
    assert_eq!(
        fallback_container_root(Some("C:\\L".into()), "C:\\R\\CrabCage"),
        "C:\\L\\Packages\\CrabCage.OpenClaw\\AC"
    );
    assert_eq!(
        fallback_container_root(None, "C:\\R\\CrabCage"),
        "C:\\R\\CrabCage\\Packages\\CrabCage.OpenClaw\\AC"
    );
    let (h, a, l, t, r) = container_dir_paths("C:\\root\\");
    assert_eq!(
        (h, a, l, t, r),
        (
            "C:\\root\\home".to_string(),
            "C:\\root\\appdata".to_string(),
            "C:\\root\\localappdata".to_string(),
            "C:\\root\\temp".to_string(),
            "C:\\root\\runtime".to_string()
        )
    );
}

#[test]
fn system_folders_are_readable_anyway() {
    let roots = vec!["C:\\Program Files".to_string(), "C:\\Windows".to_string()];
    assert!(is_implicitly_readable_system_path("C:\\Program Files\\nodejs\\node.exe", &roots));
    assert!(!is_implicitly_readable_system_path("C:\\Program Files (x86)\\x", &roots));
    assert!(!is_implicitly_readable_system_path("C:\\Users\\me", &roots));
}

#[test]
fn runtime_paths_sort_as_paths() {
    let args = vec![RuntimeArg {
        path: "/a.b".to_string(),
        exists: true,
        file_name: Some("a.b".to_string()),
        parent: Some("/".to_string()),
    }];
    let paths = collect_runtime_paths("/a/b", true, Some("/a".to_string()), &args);
    assert_eq!(
        paths,
        vec![("/a".to_string(), false), ("/a/b".to_string(), false), ("/a.b".to_string(), false)]
    );
    let same = vec![RuntimeArg {
        path: "C:\\a\\".to_string(),
        exists: true,
        file_name: Some("a".to_string()),
        parent: Some("C:\\".to_string()),
    }];
    let paths = collect_runtime_paths("C:\\a\\node.exe", true, Some("C:\\a".to_string()), &same);
    assert_eq!(paths, vec![("C:\\a".to_string(), false), ("C:\\a\\node.exe".to_string(), false)]);
}
