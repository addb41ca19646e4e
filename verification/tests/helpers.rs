use herdr_spreader::backend::PaneInfo;
use herdr_spreader::config::{SpreadFile, Workspace};
use herdr_spreader::engine::{
    combine_cwd, cwd_env_prefix, normalize_path, resolve_cwd, shell_quote,
    wrap_command_with_cwd_and_env, ExistingWorkspace,
};
use herdr_spreader::env::{key_less, EnvMap};
use herdr_spreader::paths::{join_path, path_is_absolute};
use herdr_spreader::plugin::{
    existing_root, is_transient_palette, single_workspace, without_transient_palette,
};

fn env_of(pairs: &[(&str, &str)]) -> EnvMap {
    let mut env = EnvMap::new();
    for (k, v) in pairs {
        env.insert(k.to_string(), v.to_string());
    }
    env
}

#[test]
fn normalize_path_drops_current_dir_and_empty_components() {
    assert_eq!(normalize_path("/proj/./sub//inner/"), "/proj/sub/inner");
    assert_eq!(normalize_path("./a/b"), "a/b");
    assert_eq!(normalize_path("/"), "/");
    assert_eq!(normalize_path("a/../b"), "a/../b");
    assert_eq!(normalize_path(""), "");
}

#[test]
fn join_path_follows_unix_path_join() {
    assert_eq!(join_path("/proj", "sub"), "/proj/sub");
    assert_eq!(join_path("/proj/", "sub"), "/proj/sub");
    assert_eq!(join_path("/proj", "/abs"), "/abs");
    assert_eq!(join_path("", "rel"), "rel");
    assert!(path_is_absolute("/x"));
    assert!(!path_is_absolute("x"));
}

#[test]
fn shell_quote_escapes_single_quotes() {
    assert_eq!(shell_quote("bar"), "'bar'");
    assert_eq!(shell_quote("it's"), "'it'\\''s'");
    assert_eq!(shell_quote(""), "''");
}

#[test]
fn cwd_env_prefix_puts_cd_first_then_exports_in_key_order() {
    let env = env_of(&[("ZED", "2"), ("ALPHA", "1")]);
    assert_eq!(
        cwd_env_prefix(Some("/p"), &env),
        Some("cd '/p' && export ALPHA='1' && export ZED='2'".to_string())
    );
    assert_eq!(
        cwd_env_prefix(None, &env),
        Some("export ALPHA='1' && export ZED='2'".to_string())
    );
    assert_eq!(cwd_env_prefix(None, &EnvMap::new()), None);
    assert_eq!(wrap_command_with_cwd_and_env("ls", None, &EnvMap::new()), "ls");
    assert_eq!(
        wrap_command_with_cwd_and_env("ls", Some("/p"), &EnvMap::new()),
        "cd '/p' && ls"
    );
}

#[test]
fn absolute_cwd_replaces_and_relative_cwds_compose() {
    assert_eq!(combine_cwd(Some("/root"), Some("/abs/x")), Some("/abs/x".to_string()));
    assert_eq!(combine_cwd(Some("/root"), Some("./x")), Some("/root/x".to_string()));
    assert_eq!(combine_cwd(None, None), None);
    assert_eq!(
        resolve_cwd(Some("/proj"), Some("./sub"), Some("./inner")),
        Some("/proj/sub/inner".to_string())
    );
    assert_eq!(resolve_cwd(Some("/proj"), Some("/t"), None), Some("/t".to_string()));
}

#[test]
fn env_map_keeps_keys_sorted_and_replaces_values() {
    let mut env = env_of(&[("b", "1"), ("a", "2"), ("c", "3")]);
    env.insert("b".to_string(), "9".to_string());
    assert_eq!(env.len(), 3);
    let keys: Vec<String> = (0..env.len()).map(|i| env.entry(i).0.clone()).collect();
    assert_eq!(keys, vec!["a", "b", "c"]);
    assert_eq!(env.get("b"), Some(&"9".to_string()));
    assert_eq!(env.get("d"), None);
    assert!(EnvMap::new().is_empty());
    assert!(key_less("A", "a"));
    assert!(key_less("ab", "abc"));
    assert!(!key_less("b", "ab"));
}

fn target() -> ExistingWorkspace {
    ExistingWorkspace {
        workspace_id: "w7".to_string(),
        tab_id: "w7:t4".to_string(),
        root_pane_id: "w7:p9".to_string(),
    }
}

fn pane(id: &str, tab: &str) -> PaneInfo {
    PaneInfo {
        pane_id: id.to_string(),
        tab_id: tab.to_string(),
    }
}

#[test]
fn palette_pane_is_replaced_by_first_durable_pane_of_the_tab() {
    assert!(is_transient_palette(Some("Command palette")));
    assert!(is_transient_palette(Some("Palette")));
    assert!(!is_transient_palette(Some("dev")));
    assert!(!is_transient_palette(None));

    let panes = vec![pane("w7:p1", "w7:t1"), pane("w7:p9", "w7:t4"), pane("w7:p3", "w7:t4")];
    let (t, rest) = without_transient_palette(&target(), panes.clone(), Some("Palette")).unwrap();
    assert_eq!(t.root_pane_id, "w7:p3");
    assert_eq!(t.tab_id, "w7:t4");
    assert_eq!(rest, vec![pane("w7:p1", "w7:t1"), pane("w7:p3", "w7:t4")]);

    let (t, rest) = without_transient_palette(&target(), panes.clone(), Some("dev")).unwrap();
    assert_eq!(t, target());
    assert_eq!(rest, panes);

    let only_palette = vec![pane("w7:p9", "w7:t4")];
    let err = without_transient_palette(&target(), only_palette, Some("Palette")).unwrap_err();
    assert!(err.message.contains("durable pane"));
}

#[test]
fn single_workspace_requires_exactly_one() {
    let one = SpreadFile {
        workspaces: vec![Workspace {
            name: "solo".to_string(),
            ..Default::default()
        }],
    };
    assert_eq!(single_workspace(one).unwrap().name, "solo");
    let none = SpreadFile { workspaces: vec![] };
    assert!(single_workspace(none).unwrap_err().message.contains("exactly one workspace"));
}

#[test]
fn existing_root_must_be_absolute() {
    assert_eq!(existing_root(Some("/w".to_string()), "/f".to_string()).unwrap(), "/w");
    assert_eq!(existing_root(None, "/f".to_string()).unwrap(), "/f");
    assert_eq!(
        existing_root(Some("rel".to_string()), "/f".to_string()).unwrap_err().message,
        "apply-existing --root must be an absolute path: rel"
    );
}

#[test]
fn normalize_path_keeps_parent_components_and_is_idempotent() {
    assert_eq!(normalize_path("/proj/./sub/../x"), "/proj/sub/../x");
    assert_eq!(normalize_path("./sub"), "sub");
    for p in ["/proj/./sub/../x", "./sub", "a//b/./", "/", "", "..", "./."] {
        let once = normalize_path(p);
        assert_eq!(normalize_path(&once), once);
    }
}
