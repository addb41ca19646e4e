use herdr_spreader::config::resolve_config_path;
use herdr_spreader::env::EnvMap;

#[test]
fn should_prefer_explicit_path_over_plugin_config_dir_when_resolving_config_path() {
    let explicit = Some("/tmp/x.yml".to_string());
    let mut env = EnvMap::new();
    env.insert("HERDR_PLUGIN_CONFIG_DIR".to_string(), "/cfg".to_string());

    let resolved = resolve_config_path(explicit, &env);

    assert_eq!(resolved, "/tmp/x.yml".to_string());
}

#[test]
fn should_fall_back_to_plugin_config_dir_then_user_config_dir_when_no_explicit_path() {
    let mut env_with_plugin_dir = EnvMap::new();
    env_with_plugin_dir.insert("HERDR_PLUGIN_CONFIG_DIR".to_string(), "/cfg".to_string());

    let resolved_with_plugin_dir = resolve_config_path(None, &env_with_plugin_dir);
    assert_eq!(resolved_with_plugin_dir, "/cfg/spread.yml".to_string());

    let mut env_with_home_only = EnvMap::new();
    env_with_home_only.insert("HOME".to_string(), "/home/demo".to_string());

    let resolved_with_home = resolve_config_path(None, &env_with_home_only);
    assert_eq!(
        resolved_with_home,
        "/home/demo/.config/herdr-spreader/spread.yml".to_string()
    );
}

use herdr_spreader::config::{
    resolve_paths, resolve_workspace_paths, LayoutNode, LayoutPane, Pane, SpreadFile, Tab, Workspace,
};

fn home_env() -> EnvMap {
    let mut env = EnvMap::new();
    env.insert("HOME".to_string(), "/home/demo".to_string());
    env
}

fn rooted(root: &str) -> Workspace {
    Workspace {
        name: "demo".to_string(),
        root: Some(root.to_string()),
        ..Default::default()
    }
}

#[test]
fn should_expand_home_relative_root_given_tilde_slash_prefix() {
    let resolved = resolve_workspace_paths(rooted("~/code/my-project"), &home_env(), "/irrelevant");
    assert_eq!(resolved.root, Some("/home/demo/code/my-project".to_string()));
}

#[test]
fn should_expand_bare_tilde_root_to_home_directory() {
    let resolved = resolve_workspace_paths(rooted("~"), &home_env(), "/irrelevant");
    assert_eq!(resolved.root, Some("/home/demo".to_string()));
}

#[test]
fn should_leave_absolute_root_unchanged() {
    let resolved = resolve_workspace_paths(rooted("/proj"), &EnvMap::new(), "/irrelevant");
    assert_eq!(resolved.root, Some("/proj".to_string()));
}

#[test]
fn should_resolve_relative_root_against_given_cwd() {
    let resolved = resolve_workspace_paths(rooted("proj"), &EnvMap::new(), "/home/demo");
    assert_eq!(resolved.root, Some("/home/demo/proj".to_string()));
}

#[test]
fn should_expand_tilde_in_tab_and_pane_cwd_without_forcing_them_absolute() {
    let config = Workspace {
        name: "demo".to_string(),
        root: Some("/proj".to_string()),
        tabs: vec![Tab {
            label: None,
            cwd: Some("~/logs".to_string()),
            panes: vec![
                Pane {
                    command: None,
                    cwd: Some("~".to_string()),
                    ..Default::default()
                },
                Pane {
                    command: None,
                    cwd: Some("./relative".to_string()),
                    ..Default::default()
                },
            ],
            ..Default::default()
        }],
        ..Default::default()
    };

    let resolved = resolve_workspace_paths(config, &home_env(), "/irrelevant");

    assert_eq!(resolved.tabs[0].cwd, Some("/home/demo/logs".to_string()));
    assert_eq!(resolved.tabs[0].panes[0].cwd, Some("/home/demo".to_string()));
    assert_eq!(resolved.tabs[0].panes[1].cwd, Some("./relative".to_string()));
}

#[test]
fn should_default_root_to_invocation_cwd_when_root_is_absent() {
    let config = Workspace {
        name: "demo".to_string(),
        tabs: vec![Tab {
            label: None,
            cwd: Some("svc".to_string()),
            panes: vec![],
            ..Default::default()
        }],
        ..Default::default()
    };

    let resolved = resolve_workspace_paths(config, &EnvMap::new(), "/home/demo/project");

    assert_eq!(resolved.root, Some("/home/demo/project".to_string()));
    assert_eq!(resolved.tabs[0].cwd, Some("svc".to_string()));
}

#[test]
fn should_resolve_each_workspace_root_independently_given_two_workspaces() {
    let file = SpreadFile {
        workspaces: vec![
            Workspace {
                name: "ws1".to_string(),
                root: Some("~/a".to_string()),
                ..Default::default()
            },
            Workspace {
                name: "ws2".to_string(),
                root: Some("proj".to_string()),
                ..Default::default()
            },
        ],
    };

    let resolved = resolve_paths(file, &home_env(), "/home/demo/base");

    assert_eq!(resolved.workspaces[0].root, Some("/home/demo/a".to_string()));
    assert_eq!(resolved.workspaces[1].root, Some("/home/demo/base/proj".to_string()));
}

#[test]
fn should_default_all_roots_to_invocation_cwd_when_multiple_workspaces_omit_root() {
    let file = SpreadFile {
        workspaces: vec![
            Workspace {
                name: "ws1".to_string(),
                ..Default::default()
            },
            Workspace {
                name: "ws2".to_string(),
                ..Default::default()
            },
        ],
    };

    let resolved = resolve_paths(file, &EnvMap::new(), "/home/demo/project");

    assert_eq!(resolved.workspaces[0].root, Some("/home/demo/project".to_string()));
    assert_eq!(resolved.workspaces[1].root, Some("/home/demo/project".to_string()));
}

#[test]
fn tilde_in_the_middle_of_a_path_is_left_alone() {
    let resolved = resolve_workspace_paths(rooted("/a/~/b"), &home_env(), "/irrelevant");
    assert_eq!(resolved.root, Some("/a/~/b".to_string()));
}

#[test]
fn tilde_user_prefix_is_not_expanded() {
    let resolved = resolve_workspace_paths(rooted("~bob/x"), &home_env(), "/base");
    assert_eq!(resolved.root, Some("/base/~bob/x".to_string()));
}

#[test]
fn config_path_without_home_is_relative() {
    assert_eq!(
        resolve_config_path(None, &EnvMap::new()),
        ".config/herdr-spreader/spread.yml".to_string()
    );
}

#[test]
fn tilde_in_layout_leaf_cwd_is_expanded() {
    let config = Workspace {
        name: "demo".to_string(),
        root: Some("/proj".to_string()),
        tabs: vec![Tab {
            layout: Some(LayoutNode::Pane(LayoutPane {
                pane: Pane {
                    cwd: Some("~/logs".to_string()),
                    ..Default::default()
                },
            })),
            ..Default::default()
        }],
        ..Default::default()
    };
    let resolved = resolve_workspace_paths(config, &home_env(), "/irrelevant");
    match &resolved.tabs[0].layout {
        Some(LayoutNode::Pane(p)) => assert_eq!(p.pane.cwd, Some("/home/demo/logs".to_string())),
        other => panic!("unexpected layout {other:?}"),
    }
}
