use herdr_spreader::backend::{
    BackendError, HerdrBackend, SplitOpts, TabCreated, TabOpts, Traced, WorkspaceCreated,
    WorkspaceOpts,
};
use herdr_spreader::config::{
    LayoutNode, LayoutPane, LayoutSplit, Pane, Ratio, SplitDirection, SpreadFile, Tab, WaitFor,
    Workspace,
};
use herdr_spreader::engine;
use herdr_spreader::env::EnvMap;
use herdr_spreader::validate::validate_config;

#[derive(Debug, PartialEq)]
enum Call {
    CreateWorkspace(WorkspaceOpts),
    RenameTab { tab_id: String, label: String },
    CreateTab { workspace_id: String, opts: TabOpts },
    SplitPane { from: String, opts: SplitOpts },
    Run { pane_id: String, command: String },
    WaitOutput { pane_id: String, wait: WaitFor },
    FocusPane { pane_id: String },
}

#[derive(Default)]
struct MockBackend {
    calls: Vec<Call>,
    next_workspace: u32,
    current_ws: String,
    next_tab: u32,
    next_pane: u32,
}

impl HerdrBackend for MockBackend {
    fn create_workspace(&mut self, opts: &WorkspaceOpts) -> Result<WorkspaceCreated, BackendError> {
        self.calls.push(Call::CreateWorkspace(opts.clone()));
        self.next_workspace += 1;
        self.current_ws = format!("w{}", self.next_workspace);
        self.next_tab = 2;
        self.next_pane = 2;
        Ok(WorkspaceCreated {
            workspace_id: self.current_ws.clone(),
            tab_id: format!("{}:t1", self.current_ws),
            root_pane_id: format!("{}:p1", self.current_ws),
        })
    }

    fn create_tab(&mut self, workspace_id: &str, opts: &TabOpts) -> Result<TabCreated, BackendError> {
        self.calls.push(Call::CreateTab {
            workspace_id: workspace_id.to_string(),
            opts: opts.clone(),
        });
        let tab_id = format!("{workspace_id}:t{}", self.next_tab);
        let pane_id = format!("{workspace_id}:p{}", self.next_pane);
        self.next_tab += 1;
        self.next_pane += 1;
        Ok(TabCreated {
            tab_id,
            root_pane_id: pane_id,
        })
    }

    fn split_pane(&mut self, from_pane: &str, opts: &SplitOpts) -> Result<String, BackendError> {
        self.calls.push(Call::SplitPane {
            from: from_pane.to_string(),
            opts: opts.clone(),
        });
        let pane_id = format!("{}:p{}", self.current_ws, self.next_pane);
        self.next_pane += 1;
        Ok(pane_id)
    }

    fn run(&mut self, pane_id: &str, command: &str) -> Result<(), BackendError> {
        self.calls.push(Call::Run {
            pane_id: pane_id.to_string(),
            command: command.to_string(),
        });
        Ok(())
    }

    fn rename_tab(&mut self, tab_id: &str, label: &str) -> Result<(), BackendError> {
        self.calls.push(Call::RenameTab {
            tab_id: tab_id.to_string(),
            label: label.to_string(),
        });
        Ok(())
    }

    fn wait_output(&mut self, pane_id: &str, wait: &WaitFor) -> Result<(), BackendError> {
        self.calls.push(Call::WaitOutput {
            pane_id: pane_id.to_string(),
            wait: wait.clone(),
        });
        Ok(())
    }

    fn focus_pane(&mut self, pane_id: &str) -> Result<(), BackendError> {
        self.calls.push(Call::FocusPane {
            pane_id: pane_id.to_string(),
        });
        Ok(())
    }
}

fn ratio(x: f64) -> Ratio {
    Ratio { bits: x.to_bits(), text: x.to_string() }
}

fn mock() -> Traced<MockBackend> {
    Traced::new(MockBackend::default())
}

#[test]
fn should_create_workspace_with_label_cwd_and_no_focus_given_minimal_config() {
    let config = Workspace {
        name: "demo".to_string(),
        root: Some("/proj".to_string()),
        ..Default::default()
    };
    let mut mock = mock();

    engine::apply_workspace(&config, &mut mock).unwrap();

    assert_eq!(
        mock.backend().calls[0],
        Call::CreateWorkspace(WorkspaceOpts {
            label: "demo".to_string(),
            cwd: Some("/proj".to_string()),
            env: EnvMap::new(),
            focus: false,
        })
    );
}

#[test]
fn should_run_command_in_root_pane_given_single_tab_with_one_pane() {
    let config = Workspace {
        name: "demo".to_string(),
        tabs: vec![Tab {
            label: None,
            panes: vec![Pane {
                command: Some("nvim".to_string()),
                ..Default::default()
            }],
            ..Default::default()
        }],
        ..Default::default()
    };
    let mut mock = mock();

    engine::apply_workspace(&config, &mut mock).unwrap();

    assert_eq!(
        mock.backend().calls[1],
        Call::Run {
            pane_id: "w1:p1".to_string(),
            command: "nvim".to_string(),
        }
    );
}

#[test]
fn should_rename_root_tab_when_first_tab_has_label() {
    let config = Workspace {
        name: "demo".to_string(),
        tabs: vec![Tab {
            label: Some("editor".to_string()),
            panes: vec![Pane {
                command: Some("nvim".to_string()),
                ..Default::default()
            }],
            ..Default::default()
        }],
        ..Default::default()
    };
    let mut mock = mock();

    engine::apply_workspace(&config, &mut mock).unwrap();

    let calls = &mock.backend().calls;
    let rename_index = calls
        .iter()
        .position(|c| matches!(c, Call::RenameTab { .. }))
        .expect("rename_tab was not called");
    let run_index = calls
        .iter()
        .position(|c| matches!(c, Call::Run { .. }))
        .expect("run was not called");

    assert_eq!(
        calls[rename_index],
        Call::RenameTab {
            tab_id: "w1:t1".to_string(),
            label: "editor".to_string(),
        }
    );
    assert!(rename_index < run_index);
}

#[test]
fn should_create_additional_tab_threading_workspace_id_given_second_tab() {
    let config = Workspace {
        name: "demo".to_string(),
        tabs: vec![
            Tab {
                label: None,
                panes: vec![Pane {
                    command: None,
                    ..Default::default()
                }],
                ..Default::default()
            },
            Tab {
                label: Some("server".to_string()),
                panes: vec![Pane {
                    command: Some("cargo run".to_string()),
                    ..Default::default()
                }],
                ..Default::default()
            },
        ],
        ..Default::default()
    };
    let mut mock = mock();

    engine::apply_workspace(&config, &mut mock).unwrap();

    let calls = &mock.backend().calls;
    let create_tab_index = calls
        .iter()
        .position(|c| matches!(c, Call::CreateTab { .. }))
        .expect("create_tab was not called");

    assert_eq!(
        calls[create_tab_index],
        Call::CreateTab {
            workspace_id: "w1".to_string(),
            opts: TabOpts {
                label: Some("server".to_string()),
                cwd: None,
                focus: false,
            },
        }
    );
    assert_eq!(
        calls[create_tab_index + 1],
        Call::Run {
            pane_id: "w1:p2".to_string(),
            command: "cargo run".to_string(),
        }
    );
}

#[test]
fn should_split_from_previous_pane_with_direction_and_ratio_given_multi_pane_tab() {
    let config = Workspace {
        name: "demo".to_string(),
        tabs: vec![Tab {
            label: None,
            panes: vec![
                Pane {
                    command: None,
                    ..Default::default()
                },
                Pane {
                    command: Some("watch".to_string()),
                    split: SplitDirection::Down,
                    ratio: Some(ratio(0.3)),
                    ..Default::default()
                },
                Pane {
                    command: Some("logs".to_string()),
                    ..Default::default()
                },
            ],
            ..Default::default()
        }],
        ..Default::default()
    };
    let mut mock = mock();

    engine::apply_workspace(&config, &mut mock).unwrap();

    let calls = &mock.backend().calls;
    assert_eq!(
        calls[1],
        Call::SplitPane {
            from: "w1:p1".to_string(),
            opts: SplitOpts {
                direction: SplitDirection::Down,
                ratio: Some(ratio(0.3)),
                ..Default::default()
            },
        }
    );
    assert_eq!(
        calls[2],
        Call::Run {
            pane_id: "w1:p2".to_string(),
            command: "watch".to_string(),
        }
    );
    assert_eq!(
        calls[3],
        Call::SplitPane {
            from: "w1:p2".to_string(),
            opts: SplitOpts {
                direction: SplitDirection::Right,
                ratio: None,
                ..Default::default()
            },
        }
    );
    assert_eq!(
        calls[4],
        Call::Run {
            pane_id: "w1:p3".to_string(),
            command: "logs".to_string(),
        }
    );
}

#[test]
fn should_pass_pane_cwd_and_env_to_split_opts_given_pane_overrides() {
    let mut pane_env = EnvMap::new();
    pane_env.insert("FOO".to_string(), "bar".to_string());

    let config = Workspace {
        name: "demo".to_string(),
        root: Some("/proj".to_string()),
        tabs: vec![Tab {
            label: None,
            panes: vec![
                Pane {
                    command: None,
                    ..Default::default()
                },
                Pane {
                    command: Some("watch".to_string()),
                    cwd: Some("./sub".to_string()),
                    env: pane_env.clone(),
                    ..Default::default()
                },
            ],
            ..Default::default()
        }],
        ..Default::default()
    };
    let mut mock = mock();

    engine::apply_workspace(&config, &mut mock).unwrap();

    assert_eq!(
        mock.backend().calls[1],
        Call::SplitPane {
            from: "w1:p1".to_string(),
            opts: SplitOpts {
                direction: SplitDirection::Right,
                ratio: None,
                cwd: Some("/proj/sub".to_string()),
                env: pane_env,
                focus: false,
            },
        }
    );
}

#[test]
fn should_call_wait_output_after_run_and_before_next_pane_given_wait_for() {
    let config = Workspace {
        name: "demo".to_string(),
        tabs: vec![Tab {
            label: None,
            panes: vec![
                Pane {
                    command: Some("watch".to_string()),
                    wait_for: Some(WaitFor {
                        pattern: "ready".to_string(),
                        timeout_ms: None,
                    }),
                    ..Default::default()
                },
                Pane {
                    command: Some("logs".to_string()),
                    ..Default::default()
                },
            ],
            ..Default::default()
        }],
        ..Default::default()
    };
    let mut mock = mock();

    engine::apply_workspace(&config, &mut mock).unwrap();

    let calls = &mock.backend().calls;
    assert_eq!(
        calls[1],
        Call::Run {
            pane_id: "w1:p1".to_string(),
            command: "watch".to_string(),
        }
    );
    assert_eq!(
        calls[2],
        Call::WaitOutput {
            pane_id: "w1:p1".to_string(),
            wait: WaitFor {
                pattern: "ready".to_string(),
                timeout_ms: None,
            },
        }
    );
    assert_eq!(
        calls[3],
        Call::SplitPane {
            from: "w1:p1".to_string(),
            opts: SplitOpts {
                direction: SplitDirection::Right,
                ratio: None,
                ..Default::default()
            },
        }
    );
}

#[test]
fn should_wrap_first_pane_command_with_cd_and_env_export_given_root_tab_and_pane_overrides() {
    let mut pane_env = EnvMap::new();
    pane_env.insert("FOO".to_string(), "bar".to_string());

    let config = Workspace {
        name: "demo".to_string(),
        root: Some("/proj".to_string()),
        tabs: vec![Tab {
            label: None,
            cwd: Some("./sub".to_string()),
            panes: vec![Pane {
                command: Some("nvim".to_string()),
                cwd: Some("./inner".to_string()),
                env: pane_env,
                ..Default::default()
            }],
            layout: None,
        }],
        ..Default::default()
    };
    let mut mock = mock();

    engine::apply_workspace(&config, &mut mock).unwrap();

    assert_eq!(
        mock.backend().calls[1],
        Call::Run {
            pane_id: "w1:p1".to_string(),
            command: "cd '/proj/sub/inner' && export FOO='bar' && nvim".to_string(),
        }
    );
}

#[test]
fn should_run_bare_cd_and_export_on_first_pane_given_no_command_but_cwd_and_env_set() {
    let mut pane_env = EnvMap::new();
    pane_env.insert("FOO".to_string(), "bar".to_string());

    let config = Workspace {
        name: "demo".to_string(),
        root: Some("/proj".to_string()),
        tabs: vec![Tab {
            label: None,
            cwd: Some("./sub".to_string()),
            panes: vec![Pane {
                command: None,
                env: pane_env,
                ..Default::default()
            }],
            layout: None,
        }],
        ..Default::default()
    };
    let mut mock = mock();

    engine::apply_workspace(&config, &mut mock).unwrap();

    assert_eq!(
        mock.backend().calls[1],
        Call::Run {
            pane_id: "w1:p1".to_string(),
            command: "cd '/proj/sub' && export FOO='bar'".to_string(),
        }
    );
}

#[test]
fn should_not_call_run_on_first_pane_given_no_command_and_no_cwd_or_env() {
    let config = Workspace {
        name: "demo".to_string(),
        tabs: vec![Tab {
            label: None,
            panes: vec![Pane {
                command: None,
                ..Default::default()
            }],
            ..Default::default()
        }],
        ..Default::default()
    };
    let mut mock = mock();

    engine::apply_workspace(&config, &mut mock).unwrap();

    assert!(!mock.backend().calls.iter().any(|c| matches!(c, Call::Run { .. })));
}

#[test]
fn should_resolve_tab_cwd_against_root_given_second_tab_with_relative_cwd() {
    let config = Workspace {
        name: "demo".to_string(),
        root: Some("/proj".to_string()),
        tabs: vec![
            Tab {
                label: None,
                panes: vec![Pane {
                    command: None,
                    ..Default::default()
                }],
                ..Default::default()
            },
            Tab {
                label: Some("server".to_string()),
                cwd: Some("./svc".to_string()),
                panes: vec![Pane {
                    command: Some("cargo run".to_string()),
                    ..Default::default()
                }],
                layout: None,
            },
        ],
        ..Default::default()
    };
    let mut mock = mock();

    engine::apply_workspace(&config, &mut mock).unwrap();

    let calls = &mock.backend().calls;
    let create_tab_index = calls
        .iter()
        .position(|c| matches!(c, Call::CreateTab { .. }))
        .expect("create_tab was not called");

    assert_eq!(
        calls[create_tab_index],
        Call::CreateTab {
            workspace_id: "w1".to_string(),
            opts: TabOpts {
                label: Some("server".to_string()),
                cwd: Some("/proj/svc".to_string()),
                focus: false,
            },
        }
    );
}

#[test]
fn should_error_when_wait_for_is_set_on_a_pane_without_a_command() {
    let config = Workspace {
        name: "demo".to_string(),
        tabs: vec![Tab {
            label: None,
            panes: vec![Pane {
                command: None,
                wait_for: Some(WaitFor {
                    pattern: "ready".to_string(),
                    timeout_ms: None,
                }),
                ..Default::default()
            }],
            ..Default::default()
        }],
        ..Default::default()
    };
    let mut mock = mock();

    let result = engine::apply_workspace(&config, &mut mock);

    assert!(matches!(
        result,
        Err(engine::EngineError::WaitForWithoutCommand)
    ));
}

#[test]
fn should_focus_marked_pane_at_end_and_fall_back_to_first_pane_when_none_marked() {
    let config_with_explicit_focus = Workspace {
        name: "demo".to_string(),
        tabs: vec![
            Tab {
                label: None,
                panes: vec![Pane {
                    command: None,
                    ..Default::default()
                }],
                ..Default::default()
            },
            Tab {
                label: Some("server".to_string()),
                panes: vec![Pane {
                    command: Some("cargo run".to_string()),
                    focus: true,
                    ..Default::default()
                }],
                ..Default::default()
            },
        ],
        ..Default::default()
    };
    let file_with_explicit_focus = SpreadFile {
        workspaces: vec![config_with_explicit_focus],
    };
    let mut mock = mock();

    engine::apply(&file_with_explicit_focus, &mut mock).unwrap();

    assert_eq!(
        mock.backend().calls.last(),
        Some(&Call::FocusPane {
            pane_id: "w1:p2".to_string(),
        })
    );

    let config_without_focus = Workspace {
        name: "demo".to_string(),
        tabs: vec![Tab {
            label: None,
            panes: vec![Pane {
                command: Some("nvim".to_string()),
                ..Default::default()
            }],
            ..Default::default()
        }],
        ..Default::default()
    };
    let file_without_focus = SpreadFile {
        workspaces: vec![config_without_focus],
    };
    let mut mock = self::mock();

    engine::apply(&file_without_focus, &mut mock).unwrap();

    assert_eq!(
        mock.backend().calls.last(),
        Some(&Call::FocusPane {
            pane_id: "w1:p1".to_string(),
        })
    );
}

#[test]
fn should_apply_workspaces_in_order_and_focus_first_workspace_pane_once_when_no_focus_flag() {
    let ws1 = Workspace {
        name: "alpha".to_string(),
        tabs: vec![Tab {
            label: None,
            panes: vec![Pane {
                command: Some("nvim".to_string()),
                ..Default::default()
            }],
            ..Default::default()
        }],
        ..Default::default()
    };
    let ws2 = Workspace {
        name: "beta".to_string(),
        tabs: vec![Tab {
            label: None,
            panes: vec![Pane {
                command: Some("cargo run".to_string()),
                ..Default::default()
            }],
            ..Default::default()
        }],
        ..Default::default()
    };
    let file = SpreadFile {
        workspaces: vec![ws1, ws2],
    };
    let mut mock = mock();

    engine::apply(&file, &mut mock).unwrap();

    let calls = &mock.backend().calls;
    let create_workspace_calls: Vec<&Call> = calls
        .iter()
        .filter(|c| matches!(c, Call::CreateWorkspace(_)))
        .collect();
    assert_eq!(create_workspace_calls.len(), 2);
    assert_eq!(
        create_workspace_calls[0],
        &Call::CreateWorkspace(WorkspaceOpts {
            label: "alpha".to_string(),
            cwd: None,
            env: EnvMap::new(),
            focus: false,
        })
    );
    assert_eq!(
        create_workspace_calls[1],
        &Call::CreateWorkspace(WorkspaceOpts {
            label: "beta".to_string(),
            cwd: None,
            env: EnvMap::new(),
            focus: false,
        })
    );

    let focus_calls: Vec<&Call> = calls
        .iter()
        .filter(|c| matches!(c, Call::FocusPane { .. }))
        .collect();
    assert_eq!(focus_calls.len(), 1);
    assert_eq!(
        calls.last(),
        Some(&Call::FocusPane {
            pane_id: "w1:p1".to_string(),
        })
    );
}

#[test]
fn should_focus_pane_inside_workspace_marked_focus_true_given_focus_on_second_workspace() {
    let ws1 = Workspace {
        name: "alpha".to_string(),
        tabs: vec![Tab {
            label: None,
            panes: vec![Pane {
                command: Some("nvim".to_string()),
                ..Default::default()
            }],
            ..Default::default()
        }],
        ..Default::default()
    };
    let ws2 = Workspace {
        name: "beta".to_string(),
        focus: true,
        tabs: vec![Tab {
            label: None,
            panes: vec![
                Pane {
                    command: None,
                    ..Default::default()
                },
                Pane {
                    command: Some("cargo run".to_string()),
                    focus: true,
                    ..Default::default()
                },
            ],
            ..Default::default()
        }],
        ..Default::default()
    };
    let file = SpreadFile {
        workspaces: vec![ws1, ws2],
    };
    let mut mock = mock();

    engine::apply(&file, &mut mock).unwrap();

    let calls = &mock.backend().calls;
    let focus_calls: Vec<&Call> = calls
        .iter()
        .filter(|c| matches!(c, Call::FocusPane { .. }))
        .collect();
    assert_eq!(focus_calls.len(), 1);
    assert_eq!(
        calls.last(),
        Some(&Call::FocusPane {
            pane_id: "w2:p2".to_string(),
        })
    );
}

#[test]
fn should_focus_last_workspace_marked_focus_true_when_multiple_workspaces_set_focus() {
    let ws1 = Workspace {
        name: "alpha".to_string(),
        focus: true,
        tabs: vec![Tab {
            label: None,
            panes: vec![Pane {
                command: Some("nvim".to_string()),
                ..Default::default()
            }],
            ..Default::default()
        }],
        ..Default::default()
    };
    let ws2 = Workspace {
        name: "beta".to_string(),
        tabs: vec![Tab {
            label: None,
            panes: vec![Pane {
                command: Some("cargo run".to_string()),
                ..Default::default()
            }],
            ..Default::default()
        }],
        ..Default::default()
    };
    let ws3 = Workspace {
        name: "gamma".to_string(),
        focus: true,
        tabs: vec![Tab {
            label: None,
            panes: vec![Pane {
                command: Some("logs".to_string()),
                ..Default::default()
            }],
            ..Default::default()
        }],
        ..Default::default()
    };
    let file = SpreadFile {
        workspaces: vec![ws1, ws2, ws3],
    };
    let mut mock = mock();

    engine::apply(&file, &mut mock).unwrap();

    assert_eq!(
        mock.backend().calls.last(),
        Some(&Call::FocusPane {
            pane_id: "w3:p1".to_string(),
        })
    );
}

#[test]
fn should_make_no_backend_calls_given_empty_workspaces_list() {
    let file = SpreadFile { workspaces: vec![] };
    let mut mock = mock();

    let result = engine::apply(&file, &mut mock);

    assert!(result.is_ok());
    assert!(mock.backend().calls.is_empty());
}

#[test]
fn should_return_marked_focus_pane_id_without_calling_focus_pane_when_applying_one_workspace() {
    let ws = Workspace {
        name: "demo".to_string(),
        tabs: vec![Tab {
            label: None,
            panes: vec![
                Pane {
                    command: None,
                    ..Default::default()
                },
                Pane {
                    command: Some("watch".to_string()),
                    focus: true,
                    ..Default::default()
                },
            ],
            ..Default::default()
        }],
        ..Default::default()
    };
    let mut mock = mock();

    let id = engine::apply_workspace(&ws, &mut mock).unwrap();

    assert_eq!(id, "w1:p2");
    assert!(
        !mock
            .backend()
            .calls
            .iter()
            .any(|c| matches!(c, Call::FocusPane { .. }))
    );
}

#[test]
fn apply_stops_at_the_first_failed_call_and_reports_it() {
    struct Failing {
        calls: usize,
    }
    impl HerdrBackend for Failing {
        fn create_workspace(&mut self, _o: &WorkspaceOpts) -> Result<WorkspaceCreated, BackendError> {
            self.calls += 1;
            Ok(WorkspaceCreated {
                workspace_id: "w".into(),
                tab_id: "w:t1".into(),
                root_pane_id: "w:p1".into(),
            })
        }
        fn rename_tab(&mut self, _t: &str, _l: &str) -> Result<(), BackendError> {
            self.calls += 1;
            Ok(())
        }
        fn create_tab(&mut self, _w: &str, _o: &TabOpts) -> Result<TabCreated, BackendError> {
            self.calls += 1;
            Ok(TabCreated { tab_id: "w:t2".into(), root_pane_id: "w:p2".into() })
        }
        fn split_pane(&mut self, _f: &str, _o: &SplitOpts) -> Result<String, BackendError> {
            self.calls += 1;
            Err(BackendError::CommandFailed { code: Some(1), stderr: "no room".into() })
        }
        fn run(&mut self, _p: &str, _c: &str) -> Result<(), BackendError> {
            self.calls += 1;
            Ok(())
        }
        fn wait_output(&mut self, _p: &str, _w: &WaitFor) -> Result<(), BackendError> {
            self.calls += 1;
            Ok(())
        }
        fn focus_pane(&mut self, _p: &str) -> Result<(), BackendError> {
            self.calls += 1;
            Ok(())
        }
    }
    let file = SpreadFile {
        workspaces: vec![Workspace {
            name: "demo".into(),
            tabs: vec![Tab {
                panes: vec![
                    Pane { command: Some("a".into()), ..Default::default() },
                    Pane { command: Some("b".into()), ..Default::default() },
                ],
                ..Default::default()
            }],
            ..Default::default()
        }],
    };
    let mut backend = Traced::new(Failing { calls: 0 });
    let result = engine::apply(&file, &mut backend);
    assert_eq!(
        result,
        Err(engine::EngineError::Backend(BackendError::CommandFailed {
            code: Some(1),
            stderr: "no room".into()
        }))
    );
    // create, run "a", failed split; nothing after it, no focus
    assert_eq!(backend.backend().calls, 3);
}

#[test]
fn apply_to_existing_builds_into_the_given_workspace_without_creating_one() {
    let ws = Workspace {
        name: "default".to_string(),
        tabs: vec![Tab {
            label: Some("dev".to_string()),
            panes: vec![
                Pane::default(),
                Pane { split: SplitDirection::Right, ratio: Some(ratio(0.5)), ..Default::default() },
            ],
            ..Default::default()
        }],
        ..Default::default()
    };
    let target = engine::ExistingWorkspace {
        workspace_id: "w7".to_string(),
        tab_id: "w7:t4".to_string(),
        root_pane_id: "w7:p9".to_string(),
    };
    let mut mock = mock();
    mock.backend();
    let focus = engine::apply_to_existing(&ws, &target, &mut mock).unwrap();
    assert_eq!(focus, "w7:p9");
    let calls = &mock.backend().calls;
    assert!(!calls.iter().any(|c| matches!(c, Call::CreateWorkspace(_))));
    assert_eq!(
        calls[0],
        Call::RenameTab { tab_id: "w7:t4".to_string(), label: "dev".to_string() }
    );
    assert_eq!(
        calls[1],
        Call::SplitPane {
            from: "w7:p9".to_string(),
            opts: SplitOpts { ratio: Some(ratio(0.5)), ..Default::default() },
        }
    );
}

#[test]
fn applying_one_workspace_file_is_building_it_then_focusing_its_pane() {
    let ws = || Workspace {
        name: "demo".to_string(),
        tabs: vec![Tab {
            panes: vec![
                Pane { command: Some("nvim".to_string()), ..Default::default() },
                Pane { command: Some("logs".to_string()), focus: true, ..Default::default() },
            ],
            ..Default::default()
        }],
        ..Default::default()
    };
    let mut alone = mock();
    let focus = engine::apply_workspace(&ws(), &mut alone).unwrap();
    let mut whole = mock();
    engine::apply(&SpreadFile { workspaces: vec![ws()] }, &mut whole).unwrap();

    let mut expected = alone.backend().calls.iter().map(|c| format!("{c:?}")).collect::<Vec<_>>();
    expected.push(format!("{:?}", Call::FocusPane { pane_id: focus }));
    let got = whole.backend().calls.iter().map(|c| format!("{c:?}")).collect::<Vec<_>>();
    assert_eq!(got, expected);
}

#[test]
fn accepted_file_builds_without_stopping_for_waits() {
    let pane = |command: Option<&str>| Pane {
        command: command.map(str::to_string),
        wait_for: Some(WaitFor { pattern: "ready".to_string(), timeout_ms: Some(5) }),
        ..Default::default()
    };
    let file = |command: Option<&str>| SpreadFile {
        workspaces: vec![Workspace {
            name: "demo".to_string(),
            tabs: vec![Tab { panes: vec![pane(command)], ..Default::default() }],
            ..Default::default()
        }],
    };

    let accepted = validate_config("c.yaml", Ok(file(Some("serve")))).unwrap();
    let mut backend = mock();
    assert_eq!(engine::apply(&accepted, &mut backend), Ok(()));

    assert!(validate_config("c.yaml", Ok(file(None))).is_err());
    let mut backend = mock();
    assert_eq!(
        engine::apply(&file(None), &mut backend),
        Err(engine::EngineError::WaitForWithoutCommand)
    );
}

fn leaf(command: &str) -> LayoutNode {
    LayoutNode::Pane(LayoutPane {
        pane: Pane { command: Some(command.to_string()), ..Default::default() },
    })
}

fn split(direction: SplitDirection, children: Vec<LayoutNode>) -> LayoutNode {
    LayoutNode::Split(LayoutSplit { split: direction, ratio: Some(ratio(0.5)), children })
}

fn grid_file() -> SpreadFile {
    SpreadFile {
        workspaces: vec![Workspace {
            name: "grid".to_string(),
            tabs: vec![Tab {
                layout: Some(split(
                    SplitDirection::Right,
                    vec![
                        split(SplitDirection::Down, vec![leaf("a"), leaf("b")]),
                        split(SplitDirection::Down, vec![leaf("c"), leaf("d")]),
                    ],
                )),
                ..Default::default()
            }],
            ..Default::default()
        }],
    }
}

#[test]
fn should_plan_balanced_two_by_two_grid_by_splitting_both_columns() {
    let mut mock = mock();
    engine::apply(&grid_file(), &mut mock).unwrap();
    let split_pairs: Vec<(String, SplitDirection)> = mock
        .backend()
        .calls
        .iter()
        .filter_map(|c| match c {
            Call::SplitPane { from, opts } => Some((from.clone(), opts.direction)),
            _ => None,
        })
        .collect();
    // The tab root splits off the right column, the left column splits off
    // its lower pane, then the right column (w1:p2) splits off its own.
    assert_eq!(
        split_pairs,
        vec![
            ("w1:p1".to_string(), SplitDirection::Right),
            ("w1:p1".to_string(), SplitDirection::Down),
            ("w1:p2".to_string(), SplitDirection::Down),
        ]
    );
}

#[test]
fn layout_leaves_run_their_commands_in_their_own_panes_and_take_focus() {
    let mut file = grid_file();
    if let Some(LayoutNode::Split(root)) = &mut file.workspaces[0].tabs[0].layout {
        if let LayoutNode::Split(right) = &mut root.children[1] {
            if let LayoutNode::Pane(p) = &mut right.children[1] {
                p.pane.focus = true;
            }
        }
    }
    let mut mock = mock();
    engine::apply(&file, &mut mock).unwrap();
    let runs: Vec<(String, String)> = mock
        .backend()
        .calls
        .iter()
        .filter_map(|c| match c {
            Call::Run { pane_id, command } => Some((pane_id.clone(), command.clone())),
            _ => None,
        })
        .collect();
    assert_eq!(
        runs,
        vec![
            ("w1:p1".to_string(), "a".to_string()),
            ("w1:p3".to_string(), "b".to_string()),
            ("w1:p2".to_string(), "c".to_string()),
            ("w1:p4".to_string(), "d".to_string()),
        ]
    );
    assert_eq!(
        mock.backend().calls.last(),
        Some(&Call::FocusPane { pane_id: "w1:p4".to_string() })
    );
}

#[test]
fn layout_split_takes_the_directory_of_the_new_pane_first_leaf() {
    let sub = LayoutNode::Pane(LayoutPane {
        pane: Pane { cwd: Some("./sub".to_string()), ..Default::default() },
    });
    let file = SpreadFile {
        workspaces: vec![Workspace {
            name: "demo".to_string(),
            root: Some("/proj".to_string()),
            tabs: vec![Tab {
                layout: Some(split(SplitDirection::Right, vec![leaf("a"), sub])),
                ..Default::default()
            }],
            ..Default::default()
        }],
    };
    let mut mock = mock();
    engine::apply(&file, &mut mock).unwrap();
    let cwd = mock.backend().calls.iter().find_map(|c| match c {
        Call::SplitPane { opts, .. } => Some(opts.cwd.clone()),
        _ => None,
    });
    assert_eq!(cwd, Some(Some("/proj/sub".to_string())));
}
