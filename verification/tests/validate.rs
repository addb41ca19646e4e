use herdr_spreader::config::{
    LayoutNode, LayoutPane, LayoutSplit, Pane, Ratio, SplitDirection, SpreadFile, Tab, WaitFor,
    Workspace,
};
use herdr_spreader::validate::{
    decimal_text, finding_line, validate, validate_config, Severity, ValidationFinding,
};

fn ratio(x: f64) -> Option<Ratio> {
    Some(Ratio {
        bits: x.to_bits(),
        text: x.to_string(),
    })
}

fn one_pane_file(pane: Pane) -> SpreadFile {
    SpreadFile {
        workspaces: vec![Workspace {
            name: "demo".to_string(),
            tabs: vec![Tab {
                panes: vec![pane],
                ..Default::default()
            }],
            ..Default::default()
        }],
    }
}

fn named(names: &[(&str, bool)]) -> SpreadFile {
    SpreadFile {
        workspaces: names
            .iter()
            .map(|(n, focus)| Workspace {
                name: n.to_string(),
                focus: *focus,
                ..Default::default()
            })
            .collect(),
    }
}

#[test]
fn should_return_empty_findings_list_given_valid_minimal_config() {
    let file = named(&[("demo", false)]);
    let findings = validate(&file);
    assert!(findings.is_empty());
}

#[test]
fn should_report_error_given_workspace_with_empty_name() {
    let file = named(&[("", false)]);
    let findings = validate(&file);
    assert_eq!(findings.len(), 1);
    assert_eq!(findings[0].severity, Severity::Error);
    assert!(findings[0].message.contains("empty"));
}

#[test]
fn should_report_error_given_duplicate_workspace_names() {
    let file = named(&[("frontend", false), ("frontend", false)]);
    let findings = validate(&file);
    let dup_findings: Vec<_> = findings
        .iter()
        .filter(|f| f.message.contains("duplicate"))
        .collect();
    assert_eq!(dup_findings.len(), 1);
    assert_eq!(dup_findings[0].severity, Severity::Error);
}

#[test]
fn should_report_error_given_ratio_equal_to_zero() {
    let findings = validate(&one_pane_file(Pane {
        ratio: ratio(0.0),
        ..Default::default()
    }));
    assert_eq!(findings.len(), 1);
    assert_eq!(findings[0].severity, Severity::Error);
}

#[test]
fn should_report_error_given_ratio_equal_to_one() {
    let findings = validate(&one_pane_file(Pane {
        ratio: ratio(1.0),
        ..Default::default()
    }));
    assert_eq!(findings.len(), 1);
    assert_eq!(findings[0].severity, Severity::Error);
}

#[test]
fn should_report_error_given_negative_ratio() {
    let findings = validate(&one_pane_file(Pane {
        ratio: ratio(-0.5),
        ..Default::default()
    }));
    assert_eq!(findings.len(), 1);
    assert_eq!(findings[0].severity, Severity::Error);
}

#[test]
fn should_skip_ratio_check_when_ratio_is_none() {
    let findings = validate(&one_pane_file(Pane {
        ratio: None,
        ..Default::default()
    }));
    assert!(findings.is_empty());
}

#[test]
fn should_accept_valid_ratio_between_zero_and_one() {
    let findings = validate(&one_pane_file(Pane {
        ratio: ratio(0.5),
        ..Default::default()
    }));
    assert!(findings.is_empty());
}

#[test]
fn should_report_warning_given_multiple_focused_workspaces() {
    let file = named(&[("alpha", true), ("beta", false), ("gamma", true)]);
    let findings = validate(&file);
    let focus_warnings: Vec<_> = findings
        .iter()
        .filter(|f| f.severity == Severity::Warning && f.message.contains("focus"))
        .collect();
    assert_eq!(focus_warnings.len(), 1);
}

#[test]
fn should_not_report_warning_given_exactly_one_focused_workspace() {
    let file = named(&[("alpha", true), ("beta", false)]);
    let findings = validate(&file);
    assert!(!findings.iter().any(|f| f.message.contains("focus")));
}

#[test]
fn should_not_report_warning_given_zero_focused_workspaces() {
    let file = named(&[("alpha", false), ("beta", false)]);
    let findings = validate(&file);
    assert!(!findings.iter().any(|f| f.message.contains("focus")));
}

#[test]
fn should_report_warning_given_tab_with_no_panes() {
    let file = SpreadFile {
        workspaces: vec![Workspace {
            name: "demo".to_string(),
            tabs: vec![Tab {
                label: None,
                panes: vec![],
                ..Default::default()
            }],
            ..Default::default()
        }],
    };
    let findings = validate(&file);
    let tab_warnings: Vec<_> = findings
        .iter()
        .filter(|f| f.severity == Severity::Warning && f.message.contains("no panes"))
        .collect();
    assert_eq!(tab_warnings.len(), 1);
}

#[test]
fn should_not_report_warning_given_tab_with_panes() {
    let findings = validate(&one_pane_file(Pane::default()));
    assert!(!findings.iter().any(|f| f.message.contains("no panes")));
}

#[test]
fn should_report_error_given_pane_with_wait_for_but_no_command() {
    let findings = validate(&one_pane_file(Pane {
        command: None,
        wait_for: Some(WaitFor {
            pattern: "ready".to_string(),
            timeout_ms: None,
        }),
        ..Default::default()
    }));
    let wait_findings: Vec<_> = findings
        .iter()
        .filter(|f| f.message.contains("wait_for"))
        .collect();
    assert_eq!(wait_findings.len(), 1);
    assert_eq!(wait_findings[0].severity, Severity::Error);
}

#[test]
fn should_not_report_wait_for_error_given_pane_with_both_command_and_wait_for() {
    let findings = validate(&one_pane_file(Pane {
        command: Some("cargo run".to_string()),
        wait_for: Some(WaitFor {
            pattern: "ready".to_string(),
            timeout_ms: None,
        }),
        ..Default::default()
    }));
    assert!(!findings.iter().any(|f| f.message.contains("wait_for")));
}

// The layout file is parsed outside the library; these hand it what the
// parser gives for the same text.

#[test]
fn should_return_ok_with_spread_file_given_clean_yaml() {
    let result = validate_config("config.yaml", Ok(named(&[("demo", false)])));
    assert!(result.is_ok());
    assert_eq!(result.unwrap().workspaces[0].name, "demo");
}

#[test]
fn should_return_err_with_parse_finding_given_malformed_yaml() {
    let result = validate_config(
        "/cfg/spread.yaml",
        Err("unknown field `name`, expected `workspaces`".to_string()),
    );
    let err = result.unwrap_err();
    assert_eq!(err.len(), 1);
    assert_eq!(err[0].severity, Severity::Error);
    assert!(err[0].message.contains("/cfg/spread.yaml"));
    assert!(err[0].message.to_lowercase().contains("parse"));
}

#[test]
fn should_return_err_with_findings_given_duplicate_workspace_names() {
    let result = validate_config("c.yaml", Ok(named(&[("frontend", false), ("frontend", false)])));
    let err = result.unwrap_err();
    assert!(err
        .iter()
        .any(|f| f.message.contains("duplicate") && f.severity == Severity::Error));
}

#[test]
fn should_return_err_given_warning_only_config_with_empty_tab() {
    let file = SpreadFile {
        workspaces: vec![Workspace {
            name: "demo".to_string(),
            tabs: vec![Tab::default()],
            ..Default::default()
        }],
    };
    let err = validate_config("c.yaml", Ok(file)).unwrap_err();
    assert!(err
        .iter()
        .any(|f| f.severity == Severity::Warning && f.message.contains("no panes")));
}

#[test]
fn validate_reports_exact_messages_in_order() {
    let file = SpreadFile {
        workspaces: vec![
            Workspace {
                name: "a".to_string(),
                focus: true,
                tabs: vec![Tab {
                    label: Some("t".to_string()),
                    ..Default::default()
                }],
                ..Default::default()
            },
            Workspace {
                name: "a".to_string(),
                focus: true,
                ..Default::default()
            },
        ],
    };
    let messages: Vec<String> = validate(&file).into_iter().map(|f| f.message).collect();
    assert_eq!(
        messages,
        vec![
            "tab 't' in workspace 'a' has no panes".to_string(),
            "duplicate workspace name 'a'".to_string(),
            "2 workspaces have `focus: true`; only the last one will receive focus".to_string(),
        ]
    );
}

#[test]
fn ratio_message_names_the_number_and_workspace() {
    let findings = validate(&one_pane_file(Pane {
        ratio: ratio(1.5),
        ..Default::default()
    }));
    assert_eq!(
        findings[0].message,
        "pane ratio 1.5 in workspace 'demo' must be between 0 and 1 (exclusive)"
    );
}

#[test]
fn nan_ratio_is_not_reported() {
    let findings = validate(&one_pane_file(Pane {
        ratio: ratio(f64::NAN),
        ..Default::default()
    }));
    assert!(findings.is_empty());
}

#[test]
fn parse_failure_message_names_path_and_error() {
    let err = validate_config("/x.yml", Err("bad".to_string())).unwrap_err();
    assert_eq!(err[0].message, "failed to parse config file /x.yml: bad");
}

#[test]
fn finding_line_tags_severity() {
    let e = ValidationFinding {
        severity: Severity::Error,
        message: "m".to_string(),
    };
    let w = ValidationFinding {
        severity: Severity::Warning,
        message: "n".to_string(),
    };
    assert_eq!(finding_line(&e), "[ERROR] m");
    assert_eq!(finding_line(&w), "[WARNING] n");
}

#[test]
fn decimal_text_writes_digits() {
    assert_eq!(decimal_text(0), "0");
    assert_eq!(decimal_text(7), "7");
    assert_eq!(decimal_text(1203), "1203");
}

fn broken(tab: Tab) -> SpreadFile {
    SpreadFile {
        workspaces: vec![Workspace {
            name: "broken".to_string(),
            tabs: vec![tab],
            ..Default::default()
        }],
    }
}

#[test]
fn should_reject_layout_split_without_exactly_two_children() {
    let file = broken(Tab {
        layout: Some(LayoutNode::Split(LayoutSplit {
            split: SplitDirection::Right,
            ratio: None,
            children: vec![LayoutNode::Pane(LayoutPane::default())],
        })),
        ..Default::default()
    });
    let findings = validate_config("broken.yaml", Ok(file)).unwrap_err();
    assert!(findings
        .iter()
        .any(|finding| finding.message.contains("exactly 2 children")));
}

#[test]
fn should_reject_tab_that_combines_legacy_panes_and_layout_tree() {
    let file = broken(Tab {
        panes: vec![Pane {
            command: Some("nvim".to_string()),
            ..Default::default()
        }],
        layout: Some(LayoutNode::Pane(LayoutPane::default())),
        ..Default::default()
    });
    let findings = validate_config("broken.yaml", Ok(file)).unwrap_err();
    assert!(findings
        .iter()
        .any(|finding| finding.message.contains("either `panes` or `layout`")));
}

#[test]
fn layout_findings_come_depth_first() {
    let leaf = |ratio_value: f64| {
        LayoutNode::Pane(LayoutPane {
            pane: Pane {
                ratio: ratio(ratio_value),
                ..Default::default()
            },
        })
    };
    let file = broken(Tab {
        layout: Some(LayoutNode::Split(LayoutSplit {
            split: SplitDirection::Down,
            ratio: ratio(2.0),
            children: vec![leaf(0.0), leaf(0.5), leaf(1.0)],
        })),
        ..Default::default()
    });
    let messages: Vec<String> = validate(&file).into_iter().map(|f| f.message).collect();
    assert_eq!(
        messages,
        vec![
            "pane ratio 2 in workspace 'broken' must be between 0 and 1 (exclusive)".to_string(),
            "layout split in workspace 'broken' must have exactly 2 children".to_string(),
            "pane ratio 0 in workspace 'broken' must be between 0 and 1 (exclusive)".to_string(),
            "pane ratio 1 in workspace 'broken' must be between 0 and 1 (exclusive)".to_string(),
        ]
    );
}
